//! What to open for a path: a shard, an index or a directory of shards, and
//! which shard files an index may refer to.

use vstd::prelude::*;
use vstd::string::StringSliceAdditionalSpecFns;

use crate::catalog;
use crate::error::{ErrorView, LoaderError};
use crate::name_map;
use crate::name_map::NameMap;
use crate::path;
use crate::path::{sort_paths, FilePath};
use crate::text;
use crate::text::to_chars;

verus! {

pub const INDEX_SUFFIX: &'static str = ".safetensors.index.json";

pub const SHARD_SUFFIX: &'static str = ".safetensors";

pub const SEVERAL_INDEXES: &'static str = "multiple *.safetensors.index.json files found";

pub const SEVERAL_SHARDS: &'static str =
    "multiple .safetensors files with no index; disjoint tensor names alone \
     don't prove they're shards of one model (they're also what several \
     independent components dropped in the same folder would look like) — \
     pass an explicit index/file path, or opt in via \
     OpenOptions::allow_implicit_multi_shard if you already know these files \
     belong to one checkpoint";

pub const ABSOLUTE_PATH: &'static str = "absolute shard paths are not allowed";

pub const PATH_TRAVERSAL: &'static str = "'..' path traversal is not allowed";

pub const OUTSIDE_ROOT: &'static str =
    "resolves outside the trusted checkpoint root (possible symlink escape)";

/// What there is to open.
#[derive(Debug)]
pub enum Input {
    /// One file that holds the whole checkpoint.
    SingleFile(FilePath),
    /// An index with a weight map.
    Index(FilePath),
    /// Files of one directory that together hold one checkpoint. Their tensors
    /// must have different names.
    ImplicitShards(Vec<FilePath>),
}

/// What an [`Input`] says.
#[verifier::ext_equal]
pub enum InputView {
    SingleFile(Seq<u8>),
    Index(Seq<u8>),
    ImplicitShards(Seq<Seq<u8>>),
}

impl View for Input {
    type V = InputView;

    open spec fn view(&self) -> InputView {
        match self {
            Input::SingleFile(p) => InputView::SingleFile(p@),
            Input::Index(p) => InputView::Index(p@),
            Input::ImplicitShards(ps) => InputView::ImplicitShards(path::path_views(ps@)),
        }
    }
}

/// An entry of a directory.
#[derive(Debug)]
pub struct DirEntry {
    pub path: FilePath,
    pub is_file: bool,
}

/// What a path turned out to be.
#[derive(Debug)]
pub enum Listing {
    File,
    Directory(Vec<DirEntry>),
    Other,
}

/// The path and kind of each entry of a directory.
pub open spec fn entry_views(entries: Seq<DirEntry>) -> Seq<(Seq<u8>, bool)> {
    entries.map_values(|e: DirEntry| (e.path@, e.is_file))
}

/// What a [`Listing`] says.
pub enum ListingView {
    File,
    Directory(Seq<(Seq<u8>, bool)>),
    Other,
}

impl View for Listing {
    type V = ListingView;

    open spec fn view(&self) -> ListingView {
        match self {
            Listing::File => ListingView::File,
            Listing::Directory(entries) => ListingView::Directory(entry_views(entries@)),
            Listing::Other => ListingView::Other,
        }
    }
}

/// The path names an index.
pub open spec fn is_index(p: Seq<u8>) -> bool {
    INDEX_SUFFIX.spec_bytes().is_suffix_of(p)
}

/// The path names a shard.
pub open spec fn is_shard(p: Seq<u8>) -> bool {
    !is_index(p) && SHARD_SUFFIX.spec_bytes().is_suffix_of(p)
}

/// The files among the entries that name an index, or that name a shard.
pub open spec fn candidates(entries: Seq<(Seq<u8>, bool)>, indexes: bool) -> Seq<Seq<u8>>
    decreases entries.len(),
{
    if entries.len() == 0 {
        Seq::empty()
    } else {
        let before = candidates(entries.drop_last(), indexes);
        let (p, is_file) = entries.last();
        if is_file && (if indexes { is_index(p) } else { is_shard(p) }) {
            before.push(p)
        } else {
            before
        }
    }
}

/// What a path stands for, or why it stands for nothing.
pub open spec fn resolved_input(
    p: Seq<u8>,
    listing: ListingView,
    allow_implicit_multi_shard: bool,
) -> Result<InputView, ErrorView> {
    match listing {
        ListingView::File => if is_index(p) {
            Ok(InputView::Index(p))
        } else if is_shard(p) {
            Ok(InputView::SingleFile(p))
        } else {
            Err(ErrorView::UnsupportedInput { path: p })
        },
        ListingView::Directory(entries) => {
            let indexes = path::sorted_paths(candidates(entries, true));
            let shards = path::sorted_paths(candidates(entries, false));
            if indexes.len() == 1 {
                Ok(InputView::Index(indexes[0]))
            } else if indexes.len() > 1 {
                Err(
                    ErrorView::AmbiguousDirectory {
                        dir: p,
                        reason: SEVERAL_INDEXES@,
                        candidates: indexes,
                    },
                )
            } else if shards.len() == 0 {
                Err(ErrorView::NoShardsFound { dir: p })
            } else if shards.len() == 1 {
                Ok(InputView::SingleFile(shards[0]))
            } else if !allow_implicit_multi_shard {
                Err(
                    ErrorView::AmbiguousDirectory {
                        dir: p,
                        reason: SEVERAL_SHARDS@,
                        candidates: shards,
                    },
                )
            } else {
                Ok(InputView::ImplicitShards(shards))
            }
        },
        ListingView::Other => Err(ErrorView::UnsupportedInput { path: p }),
    }
}

/// Decides what to open for a path, given what the path turned out to be.
pub fn resolve_input(path: &FilePath, listing: &Listing, allow_implicit_multi_shard: bool) -> (r:
    Result<Input, LoaderError>)
    ensures
        match r {
            Ok(input) => resolved_input(path@, listing@, allow_implicit_multi_shard) == Ok::<
                _,
                ErrorView,
            >(input@),
            Err(e) => resolved_input(path@, listing@, allow_implicit_multi_shard) == Err::<
                InputView,
                _,
            >(e@),
        },
{
    match listing {
        Listing::File => {
            if path.ends_with(INDEX_SUFFIX) {
                return Ok(Input::Index(path.clone()));
            }
            if path.ends_with(SHARD_SUFFIX) {
                return Ok(Input::SingleFile(path.clone()));
            }
            Err(LoaderError::UnsupportedInput { path: path.clone() })
        },
        Listing::Directory(entries) => {
            let ghost views = entry_views(entries@);
            let mut index_candidates: Vec<FilePath> = Vec::new();
            let mut shard_candidates: Vec<FilePath> = Vec::new();
            let mut i: usize = 0;
            proof {
                assert(views.take(0) =~= Seq::<(Seq<u8>, bool)>::empty());
                assert(path::path_views(index_candidates@) =~= Seq::<Seq<u8>>::empty());
                assert(path::path_views(shard_candidates@) =~= Seq::<Seq<u8>>::empty());
            }
            while i < entries.len()
                invariant
                    i <= entries@.len(),
                    views == entry_views(entries@),
                    path::path_views(index_candidates@) == candidates(views.take(i as int), true),
                    path::path_views(shard_candidates@) == candidates(views.take(i as int), false),
                decreases entries@.len() - i,
            {
                let entry = &entries[i];
                let ghost found = path::path_views(index_candidates@);
                let ghost shards = path::path_views(shard_candidates@);
                proof {
                    assert(views[i as int] == (entry.path@, entry.is_file));
                    assert(views.take(i + 1).drop_last() =~= views.take(i as int));
                }
                if entry.is_file {
                    if entry.path.ends_with(INDEX_SUFFIX) {
                        index_candidates.push(entry.path.clone());
                        assert(path::path_views(index_candidates@) =~= found.push(entry.path@));
                    } else if entry.path.ends_with(SHARD_SUFFIX) {
                        shard_candidates.push(entry.path.clone());
                        assert(path::path_views(shard_candidates@) =~= shards.push(entry.path@));
                    }
                }
                i = i + 1;
            }
            assert(views.take(i as int) =~= views);
            let index_candidates = sort_paths(index_candidates);
            let shard_candidates = sort_paths(shard_candidates);
            if index_candidates.len() == 1 {
                assert(path::path_views(index_candidates@)[0] == index_candidates@[0]@);
                return Ok(Input::Index(index_candidates[0].clone()));
            }
            if index_candidates.len() > 1 {
                return Err(
                    LoaderError::AmbiguousDirectory {
                        dir: path.clone(),
                        reason: SEVERAL_INDEXES,
                        candidates: index_candidates,
                    },
                );
            }
            if shard_candidates.len() == 0 {
                return Err(LoaderError::NoShardsFound { dir: path.clone() });
            }
            if shard_candidates.len() == 1 {
                assert(path::path_views(shard_candidates@)[0] == shard_candidates@[0]@);
                return Ok(Input::SingleFile(shard_candidates[0].clone()));
            }
            if !allow_implicit_multi_shard {
                return Err(
                    LoaderError::AmbiguousDirectory {
                        dir: path.clone(),
                        reason: SEVERAL_SHARDS,
                        candidates: shard_candidates,
                    },
                );
            }
            Ok(Input::ImplicitShards(shard_candidates))
        },
        Listing::Other => Err(LoaderError::UnsupportedInput { path: path.clone() }),
    }
}

/// Why a shard path in an index is rejected as it is written, if it is.
pub open spec fn shard_name_fault(raw: Seq<char>) -> Option<Seq<char>> {
    if raw.len() > 0 && raw[0] == '/' {
        Some(ABSOLUTE_PATH@)
    } else if text::split(raw, '/').contains(seq!['.', '.']) {
        Some(PATH_TRAVERSAL@)
    } else {
        None
    }
}

/// Whether a path has a part `..` between its separators.
fn has_parent_part(raw: &Vec<char>) -> (r: bool)
    ensures
        r == text::split(raw@, '/').contains(seq!['.', '.']),
{
    let ghost s = raw@;
    let ghost dots = seq!['.', '.'];
    let mut dotted: bool = true;
    let mut len: usize = 0;
    let mut found: bool = false;
    let mut i: usize = 0;
    proof {
        assert(s.take(0) =~= Seq::<char>::empty());
        assert(text::split(s.take(0), '/').drop_last() =~= Seq::<Seq<char>>::empty());
    }
    while i < raw.len()
        invariant
            i <= raw@.len(),
            s == raw@,
            dots == seq!['.', '.'],
            text::split(s.take(i as int), '/').len() > 0,
            len <= i,
            len == text::split(s.take(i as int), '/').last().len(),
            dotted == forall|j: int|
                0 <= j < len ==> (#[trigger] text::split(s.take(i as int), '/').last()[j]) == '.',
            found == text::split(s.take(i as int), '/').drop_last().contains(dots),
        decreases raw@.len() - i,
    {
        let c = raw[i];
        let ghost before = text::split(s.take(i as int), '/');
        let ghost after = text::split(s.take(i + 1), '/');
        assert(s.take(i + 1).drop_last() =~= s.take(i as int));
        if c == '/' {
            assert(after.drop_last() =~= before);
            proof {
                lemma_parts(before, dots);
                if dotted && len == 2 {
                    assert(before.last() =~= dots);
                }
                if before.last() == dots {
                    assert(before.last()[0] == '.' && before.last()[1] == '.');
                    assert(dotted);
                }
            }
            if dotted && len == 2 {
                found = true;
            }
            len = 0;
            dotted = true;
        } else {
            let ghost old = before.last();
            proof {
                assert(after.drop_last() =~= before.drop_last());
                assert(after.last() == old.push(c));
                if dotted && c == '.' {
                    assert forall|j: int| 0 <= j < len + 1 implies (#[trigger] after.last()[j])
                        == '.' by {
                        if j < len {
                            assert(old[j] == '.');
                        }
                    }
                } else if dotted {
                    assert(after.last()[len as int] != '.');
                } else {
                    let j = choose|j: int| 0 <= j < len && (#[trigger] old[j]) != '.';
                    assert(after.last()[j] != '.');
                }
            }
            dotted = dotted && c == '.';
            len = len + 1;
        }
        i = i + 1;
    }
    proof {
        assert(s.take(i as int) =~= s);
        let all = text::split(s, '/');
        lemma_parts(all, dots);
        if dotted && len == 2 {
            assert(all.last() =~= dots);
        }
        if all.last() == dots {
            assert(all.last()[0] == '.' && all.last()[1] == '.');
            assert(dotted);
        }
    }
    found || (dotted && len == 2)
}

proof fn lemma_parts(parts: Seq<Seq<char>>, x: Seq<char>)
    requires
        parts.len() > 0,
    ensures
        parts.contains(x) <==> parts.drop_last().contains(x) || parts.last() == x,
{
    if parts.contains(x) {
        let j = choose|j: int| 0 <= j < parts.len() && parts[j] == x;
        if j < parts.len() - 1 {
            assert(parts.drop_last()[j] == x);
        }
    }
    if parts.drop_last().contains(x) {
        let j = choose|j: int| 0 <= j < parts.len() - 1 && parts.drop_last()[j] == x;
        assert(parts[j] == x);
    }
    if parts.last() == x {
        assert(parts[parts.len() - 1] == x);
    }
}

/// Rejects a shard path of an index as it is written, before anything is looked
/// up: it must be relative and must not climb.
pub fn check_shard_name(index_path: &FilePath, raw: &str) -> (r: Result<(), LoaderError>)
    ensures
        match r {
            Ok(_) => shard_name_fault(raw@) is None,
            Err(e) => shard_name_fault(raw@) matches Some(reason) && e@ == (
            ErrorView::UnsafeShardPath { index_path: index_path@, raw: raw@, reason }),
        },
{
    let chars = to_chars(raw);
    if chars.len() > 0 && chars[0] == '/' {
        return Err(
            LoaderError::UnsafeShardPath {
                index_path: index_path.clone(),
                raw: raw.to_owned(),
                reason: ABSOLUTE_PATH,
            },
        );
    }
    if has_parent_part(&chars) {
        return Err(
            LoaderError::UnsafeShardPath {
                index_path: index_path.clone(),
                raw: raw.to_owned(),
                reason: PATH_TRAVERSAL,
            },
        );
    }
    Ok(())
}

/// The directory that a shard must not resolve out of: the trusted root where
/// one was given, else the directory of the index.
pub open spec fn boundary_of(root: Seq<u8>, trusted_root: Option<Seq<u8>>) -> Seq<u8> {
    match trusted_root {
        Some(trusted) => trusted,
        None => root,
    }
}

/// The directory that the shards of an index in `root` must not resolve out of.
pub fn shard_boundary(root: &FilePath, trusted_root: Option<&FilePath>) -> (r: FilePath)
    ensures
        r@ == boundary_of(
            root@,
            match trusted_root {
                Some(t) => Some(t@),
                None => None,
            },
        ),
{
    match trusted_root {
        Some(trusted) => trusted.clone(),
        None => root.clone(),
    }
}

/// The file that a shard path of an index stands for, or why it is rejected.
/// `boundary` and `shard` are where the boundary and the shard really are, all
/// links followed.
pub open spec fn resolved_shard(
    index_path: Seq<u8>,
    raw: Seq<char>,
    boundary: Seq<u8>,
    shard: Seq<u8>,
) -> Result<Seq<u8>, ErrorView> {
    match shard_name_fault(raw) {
        Some(reason) => Err(ErrorView::UnsafeShardPath { index_path, raw, reason }),
        None => if path::lies_within(shard, boundary) {
            Ok(shard)
        } else {
            Err(ErrorView::UnsafeShardPath { index_path, raw, reason: OUTSIDE_ROOT@ })
        },
    }
}

/// Resolves a shard path of an index. The path must be relative, must not
/// climb, and the file behind it, all links followed, must lie within the
/// boundary. This catches a name that looks plain but is a link to elsewhere.
pub fn resolve_shard_path(
    index_path: &FilePath,
    raw: &str,
    boundary: &FilePath,
    shard: &FilePath,
) -> (r: Result<FilePath, LoaderError>)
    ensures
        match r {
            Ok(p) => resolved_shard(index_path@, raw@, boundary@, shard@) == Ok::<_, ErrorView>(p@),
            Err(e) => resolved_shard(index_path@, raw@, boundary@, shard@) == Err::<Seq<u8>, _>(
                e@,
            ),
        },
{
    match check_shard_name(index_path, raw) {
        Err(e) => Err(e),
        Ok(_) => if shard.starts_with(boundary) {
            Ok(shard.clone())
        } else {
            Err(
                LoaderError::UnsafeShardPath {
                    index_path: index_path.clone(),
                    raw: raw.to_owned(),
                    reason: OUTSIDE_ROOT,
                },
            )
        },
    }
}

/// An index: for each tensor the shard file that holds it.
#[derive(Debug)]
pub struct IndexJson {
    pub weight_map: NameMap<String>,
}

impl View for IndexJson {
    type V = Map<Seq<char>, Seq<char>>;

    open spec fn view(&self) -> Map<Seq<char>, Seq<char>> {
        self.weight_map@.map_values(|raw: String| raw@)
    }
}

/// The tensors that an index assigns to a shard path.
pub open spec fn names_in(index: Map<Seq<char>, Seq<char>>, raw: Seq<char>) -> Set<Seq<char>> {
    index.dom().filter(|name: Seq<char>| index[name] == raw)
}

/// The shard paths of an index in order, each with its tensors in order.
pub open spec fn planned(index: Map<Seq<char>, Seq<char>>) -> Seq<
    (Seq<char>, Seq<Seq<char>>),
> {
    name_map::ordered(index.values()).map_values(
        |raw: Seq<char>| (raw, name_map::ordered(names_in(index, raw))),
    )
}

/// The shards of an index, to be opened one after the other: their paths in
/// order, each with its tensors in order.
#[derive(Debug)]
pub struct ShardPlan {
    slots: NameMap<usize>,
    lists: Vec<Vec<String>>,
}

impl View for ShardPlan {
    type V = Seq<(Seq<char>, Seq<Seq<char>>)>;

    closed spec fn view(&self) -> Seq<(Seq<char>, Seq<Seq<char>>)> {
        Seq::new(
            self.slots.keys().len(),
            |i: int|
                (
                    self.slots.keys()[i],
                    catalog::name_views(self.lists@[self.slots.values()[i] as int]@),
                ),
        )
    }
}

/// Of the first `n` names, those to which `raw` is assigned.
spec fn picked(keys: Seq<Seq<char>>, raws: Seq<Seq<char>>, raw: Seq<char>, n: int) -> Seq<Seq<char>>
    decreases n,
{
    if n <= 0 {
        Seq::empty()
    } else if raws[n - 1] == raw {
        picked(keys, raws, raw, n - 1).push(keys[n - 1])
    } else {
        picked(keys, raws, raw, n - 1)
    }
}

proof fn lemma_picked(keys: Seq<Seq<char>>, raws: Seq<Seq<char>>, raw: Seq<char>, n: int)
    requires
        0 <= n <= keys.len(),
        keys.len() == raws.len(),
        name_map::ascending(keys),
    ensures
        name_map::ascending(picked(keys, raws, raw, n)),
        forall|k: Seq<char>| #[trigger]
            picked(keys, raws, raw, n).contains(k) <==> exists|a: int|
                0 <= a < n && #[trigger] keys[a] == k && raws[a] == raw,
    decreases n,
{
    let all = picked(keys, raws, raw, n);
    if n > 0 {
        lemma_picked(keys, raws, raw, n - 1);
        let before = picked(keys, raws, raw, n - 1);
        assert forall|i: int, j: int| 0 <= i < j < all.len() implies #[trigger] text::text_before(
            all[i],
            all[j],
        ) by {
            if j < before.len() {
                assert(text::text_before(before[i], before[j]));
            } else {
                assert(before.contains(before[i]));
                let a = choose|a: int| 0 <= a < n - 1 && #[trigger] keys[a] == before[i];
                assert(text::text_before(keys[a], keys[n - 1]));
            }
        }
        assert forall|k: Seq<char>| #[trigger] all.contains(k) <==> exists|a: int|
            0 <= a < n && #[trigger] keys[a] == k && raws[a] == raw by {
            if all.contains(k) {
                let j = choose|j: int| 0 <= j < all.len() && all[j] == k;
                if j < before.len() {
                    assert(before.contains(k));
                    let a = choose|a: int|
                        0 <= a < n - 1 && #[trigger] keys[a] == k && raws[a] == raw;
                    assert(keys[a] == k && raws[a] == raw);
                } else {
                    assert(keys[n - 1] == k && raws[n - 1] == raw);
                }
            }
            if exists|a: int| 0 <= a < n && #[trigger] keys[a] == k && raws[a] == raw {
                let a = choose|a: int| 0 <= a < n && #[trigger] keys[a] == k && raws[a] == raw;
                if a < n - 1 {
                    assert(before.contains(k));
                    let j = choose|j: int| 0 <= j < before.len() && before[j] == k;
                    assert(all[j] == k);
                } else {
                    assert(all[all.len() - 1] == k);
                }
            }
        }
    }
}

impl ShardPlan {
    #[verifier::type_invariant]
    spec fn slots_exist(&self) -> bool {
        forall|i: int|
            0 <= i < self.slots.values().len() ==> #[trigger] self.slots.values()[i]
                < self.lists@.len() && name_map::ascending(
                catalog::name_views(self.lists@[self.slots.values()[i] as int]@),
            )
    }

    /// Sorts the tensors of an index by shard.
    pub fn new(index: &IndexJson) -> (r: ShardPlan)
        ensures
            r@ == planned(index@),
    {
        let map = &index.weight_map;
        let ghost keys = map.keys();
        let ghost raws = map.values().map_values(|raw: String| raw@);
        let mut slots: NameMap<usize> = NameMap::new();
        let mut lists: Vec<Vec<String>> = Vec::new();
        let n: usize = map.len();
        let mut i: usize = 0;
        while i < n
            invariant
                i <= n == keys.len(),
                map.wf(),
                keys == map.keys(),
                raws == map.values().map_values(|raw: String| raw@),
                keys.len() == raws.len(),
                map.values().len() == n,
                forall|raw: Seq<char>| #[trigger]
                    slots@.contains_key(raw) <==> exists|a: int| 0 <= a < i && raws[a] == raw,
                forall|raw: Seq<char>| #[trigger]
                    slots@.contains_key(raw) ==> slots@[raw] < lists@.len()
                        && catalog::name_views(lists@[slots@[raw] as int]@) == picked(
                        keys,
                        raws,
                        raw,
                        i as int,
                    ),
                forall|x: Seq<char>, y: Seq<char>|
                    #![trigger slots@[x], slots@[y]]
                    slots@.contains_key(x) && slots@.contains_key(y) && slots@[x] == slots@[y]
                        ==> x == y,
            decreases n - i,
        {
            let name = map.key_at(i);
            let raw = map.value_at(i).as_str();
            let ghost before = slots@;
            let ghost old_lists = lists@;
            assert(raws[i as int] == raw@ && keys[i as int] == name@);
            match slots.get(raw) {
                Some(at) => {
                    let at: usize = *at;
                    lists[at].push(name.to_owned());
                    proof {
                        assert(catalog::name_views(lists@[at as int]@) =~= catalog::name_views(
                            old_lists[at as int]@,
                        ).push(name@));
                    }
                },
                None => {
                    let at: usize = lists.len();
                    lists.push(vec![name.to_owned()]);
                    slots.insert(raw, at);
                    proof {
                        assert(picked(keys, raws, raw@, i as int).len() == 0) by {
                            lemma_nothing_picked(keys, raws, raw@, i as int);
                        }
                        assert(catalog::name_views(lists@[at as int]@) =~= picked(
                            keys,
                            raws,
                            raw@,
                            i + 1,
                        ));
                    }
                },
            }
            proof {
                assert forall|x: Seq<char>| #[trigger] slots@.contains_key(x) <==> exists|a: int|
                    0 <= a < i + 1 && raws[a] == x by {
                    assert(slots@.contains_key(x) <==> before.contains_key(x) || x == raw@);
                    if before.contains_key(x) {
                        let a = choose|a: int| 0 <= a < i && raws[a] == x;
                        assert(raws[a] == x);
                    }
                    if x == raw@ {
                        assert(raws[i as int] == x);
                    }
                }
                assert forall|x: Seq<char>| #[trigger] slots@.contains_key(x) implies slots@[x]
                    < lists@.len() && catalog::name_views(lists@[slots@[x] as int]@) == picked(
                    keys,
                    raws,
                    x,
                    i + 1,
                ) by {
                    if x != raw@ {
                        assert(before.contains_key(x));
                        if before.contains_key(raw@) {
                            assert(before[x] != before[raw@]);
                        }
                        assert(lists@[slots@[x] as int] == old_lists[before[x] as int]);
                    }
                }
            }
            i = i + 1;
        }
        let ghost plan = planned(index@);
        proof {
            use_type_invariant(&slots);
            slots.lemma_contents();
            map.lemma_contents();
            assert forall|j: int| 0 <= j < slots.values().len() implies #[trigger] slots.values()[j]
                < lists@.len() && name_map::ascending(
                catalog::name_views(lists@[slots.values()[j] as int]@),
            ) by {
                assert(slots@.contains_key(slots.keys()[j]));
                lemma_picked(keys, raws, slots.keys()[j], n as int);
            }
            assert forall|raw: Seq<char>| #[trigger] slots.keys().contains(raw) <==> exists|a: int|
                0 <= a < raws.len() && raws[a] == raw by {
                assert(slots@.contains_key(raw) <==> slots.keys().contains(raw));
            }
            lemma_planned(index@, keys, raws, slots.keys());
        }
        let r = ShardPlan { slots, lists };
        proof {
            assert forall|j: int| 0 <= j < plan.len() implies r@[j] == #[trigger] plan[j] by {
                assert(slots@.contains_key(slots.keys()[j]));
            }
            assert(r@ =~= plan);
        }
        r
    }

    /// The shards can be counted.
    pub proof fn lemma_len(&self)
        ensures
            self@.len() <= usize::MAX,
    {
        self.slots.lemma_len();
    }

    /// How many shards there are.
    pub fn len(&self) -> (r: usize)
        ensures
            r == self@.len(),
    {
        self.slots.len()
    }

    /// The path of a shard as the index has it.
    pub fn raw(&self, i: usize) -> (r: &str)
        requires
            i < self@.len(),
        ensures
            r@ == self@[i as int].0,
    {
        self.slots.key_at(i)
    }

    /// The tensors that the index assigns to a shard.
    pub fn names(&self, i: usize) -> (r: &Vec<String>)
        requires
            i < self@.len(),
        ensures
            catalog::name_views(r@) == self@[i as int].1,
            name_map::ascending(self@[i as int].1),
    {
        proof {
            use_type_invariant(self);
            use_type_invariant(&self.slots);
            self.slots.lemma_contents();
        }
        let at: usize = *self.slots.value_at(i);
        &self.lists[at]
    }
}

proof fn lemma_nothing_picked(
    keys: Seq<Seq<char>>,
    raws: Seq<Seq<char>>,
    raw: Seq<char>,
    n: int,
)
    requires
        forall|a: int| 0 <= a < n ==> #[trigger] raws[a] != raw,
    ensures
        picked(keys, raws, raw, n).len() == 0,
    decreases n,
{
    if n > 0 {
        assert(raws[n - 1] != raw);
        lemma_nothing_picked(keys, raws, raw, n - 1);
    }
}

/// What the plan of an index is, over its names in order and the shard of each.
proof fn lemma_planned(
    index: Map<Seq<char>, Seq<char>>,
    keys: Seq<Seq<char>>,
    raws: Seq<Seq<char>>,
    shards: Seq<Seq<char>>,
)
    requires
        keys.len() == raws.len(),
        name_map::ascending(keys),
        forall|k: Seq<char>| #[trigger] index.contains_key(k) <==> keys.contains(k),
        forall|a: int|
            0 <= a < keys.len() ==> index.contains_key(#[trigger] keys[a]) && index[keys[a]]
                == raws[a],
        name_map::ascending(shards),
        forall|raw: Seq<char>| #[trigger]
            shards.contains(raw) <==> exists|a: int| 0 <= a < raws.len() && raws[a] == raw,
    ensures
        planned(index).len() == shards.len(),
        forall|i: int|
            0 <= i < shards.len() ==> #[trigger] planned(index)[i] == (
                shards[i],
                picked(keys, raws, shards[i], keys.len() as int),
            ),
{
    let n = keys.len() as int;
    assert forall|raw: Seq<char>| #[trigger] shards.contains(raw) <==> index.values().contains(
        raw,
    ) by {
        if shards.contains(raw) {
            let a = choose|a: int| 0 <= a < raws.len() && raws[a] == raw;
            assert(index.contains_key(keys[a]));
        }
        if index.values().contains(raw) {
            let k = choose|k: Seq<char>| #[trigger] index.contains_key(k) && index[k] == raw;
            assert(keys.contains(k));
            let a = choose|a: int| 0 <= a < n && keys[a] == k;
            assert(raws[a] == raw);
        }
    }
    name_map::lemma_ordered(shards, index.values());
    assert forall|i: int| 0 <= i < shards.len() implies #[trigger] planned(index)[i] == (
        shards[i],
        picked(keys, raws, shards[i], n),
    ) by {
        let raw = shards[i];
        lemma_picked(keys, raws, raw, n);
        let own = picked(keys, raws, raw, n);
        assert forall|k: Seq<char>| #[trigger] own.contains(k) <==> names_in(index, raw).contains(
            k,
        ) by {
            if own.contains(k) {
                let a = choose|a: int| 0 <= a < n && #[trigger] keys[a] == k && raws[a] == raw;
                assert(index.contains_key(keys[a]));
            }
            if names_in(index, raw).contains(k) {
                assert(index.contains_key(k));
                assert(keys.contains(k));
                let a = choose|a: int| 0 <= a < n && keys[a] == k;
                assert(keys[a] == k && raws[a] == raw);
            }
        }
        name_map::lemma_ordered(own, names_in(index, raw));
    }
}

/// The names of each planned shard are in order, and are those that the index
/// assigns to it.
pub proof fn lemma_plan_lists_names(index: Map<Seq<char>, Seq<char>>, i: int)
    requires
        index.dom().finite(),
        0 <= i < planned(index).len(),
    ensures
        name_map::lists(planned(index)[i].1, names_in(index, planned(index)[i].0)),
{
    name_map::lemma_ordered_exists(names_in(index, planned(index)[i].0));
}

/// The entries of a directory are seen one by one, with path and kind.
pub proof fn lemma_entries_seen(entries: Seq<DirEntry>, i: int)
    requires
        0 <= i < entries.len(),
    ensures
        entry_views(entries).len() == entries.len(),
        entry_views(entries)[i] == (entries[i].path@, entries[i].is_file),
{
}

/// What there is to open is seen as what it is, with its files in their order.
pub proof fn lemma_input_seen(input: Input)
    ensures
        input matches Input::SingleFile(p) ==> input@ == InputView::SingleFile(p@),
        input matches Input::Index(p) ==> input@ == InputView::Index(p@),
        input matches Input::ImplicitShards(ps) ==> input@ == InputView::ImplicitShards(
            ps@.map_values(|p: FilePath| p@),
        ),
{
}

/// An index is seen tensor by tensor, with the path that it lists.
pub proof fn lemma_index_seen(index: IndexJson, name: Seq<char>)
    ensures
        index@.contains_key(name) <==> index.weight_map@.contains_key(name),
        index.weight_map@.contains_key(name) ==> index@[name] == index.weight_map@[name]@,
{
}

/// What a path turned out to be is seen as what it is.
pub proof fn lemma_listing_seen(listing: Listing)
    ensures
        listing is File ==> listing@ is File,
        listing is Other ==> listing@ is Other,
        listing matches Listing::Directory(entries) ==> listing@ == ListingView::Directory(
            entries@.map_values(|e: DirEntry| (e.path@, e.is_file)),
        ),
{
}

} // verus!
