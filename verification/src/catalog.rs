//! The tensors of a checkpoint, collected shard by shard.

use vstd::prelude::*;

use crate::descriptor::{DescriptorView, ShardId, TensorDescriptor};
use crate::error::{ErrorView, LoaderError};
use crate::header;
use crate::header::{Header, InfoView, TensorInfo};
use crate::name_map;
use crate::name_map::NameMap;
use crate::path::FilePath;
use crate::shard;
use crate::shard::{Shard, ShardView};
use crate::text::{compare_text, Placement};

verus! {

/// Shards in the order in which they were added, and a description of every
/// tensor in them.
#[derive(Debug)]
pub struct Catalog<'a> {
    pub shards: Vec<Shard<'a>>,
    pub tensors: NameMap<TensorDescriptor>,
}

/// What a [`Catalog`] holds.
#[verifier::ext_equal]
pub struct CatalogView {
    pub shards: Seq<ShardView>,
    pub tensors: Map<Seq<char>, DescriptorView>,
}

/// What the descriptors of a map say.
pub open spec fn tensor_views(tensors: NameMap<TensorDescriptor>) -> Map<
    Seq<char>,
    DescriptorView,
> {
    tensors@.map_values(|d: TensorDescriptor| d@)
}

impl<'a> View for Catalog<'a> {
    type V = CatalogView;

    open spec fn view(&self) -> CatalogView {
        CatalogView {
            shards: shard::shard_views(self.shards@),
            tensors: tensor_views(self.tensors),
        }
    }
}

impl CatalogView {
    /// Every tensor stands under its own name and refers to a shard that is there.
    pub open spec fn wf(self) -> bool {
        &&& self.tensors.dom().finite()
        &&& forall|name: Seq<char>| #[trigger]
            self.tensors.contains_key(name) ==> self.tensors[name].name == name
                && self.tensors[name].shard_id < self.shards.len()
    }

    /// The bytes of every tensor lie in its shard.
    pub open spec fn in_bounds(self) -> bool {
        forall|name: Seq<char>| #[trigger]
            self.tensors.contains_key(name) ==> {
                let d = self.tensors[name];
                &&& d.shard_id < self.shards.len()
                &&& d.file_offset + d.byte_len <= self.shards[d.shard_id as int].bytes.len()
            }
    }

    /// The size of every tensor is that of its elements.
    pub open spec fn sized(self) -> bool {
        forall|name: Seq<char>| #[trigger]
            self.tensors.contains_key(name) ==> {
                let d = self.tensors[name];
                8 * d.byte_len == header::element_count(d.shape) * d.dtype.spec_bitsize()
            }
    }

    /// A tensor is described as the header of its shard declares it.
    pub open spec fn declared(self, name: Seq<char>) -> bool {
        let d = self.tensors[name];
        let s = self.shards[d.shard_id as int];
        let found = header::tensors_of(s.bytes);
        &&& found.contains_key(name)
        &&& described(s, d.shard_id, name, found[name]) == Ok::<_, ErrorView>(d)
    }

    /// Every shard is framed as its file declares, and the tensors are those of
    /// the shards' headers, each once and as its header declares it.
    pub open spec fn faithful(self) -> bool {
        &&& forall|i: int| 0 <= i < self.shards.len() ==> shard::framed(#[trigger] self.shards[i])
        &&& forall|name: Seq<char>| #[trigger]
            self.tensors.contains_key(name) ==> self.declared(name)
        &&& forall|i: int, name: Seq<char>|
            0 <= i < self.shards.len() && #[trigger] header::tensors_of(
                self.shards[i].bytes,
            ).contains_key(name) ==> self.tensors.contains_key(name)
                && self.tensors[name].shard_id == i
    }
}

/// The description of a tensor, from what the header of its shard says of it,
/// or why there is none.
pub open spec fn described(
    shard: ShardView,
    shard_id: ShardId,
    name: Seq<char>,
    info: InfoView,
) -> Result<DescriptorView, ErrorView> {
    match shard::absolute(shard, name, info.data_offsets.0 as u64, info.data_offsets.1 as u64) {
        Err(e) => Err(e),
        Ok((start, end)) => if end < start {
            Err(ErrorView::OffsetOverflow { path: shard.path, tensor: name })
        } else {
            Ok(
                DescriptorView {
                    name,
                    dtype: info.dtype,
                    shape: info.shape,
                    shard_id,
                    file_offset: start,
                    byte_len: (end - start) as u64,
                },
            )
        },
    }
}

/// A catalog with one more tensor of the shard at `shard_id`.
pub open spec fn with_tensor(
    c: CatalogView,
    shard_id: ShardId,
    name: Seq<char>,
    info: InfoView,
) -> Result<CatalogView, ErrorView> {
    if c.tensors.contains_key(name) {
        Err(
            ErrorView::DuplicateTensorName {
                tensor: name,
                first_path: c.shards[c.tensors[name].shard_id as int].path,
                second_path: c.shards[shard_id as int].path,
            },
        )
    } else {
        match described(c.shards[shard_id as int], shard_id, name, info) {
            Err(e) => Err(e),
            Ok(d) => Ok(CatalogView { shards: c.shards, tensors: c.tensors.insert(name, d) }),
        }
    }
}

/// A catalog with the tensors of a header that `names` lists, one after the
/// other. A name that the header lacks is an error where an index listed it.
pub open spec fn with_tensors(
    c: CatalogView,
    shard_id: ShardId,
    found: Map<Seq<char>, InfoView>,
    names: Seq<Seq<char>>,
    index_path: Seq<u8>,
) -> Result<CatalogView, ErrorView>
    decreases names.len(),
{
    if names.len() == 0 {
        Ok(c)
    } else {
        match with_tensors(c, shard_id, found, names.drop_last(), index_path) {
            Err(e) => Err(e),
            Ok(before) => if found.contains_key(names.last()) {
                with_tensor(before, shard_id, names.last(), found[names.last()])
            } else {
                Err(
                    ErrorView::TensorMissingFromShard {
                        index_path,
                        shard_path: c.shards[shard_id as int].path,
                        tensor: names.last(),
                    },
                )
            },
        }
    }
}

/// A catalog with one more shard, and no tensor of it yet.
pub open spec fn with_shard(c: CatalogView, s: ShardView) -> CatalogView {
    CatalogView { shards: c.shards.push(s), tensors: c.tensors }
}

/// A catalog with all tensors of one more shard, taken in the order of their names.
pub open spec fn with_whole_shard(
    c: CatalogView,
    s: ShardView,
    found: Map<Seq<char>, InfoView>,
) -> Result<CatalogView, ErrorView> {
    with_tensors(
        with_shard(c, s),
        c.shards.len() as usize,
        found,
        name_map::ordered(found.dom()),
        Seq::empty(),
    )
}

/// The names in `found` that `listed` lacks.
pub open spec fn unlisted(found: Map<Seq<char>, InfoView>, listed: Set<Seq<char>>) -> Set<
    Seq<char>,
> {
    found.dom().difference(listed)
}

/// A catalog with the tensors that an index lists for one more shard. Index and
/// shard have to name the same tensors.
pub open spec fn with_listed_shard(
    c: CatalogView,
    s: ShardView,
    found: Map<Seq<char>, InfoView>,
    listed: Set<Seq<char>>,
    index_path: Seq<u8>,
) -> Result<CatalogView, ErrorView> {
    match with_tensors(
        with_shard(c, s),
        c.shards.len() as usize,
        found,
        name_map::ordered(listed),
        index_path,
    ) {
        Err(e) => Err(e),
        Ok(after) => {
            let extra = name_map::ordered(unlisted(found, listed));
            if extra.len() > 0 {
                Err(
                    ErrorView::TensorMissingFromIndex {
                        index_path,
                        shard_path: s.path,
                        tensor: extra[0],
                    },
                )
            } else {
                Ok(after)
            }
        },
    }
}

/// Describes one tensor of the shard at `shard_id` and puts it among the others,
/// which are as they were where it cannot be.
fn insert_descriptor(
    tensors: &mut NameMap<TensorDescriptor>,
    shards: &Vec<Shard>,
    shard_id: ShardId,
    name: &str,
    info: &TensorInfo,
) -> (r: Result<(), LoaderError>)
    requires
        shard_id < shards@.len(),
        (CatalogView {
            shards: shard::shard_views(shards@),
            tensors: tensor_views(*old(tensors)),
        }).wf(),
    ensures
        ({
            let before = CatalogView {
                shards: shard::shard_views(shards@),
                tensors: tensor_views(*old(tensors)),
            };
            let after = CatalogView {
                shards: shard::shard_views(shards@),
                tensors: tensor_views(*final(tensors)),
            };
            match r {
                Ok(_) => with_tensor(before, shard_id, name@, info@) == Ok::<_, ErrorView>(after)
                    && after.wf(),
                Err(e) => with_tensor(before, shard_id, name@, info@) == Err::<CatalogView, _>(e@)
                    && *final(tensors) == *old(tensors),
            }
        }),
{
    let ghost views = shard::shard_views(shards@);
    let ghost before = tensor_views(*tensors);
    let current = &shards[shard_id];
    assert(views[shard_id as int] == current@);
    match tensors.get(name) {
        Some(existing) => {
            assert(before.contains_key(name@));
            let first: usize = existing.shard_id;
            assert(views[first as int] == shards@[first as int]@);
            return Err(
                LoaderError::DuplicateTensorName {
                    tensor: name.to_owned(),
                    first_path: shards[first].path().clone(),
                    second_path: current.path().clone(),
                },
            );
        },
        None => {},
    }
    let rel_start = info.data_offsets.0 as u64;
    let rel_end = info.data_offsets.1 as u64;
    let (start, end) = match current.absolute_range(name, rel_start, rel_end) {
        Ok(range) => range,
        Err(e) => {
            return Err(e);
        },
    };
    let byte_len: u64 = match end.checked_sub(start) {
        Some(n) => n,
        None => {
            return Err(
                LoaderError::OffsetOverflow { path: current.path().clone(), tensor: name.to_owned() },
            );
        },
    };
    let shape = info.shape.clone();
    assert(shape@ =~= info.shape@);
    let d = TensorDescriptor {
        name: name.to_owned(),
        dtype: info.dtype,
        shape,
        shard_id,
        file_offset: start,
        byte_len,
    };
    let ghost view = d@;
    tensors.insert(name, d);
    assert(tensor_views(*tensors) =~= before.insert(name@, view));
    Ok(())
}

/// The first name of a header that is not in a list. Both are in order.
fn first_unlisted<'h>(found: &'h Header, listed: &Vec<String>) -> (r: Option<&'h str>)
    requires
        name_map::ascending(name_views(listed@)),
    ensures
        ({
            let extra = name_map::ordered(
                unlisted(header::header_view(*found), name_views(listed@).to_set()),
            );
            match r {
                Some(name) => extra.len() > 0 && extra[0] == name@,
                None => extra.len() == 0,
            }
        }),
{
    let n: usize = found.len();
    let ghost keys = found.keys();
    let ghost names = name_views(listed@);
    proof {
        found.lemma_contents();
        assert(header::header_view(*found).dom() =~= found@.dom());
    }
    let ghost set = unlisted(header::header_view(*found), names.to_set());
    assert forall|k: Seq<char>| #[trigger] set.contains(k) <==> keys.contains(k) && !names.contains(
        k,
    ) by {
        assert(found@.contains_key(k) <==> keys.contains(k));
    }
    let mut i: usize = 0;
    let mut j: usize = 0;
    while i < n
        invariant
            i <= n == keys.len(),
            keys == found.keys(),
            names == name_views(listed@),
            j <= listed@.len(),
            found.wf(),
            name_map::ascending(names),
            set == unlisted(header::header_view(*found), names.to_set()),
            forall|k: Seq<char>| #[trigger]
                set.contains(k) <==> keys.contains(k) && !names.contains(k),
            forall|a: int| 0 <= a < i ==> names.contains(#[trigger] keys[a]),
            forall|a: int, b: int|
                0 <= a < j && i <= b < n ==> #[trigger] crate::text::text_before(
                    names[a],
                    keys[b],
                ),
        decreases (n - i) + (listed@.len() - j),
    {
        let key = found.key_at(i);
        if j < listed.len() {
            let ghost other = names[j as int];
            assert(other == listed@[j as int]@);
            match compare_text(listed[j].as_str(), key) {
                Placement::Before => {
                    proof {
                        assert forall|a: int, b: int|
                            0 <= a < j + 1 && i <= b < n implies #[trigger] crate::text::text_before(
                            names[a],
                            keys[b],
                        ) by {
                            if a == j && b > i {
                                assert(crate::text::text_before(keys[i as int], keys[b]));
                                crate::text::lemma_precedes_transitive(
                                    crate::text::char_codes(names[a]),
                                    crate::text::char_codes(keys[i as int]),
                                    crate::text::char_codes(keys[b]),
                                );
                            }
                        }
                    }
                    j = j + 1;
                    continue ;
                },
                Placement::Same => {
                    assert(names.contains(keys[i as int]));
                    i = i + 1;
                    continue ;
                },
                Placement::After => {},
            }
        }
        proof {
            assert(!names.contains(keys[i as int])) by {
                if names.contains(keys[i as int]) {
                    let a = choose|a: int| 0 <= a < names.len() && names[a] == keys[i as int];
                    crate::text::lemma_precedes_irreflexive(
                        crate::text::char_codes(keys[i as int]),
                    );
                    if a < j {
                        assert(crate::text::text_before(names[a], keys[i as int]));
                    } else if a > j {
                        assert(crate::text::text_before(names[j as int], names[a]));
                        crate::text::lemma_precedes_asymmetric(
                            crate::text::char_codes(names[j as int]),
                            crate::text::char_codes(names[a]),
                        );
                    }
                }
            }
            lemma_first_unlisted(keys, names, set, i as int);
        }
        return Some(key);
    }
    proof {
        assert(set =~= Set::empty()) by {
            assert forall|k: Seq<char>| !set.contains(k) by {
                if set.contains(k) {
                    let a = choose|a: int| 0 <= a < keys.len() && keys[a] == k;
                    assert(names.contains(keys[a]));
                }
            }
        }
        assert(name_map::lists(Seq::<Seq<char>>::empty(), set));
        name_map::lemma_ordered(Seq::<Seq<char>>::empty(), set);
    }
    None
}

/// Where every key before position `i` is listed and the one at `i` is not, that
/// one is the first that is not.
proof fn lemma_first_unlisted(
    keys: Seq<Seq<char>>,
    names: Seq<Seq<char>>,
    set: Set<Seq<char>>,
    i: int,
)
    requires
        name_map::ascending(keys),
        0 <= i < keys.len(),
        forall|a: int| 0 <= a < i ==> names.contains(#[trigger] keys[a]),
        !names.contains(keys[i]),
        forall|k: Seq<char>| #[trigger] set.contains(k) <==> keys.contains(k) && !names.contains(k),
    ensures
        name_map::ordered(set).len() > 0,
        name_map::ordered(set)[0] == keys[i],
{
    let extra = keys.filter(|k: Seq<char>| !names.contains(k));
    lemma_filter_ascending(keys, |k: Seq<char>| !names.contains(k));
    assert forall|k: Seq<char>| #[trigger] extra.contains(k) <==> set.contains(k) by {
        if extra.contains(k) {
            keys.lemma_filter_contains_rev(|k: Seq<char>| !names.contains(k), k);
            let a = choose|a: int| 0 <= a < extra.len() && extra[a] == k;
            keys.lemma_filter_pred(|k: Seq<char>| !names.contains(k), a);
        }
        if set.contains(k) {
            keys.lemma_filter_contains_rev(|k: Seq<char>| !names.contains(k), k);
        }
    }
    assert(name_map::lists(extra, set));
    name_map::lemma_ordered(extra, set);
    assert(keys.contains(keys[i]));
    assert(set.contains(keys[i]));
    assert(extra.contains(keys[i]));
    // Nothing in the list stands before it.
    let first = extra[0];
    assert(extra.contains(first));
    assert(set.contains(first));
    let a = choose|a: int| 0 <= a < keys.len() && keys[a] == first;
    let b = choose|b: int| 0 <= b < extra.len() && extra[b] == keys[i];
    if a > i {
        assert(crate::text::text_before(keys[i], keys[a]));
        if b > 0 {
            assert(crate::text::text_before(extra[0], extra[b]));
            crate::text::lemma_precedes_asymmetric(
                crate::text::char_codes(keys[i]),
                crate::text::char_codes(first),
            );
        } else {
            crate::text::lemma_precedes_irreflexive(crate::text::char_codes(first));
        }
    }
}

proof fn lemma_filter_ascending(keys: Seq<Seq<char>>, pred: spec_fn(Seq<char>) -> bool)
    requires
        name_map::ascending(keys),
    ensures
        name_map::ascending(keys.filter(pred)),
        forall|k: Seq<char>| #[trigger] keys.filter(pred).contains(k) ==> keys.contains(k),
    decreases keys.len(),
{
    reveal(Seq::filter);
    if keys.len() > 0 {
        let rest = keys.drop_last();
        assert(name_map::ascending(rest)) by {
            assert forall|m: int, n: int|
                0 <= m < n < rest.len() implies #[trigger] crate::text::text_before(
                rest[m],
                rest[n],
            ) by {
                assert(crate::text::text_before(keys[m], keys[n]));
            }
        }
        lemma_filter_ascending(rest, pred);
        let before = rest.filter(pred);
        let after = keys.filter(pred);
        assert forall|m: int, n: int|
            0 <= m < n < after.len() implies #[trigger] crate::text::text_before(
            after[m],
            after[n],
        ) by {
            if n < before.len() {
                assert(crate::text::text_before(before[m], before[n]));
            } else {
                assert(before.contains(before[m]));
                assert(rest.contains(before[m]));
                let a = choose|a: int| 0 <= a < rest.len() && rest[a] == before[m];
                assert(crate::text::text_before(keys[a], keys[keys.len() - 1]));
            }
        }
        assert forall|k: Seq<char>| #[trigger] after.contains(k) implies keys.contains(k) by {
            let a = choose|a: int| 0 <= a < after.len() && after[a] == k;
            if a < before.len() {
                assert(before.contains(k));
                let b = choose|b: int| 0 <= b < rest.len() && rest[b] == k;
                assert(keys[b] == k);
            } else {
                assert(keys[keys.len() - 1] == k);
            }
        }
    }
}

/// What the names of a list are.
pub open spec fn name_views(names: Seq<String>) -> Seq<Seq<char>> {
    names.map_values(|n: String| n@)
}

/// An error at some name is the error of the whole list.
proof fn lemma_first_error(
    c: CatalogView,
    shard_id: ShardId,
    found: Map<Seq<char>, InfoView>,
    names: Seq<Seq<char>>,
    index_path: Seq<u8>,
    k: int,
)
    requires
        0 <= k <= names.len(),
        with_tensors(c, shard_id, found, names.take(k), index_path) is Err,
    ensures
        with_tensors(c, shard_id, found, names, index_path) == with_tensors(
            c,
            shard_id,
            found,
            names.take(k),
            index_path,
        ),
    decreases names.len(),
{
    if k == names.len() {
        assert(names.take(k) =~= names);
    } else {
        assert(names.drop_last().take(k) =~= names.take(k));
        lemma_first_error(c, shard_id, found, names.drop_last(), index_path, k);
    }
}

/// A shard without tensors leaves a catalog in good order.
pub proof fn lemma_with_shard_wf(c: CatalogView, s: ShardView)
    requires
        c.wf(),
    ensures
        with_shard(c, s).wf(),
{
    let after = with_shard(c, s);
    assert forall|name: Seq<char>| #[trigger] after.tensors.contains_key(
        name,
    ) implies after.tensors[name].name == name && after.tensors[name].shard_id
        < after.shards.len() by {
        assert(c.tensors.contains_key(name));
    }
}

/// What adding tensors leaves alone: the shards, the tensors that were there,
/// and that each tensor refers to a shard.
pub proof fn lemma_with_tensors_keeps(
    c: CatalogView,
    shard_id: ShardId,
    found: Map<Seq<char>, InfoView>,
    names: Seq<Seq<char>>,
    index_path: Seq<u8>,
)
    requires
        c.wf(),
        shard_id < c.shards.len(),
    ensures
        with_tensors(c, shard_id, found, names, index_path) matches Ok(after) ==> {
            &&& after.wf()
            &&& after.shards == c.shards
            &&& c.tensors.submap_of(after.tensors)
            &&& after.tensors.dom() == c.tensors.dom().union(names.to_set())
            &&& forall|name: Seq<char>| #[trigger]
                names.contains(name) ==> !c.tensors.contains_key(name) && found.contains_key(name)
                    && described(c.shards[shard_id as int], shard_id, name, found[name]) == Ok::<
                    _,
                    ErrorView,
                >(after.tensors[name])
        },
    decreases names.len(),
{
    if names.len() == 0 {
        assert(c.tensors.dom() =~= c.tensors.dom().union(names.to_set()));
    } else {
        let rest = names.drop_last();
        let last = names.last();
        lemma_with_tensors_keeps(c, shard_id, found, rest, index_path);
        match with_tensors(c, shard_id, found, names, index_path) {
            Ok(after) => {
                let before = with_tensors(c, shard_id, found, rest, index_path)->Ok_0;
                assert forall|name: Seq<char>| #[trigger] names.contains(name) <==> rest.contains(
                    name,
                ) || name == last by {
                    if names.contains(name) {
                        let j = choose|j: int| 0 <= j < names.len() && names[j] == name;
                        if j < rest.len() {
                            assert(rest[j] == name);
                        }
                    }
                    if rest.contains(name) {
                        let j = choose|j: int| 0 <= j < rest.len() && rest[j] == name;
                        assert(names[j] == name);
                    }
                    assert(names[names.len() - 1] == last);
                }
                assert(after.tensors.dom() =~= c.tensors.dom().union(names.to_set()));
                assert forall|name: Seq<char>| #[trigger]
                    names.contains(name) implies !c.tensors.contains_key(name)
                    && found.contains_key(name) && described(c.shards[shard_id as int], shard_id, name, found[name]) == Ok::<
                    _,
                    ErrorView,
                >(after.tensors[name]) by {
                    if rest.contains(name) {
                        assert(before.tensors.contains_key(name));
                    }
                }
            },
            Err(_) => {},
        }
    }
}

/// A shard whose header describes its own data keeps every tensor within its
/// file and of the size that its elements need.
pub proof fn lemma_with_tensors_in_bounds(
    c: CatalogView,
    shard_id: ShardId,
    found: Map<Seq<char>, InfoView>,
    names: Seq<Seq<char>>,
    index_path: Seq<u8>,
)
    requires
        c.in_bounds(),
        c.sized(),
        shard_id < c.shards.len(),
        c.shards[shard_id as int].data_start <= c.shards[shard_id as int].bytes.len(),
        forall|name: Seq<char>| #[trigger]
            found.contains_key(name) ==> header::fits(
                found[name],
                c.shards[shard_id as int].bytes.len() - c.shards[shard_id as int].data_start,
            ),
    ensures
        with_tensors(c, shard_id, found, names, index_path) matches Ok(after) ==> after.in_bounds()
            && after.sized() && after.shards == c.shards,
    decreases names.len(),
{
    if names.len() > 0 {
        lemma_with_tensors_in_bounds(c, shard_id, found, names.drop_last(), index_path);
        match with_tensors(c, shard_id, found, names, index_path) {
            Ok(after) => {
                let before = with_tensors(
                    c,
                    shard_id,
                    found,
                    names.drop_last(),
                    index_path,
                )->Ok_0;
                let last = names.last();
                assert(found.contains_key(last));
                assert forall|name: Seq<char>| #[trigger] after.tensors.contains_key(name) implies {
                    let d = after.tensors[name];
                    &&& d.shard_id < after.shards.len()
                    &&& d.file_offset + d.byte_len <= after.shards[d.shard_id as int].bytes.len()
                    &&& 8 * d.byte_len == header::element_count(d.shape) * d.dtype.spec_bitsize()
                } by {
                    if name != last {
                        assert(before.tensors.contains_key(name));
                    }
                }
            },
            Err(_) => {},
        }
    }
}

/// Adding all tensors of a shard as its header declares them keeps a catalog true
/// to the files.
pub proof fn lemma_with_tensors_faithful(
    c: CatalogView,
    s: ShardView,
    names: Seq<Seq<char>>,
    index_path: Seq<u8>,
)
    requires
        c.wf(),
        c.faithful(),
        c.shards.len() <= usize::MAX,
        shard::framed(s),
        names.to_set() == header::tensors_of(s.bytes).dom(),
    ensures
        with_tensors(
            with_shard(c, s),
            c.shards.len() as usize,
            header::tensors_of(s.bytes),
            names,
            index_path,
        ) matches Ok(after) ==> after.faithful(),
{
    let base = with_shard(c, s);
    let shard_id = c.shards.len() as usize;
    let found = header::tensors_of(s.bytes);
    lemma_with_shard_wf(c, s);
    assert(base.shards[shard_id as int] == s);
    lemma_with_tensors_keeps(base, shard_id, found, names, index_path);
    match with_tensors(base, shard_id, found, names, index_path) {
        Err(_) => {},
        Ok(after) => {
            assert forall|i: int| 0 <= i < after.shards.len() implies shard::framed(
                #[trigger] after.shards[i],
            ) by {
                if i < c.shards.len() {
                    assert(after.shards[i] == c.shards[i]);
                }
            }
            assert forall|name: Seq<char>| #[trigger]
                after.tensors.contains_key(name) implies after.declared(name) by {
                if c.tensors.contains_key(name) {
                    assert(c.declared(name));
                    assert(after.tensors[name] == c.tensors[name]);
                } else {
                    assert(names.to_set().contains(name));
                    assert(names.contains(name));
                }
            }
            assert forall|i: int, name: Seq<char>|
                0 <= i < after.shards.len() && #[trigger] header::tensors_of(
                    after.shards[i].bytes,
                ).contains_key(name) implies after.tensors.contains_key(name)
                && after.tensors[name].shard_id == i by {
                if i < c.shards.len() {
                    assert(after.shards[i] == c.shards[i]);
                    assert(header::tensors_of(c.shards[i].bytes).contains_key(name));
                    assert(c.tensors.contains_key(name) && c.tensors[name].shard_id == i);
                    assert(after.tensors.contains_key(name));
                } else {
                    assert(found.dom().contains(name));
                    assert(names.to_set().contains(name));
                    assert(names.contains(name));
                }
            }
        },
    }
}

/// Where an index and a shard agree, the index lists exactly the shard's tensors.
pub proof fn lemma_listed_exactly(
    c: CatalogView,
    s: ShardView,
    found: Map<Seq<char>, InfoView>,
    listed: Seq<Seq<char>>,
    index_path: Seq<u8>,
)
    requires
        c.wf(),
        c.shards.len() <= usize::MAX,
        found.dom().finite(),
        name_map::ascending(listed),
        with_listed_shard(c, s, found, listed.to_set(), index_path) is Ok,
    ensures
        name_map::ordered(listed.to_set()) == listed,
        listed.to_set() == found.dom(),
{
    let base = with_shard(c, s);
    lemma_with_shard_wf(c, s);
    assert(name_map::lists(listed, listed.to_set()));
    name_map::lemma_ordered(listed, listed.to_set());
    lemma_with_tensors_keeps(base, c.shards.len() as usize, found, listed, index_path);
    let missing = unlisted(found, listed.to_set());
    name_map::lemma_ordered_exists(missing);
    assert forall|name: Seq<char>| listed.to_set().contains(name) <==> found.dom().contains(
        name,
    ) by {
        if listed.to_set().contains(name) {
            assert(listed.contains(name));
        }
        if found.dom().contains(name) && !listed.to_set().contains(name) {
            assert(missing.contains(name));
            assert(name_map::ordered(missing).contains(name));
        }
    }
    assert(listed.to_set() =~= found.dom());
}

impl<'a> Catalog<'a> {
    /// A catalog of nothing.
    pub fn new() -> (r: Self)
        ensures
            r@ == (CatalogView { shards: Seq::empty(), tensors: Map::empty() }),
            r@.wf(),
            r@.in_bounds(),
            r@.sized(),
            r@.faithful(),
    {
        let r = Catalog { shards: Vec::new(), tensors: NameMap::new() };
        assert(r@.shards =~= Seq::empty());
        assert(r@.tensors =~= Map::empty());
        r
    }

    /// Adds a shard with every tensor that its header declares.
    pub fn add_shard(self, shard: Shard<'a>, found: &Header) -> (r: Result<
        Catalog<'a>,
        LoaderError,
    >)
        requires
            self@.wf(),
        ensures
            match r {
                Ok(c) => with_whole_shard(self@, shard@, header::header_view(*found)) == Ok::<
                    _,
                    ErrorView,
                >(c@) && c@.wf(),
                Err(e) => with_whole_shard(self@, shard@, header::header_view(*found)) == Err::<
                    CatalogView,
                    _,
                >(e@),
            },
    {
        let ghost entry = shard@;
        let ghost map = header::header_view(*found);
        let ghost base = with_shard(self@, entry);
        let mut shards = self.shards;
        let mut tensors = self.tensors;
        let shard_id: usize = shards.len();
        shards.push(shard);
        let ghost views = shard::shard_views(shards@);
        assert(views =~= base.shards);
        let n: usize = found.len();
        let ghost keys = found.keys();
        let ghost none = Seq::<u8>::empty();
        proof {
            found.lemma_contents();
            assert(map.dom() =~= found@.dom());
            assert(keys.take(0) =~= Seq::<Seq<char>>::empty());
        }
        let mut i: usize = 0;
        while i < n
            invariant
                i <= n == keys.len(),
                keys == found.keys(),
                keys == name_map::ordered(map.dom()),
                found.wf(),
                map == header::header_view(*found),
                shard_id < shards@.len(),
                shard_id == self@.shards.len(),
                views == shard::shard_views(shards@),
                views == base.shards,
                base == with_shard(self@, entry),
                entry == shard@,
                (CatalogView { shards: views, tensors: tensor_views(tensors) }).wf(),
                with_tensors(base, shard_id, map, keys.take(i as int), none) == Ok::<_, ErrorView>(
                    CatalogView { shards: views, tensors: tensor_views(tensors) },
                ),
                none == Seq::<u8>::empty(),
            decreases n - i,
        {
            proof {
                found.lemma_contents();
                assert(keys.take(i + 1).drop_last() =~= keys.take(i as int));
                assert(found@.contains_key(keys[i as int]));
            }
            match insert_descriptor(
                &mut tensors,
                &shards,
                shard_id,
                found.key_at(i),
                found.value_at(i),
            ) {
                Ok(_) => {},
                Err(e) => {
                    proof {
                        lemma_first_error(base, shard_id, map, keys, none, i + 1);
                    }
                    return Err(e);
                },
            }
            i = i + 1;
        }
        assert(keys.take(n as int) =~= keys);
        Ok(Catalog { shards, tensors })
    }

    /// Adds a shard with the tensors that an index lists for it.
    pub fn add_listed_shard(
        self,
        shard: Shard<'a>,
        found: &Header,
        listed: &Vec<String>,
        index_path: &FilePath,
    ) -> (r: Result<Catalog<'a>, LoaderError>)
        requires
            self@.wf(),
            name_map::ascending(name_views(listed@)),
        ensures
            match r {
                Ok(c) => with_listed_shard(
                    self@,
                    shard@,
                    header::header_view(*found),
                    name_views(listed@).to_set(),
                    index_path@,
                ) == Ok::<_, ErrorView>(c@) && c@.wf(),
                Err(e) => with_listed_shard(
                    self@,
                    shard@,
                    header::header_view(*found),
                    name_views(listed@).to_set(),
                    index_path@,
                ) == Err::<CatalogView, _>(e@),
            },
    {
        let ghost entry = shard@;
        let ghost map = header::header_view(*found);
        let ghost base = with_shard(self@, entry);
        let ghost names = name_views(listed@);
        let mut shards = self.shards;
        let mut tensors = self.tensors;
        let shard_id: usize = shards.len();
        shards.push(shard);
        let ghost views = shard::shard_views(shards@);
        proof {
            assert(views =~= base.shards);
            assert(views[shard_id as int] == entry);
            assert(name_map::lists(names, names.to_set()));
            name_map::lemma_ordered(names, names.to_set());
            assert(names.take(0) =~= Seq::<Seq<char>>::empty());
        }
        let mut i: usize = 0;
        while i < listed.len()
            invariant
                i <= listed@.len(),
                names == name_views(listed@),
                names == name_map::ordered(names.to_set()),
                map == header::header_view(*found),
                shard_id < shards@.len(),
                shard_id == self@.shards.len(),
                views == shard::shard_views(shards@),
                views == base.shards,
                views[shard_id as int] == entry,
                base == with_shard(self@, entry),
                entry == shard@,
                (CatalogView { shards: views, tensors: tensor_views(tensors) }).wf(),
                with_tensors(base, shard_id, map, names.take(i as int), index_path@) == Ok::<
                    _,
                    ErrorView,
                >(CatalogView { shards: views, tensors: tensor_views(tensors) }),
            decreases listed@.len() - i,
        {
            let name = listed[i].as_str();
            proof {
                assert(name@ == names[i as int]);
                assert(names.take(i + 1).drop_last() =~= names.take(i as int));
            }
            match found.get(name) {
                None => {
                    assert(!map.contains_key(name@));
                    proof {
                        assert(shards@[shard_id as int]@ == views[shard_id as int]);
                        lemma_first_error(base, shard_id, map, names, index_path@, i + 1);
                    }
                    return Err(
                        LoaderError::TensorMissingFromShard {
                            index_path: index_path.clone(),
                            shard_path: shards[shard_id].path().clone(),
                            tensor: name.to_owned(),
                        },
                    );
                },
                Some(info) => {
                    assert(map.contains_key(name@) && map[name@] == info@);
                    match insert_descriptor(&mut tensors, &shards, shard_id, name, info) {
                        Ok(_) => {},
                        Err(e) => {
                            proof {
                                lemma_first_error(base, shard_id, map, names, index_path@, i + 1);
                            }
                            return Err(e);
                        },
                    }
                },
            }
            i = i + 1;
        }
        assert(names.take(i as int) =~= names);
        match first_unlisted(found, listed) {
            Some(name) => {
                assert(shards@[shard_id as int]@ == views[shard_id as int]);
                Err(
                    LoaderError::TensorMissingFromIndex {
                        index_path: index_path.clone(),
                        shard_path: shards[shard_id].path().clone(),
                        tensor: name.to_owned(),
                    },
                )
            },
            None => Ok(Catalog { shards, tensors }),
        }
    }
}

/// Names are seen one by one.
pub proof fn lemma_names_seen(names: Seq<String>, i: int)
    requires
        0 <= i < names.len(),
    ensures
        name_views(names).len() == names.len(),
        name_views(names)[i] == names[i]@,
{
}

/// The tensors of a catalog are seen under their names.
pub proof fn lemma_tensors_seen(tensors: NameMap<TensorDescriptor>, name: Seq<char>)
    ensures
        tensor_views(tensors).contains_key(name) <==> tensors@.contains_key(name),
        tensors@.contains_key(name) ==> tensor_views(tensors)[name] == tensors@[name]@,
{
}

} // verus!
