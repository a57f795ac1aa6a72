//! What opening a model comes to as a whole, whatever the file system answers.

use vstd::prelude::*;
use vstd::string::StringSliceAdditionalSpecFns;

use crate::block_laws;
use crate::catalog;
use crate::catalog::CatalogView;
use crate::discovery;
use crate::discovery::{InputView, ListingView};
use crate::error::ErrorView;
use crate::header;
use crate::header::InfoView;
use crate::model::OptionsView;
use crate::name_map;
use crate::opening;
use crate::opening::{OpeningView, ProgressView};
use crate::path;
use crate::shard;
use crate::shard::ShardView;
use crate::text;

verus! {

/// The answers of a file system that does not change meanwhile.
pub struct World {
    /// What a path is.
    pub listing: spec_fn(Seq<u8>) -> ListingView,
    /// What an index says.
    pub index: spec_fn(Seq<u8>) -> Map<Seq<char>, Seq<char>>,
    /// Where the boundary of an index and one of its shards really are.
    pub resolve: spec_fn(Seq<u8>, Seq<char>) -> (Seq<u8>, Seq<u8>),
    /// The bytes of a file.
    pub content: spec_fn(Seq<u8>) -> Seq<u8>,
}

/// One step, given the answer that it asks for.
pub open spec fn stepped(w: World, state: OpeningView) -> Result<OpeningView, ErrorView> {
    match state {
        OpeningView::Listing { progress } => opening::after_listing(
            progress,
            (w.listing)(progress.root),
        ),
        OpeningView::Index { progress, index_path } => opening::plan_step(
            progress,
            index_path,
            discovery::planned((w.index)(index_path)),
            0,
        ),
        OpeningView::ShardPath { progress, index_path, plan, next } => {
            let (boundary, shard) = (w.resolve)(index_path, plan[next].0);
            opening::after_shard_path(progress, index_path, plan, next, boundary, shard)
        },
        OpeningView::PlannedBytes { file, .. } => opening::after_bytes(state, (w.content)(file)),
        OpeningView::FileBytes { files, next, .. } => opening::after_bytes(
            state,
            (w.content)(files[next]),
        ),
        OpeningView::Id { .. } => Ok(state),
    }
}

/// The state after at most `n` steps.
pub open spec fn driven(w: World, state: OpeningView, n: nat) -> Result<OpeningView, ErrorView>
    decreases n,
{
    if n == 0 {
        Ok(state)
    } else {
        match stepped(w, state) {
            Err(e) => Err(e),
            Ok(next) => driven(w, next, (n - 1) as nat),
        }
    }
}

/// A catalog with the files from number `from` on added to it, one after the other.
pub open spec fn with_files(
    w: World,
    c: CatalogView,
    files: Seq<Seq<u8>>,
    max_header_bytes: u64,
    from: int,
) -> Result<CatalogView, ErrorView>
    decreases files.len() - from,
{
    if from >= files.len() {
        Ok(c)
    } else {
        match opening::with_file(c, files[from], (w.content)(files[from]), max_header_bytes) {
            Err(e) => Err(e),
            Ok(after) => with_files(w, after, files, max_header_bytes, from + 1),
        }
    }
}

/// A catalog with the shards of an index from number `from` on added to it, one
/// after the other.
pub open spec fn with_plan(
    w: World,
    c: CatalogView,
    index_path: Seq<u8>,
    plan: Seq<(Seq<char>, Seq<Seq<char>>)>,
    max_header_bytes: u64,
    from: int,
) -> Result<CatalogView, ErrorView>
    decreases plan.len() - from,
{
    if from >= plan.len() {
        Ok(c)
    } else {
        let (raw, names) = plan[from];
        let (boundary, shard) = (w.resolve)(index_path, raw);
        match discovery::resolved_shard(index_path, raw, boundary, shard) {
            Err(e) => Err(e),
            Ok(file) => match opening::with_planned_file(
                c,
                file,
                (w.content)(file),
                max_header_bytes,
                names,
                index_path,
            ) {
                Err(e) => Err(e),
                Ok(after) => with_plan(w, after, index_path, plan, max_header_bytes, from + 1),
            },
        }
    }
}

/// What a path holds: the shards that it stands for and all their tensors, or
/// why it cannot be opened.
pub open spec fn opened(w: World, root: Seq<u8>, options: OptionsView) -> Result<
    CatalogView,
    ErrorView,
> {
    let empty = CatalogView { shards: Seq::empty(), tensors: Map::empty() };
    let max = options.max_header_bytes;
    match discovery::resolved_input(
        root,
        (w.listing)(root),
        options.allow_implicit_multi_shard,
    ) {
        Err(e) => Err(e),
        Ok(InputView::SingleFile(file)) => with_files(w, empty, seq![file], max, 0),
        Ok(InputView::ImplicitShards(files)) => with_files(w, empty, files, max, 0),
        Ok(InputView::Index(index_path)) => with_plan(
            w,
            empty,
            index_path,
            discovery::planned((w.index)(index_path)),
            max,
            0,
        ),
    }
}

/// The end of opening, for a catalog or an error.
pub open spec fn finished(
    progress: ProgressView,
    r: Result<CatalogView, ErrorView>,
) -> Result<OpeningView, ErrorView> {
    match r {
        Err(e) => Err(e),
        Ok(c) => Ok(OpeningView::Id { progress: opening::with_catalog(progress, c) }),
    }
}

proof fn lemma_stays_finished(w: World, progress: ProgressView, n: nat)
    ensures
        driven(w, OpeningView::Id { progress }, n) == Ok::<_, ErrorView>(
            OpeningView::Id { progress },
        ),
    decreases n,
{
    if n > 0 {
        lemma_stays_finished(w, progress, (n - 1) as nat);
    }
}

proof fn lemma_files_driven(
    w: World,
    progress: ProgressView,
    files: Seq<Seq<u8>>,
    from: int,
    n: nat,
)
    requires
        0 <= from <= files.len(),
        n >= files.len() - from,
    ensures
        driven(w, opening::file_step(progress, files, from), n) == finished(
            progress,
            with_files(w, progress.catalog, files, progress.options.max_header_bytes, from),
        ),
    decreases files.len() - from,
{
    let state = opening::file_step(progress, files, from);
    if from == files.len() {
        lemma_stays_finished(w, progress, n);
        assert(opening::with_catalog(progress, progress.catalog) == progress);
    } else {
        match opening::with_file(
            progress.catalog,
            files[from],
            (w.content)(files[from]),
            progress.options.max_header_bytes,
        ) {
            Err(_) => {},
            Ok(after) => {
                let next = opening::with_catalog(progress, after);
                lemma_files_driven(w, next, files, from + 1, (n - 1) as nat);
            },
        }
    }
}

proof fn lemma_plan_driven(
    w: World,
    progress: ProgressView,
    index_path: Seq<u8>,
    plan: Seq<(Seq<char>, Seq<Seq<char>>)>,
    from: int,
    n: nat,
)
    requires
        0 <= from <= plan.len(),
        n >= 2 * (plan.len() - from),
    ensures
        match opening::plan_step(progress, index_path, plan, from) {
            Err(e) => Err(e),
            Ok(state) => driven(w, state, n),
        } == finished(
            progress,
            with_plan(
                w,
                progress.catalog,
                index_path,
                plan,
                progress.options.max_header_bytes,
                from,
            ),
        ),
    decreases plan.len() - from,
{
    if from == plan.len() {
        lemma_stays_finished(w, progress, n);
        assert(opening::with_catalog(progress, progress.catalog) == progress);
    } else {
        let (raw, names) = plan[from];
        let (boundary, shard) = (w.resolve)(index_path, raw);
        if discovery::shard_name_fault(raw) is None {
            let state = OpeningView::ShardPath { progress, index_path, plan, next: from };
            match discovery::resolved_shard(index_path, raw, boundary, shard) {
                Err(_) => {
                    assert(stepped(w, state) is Err);
                },
                Ok(file) => {
                    let there = OpeningView::PlannedBytes {
                        progress,
                        file,
                        index_path,
                        plan,
                        next: from,
                    };
                    assert(stepped(w, state) == Ok::<_, ErrorView>(there));
                    assert(driven(w, state, n) == driven(w, there, (n - 1) as nat));
                    match opening::with_planned_file(
                        progress.catalog,
                        file,
                        (w.content)(file),
                        progress.options.max_header_bytes,
                        names,
                        index_path,
                    ) {
                        Err(_) => {
                            assert(stepped(w, there) is Err);
                        },
                        Ok(after) => {
                            let next = opening::with_catalog(progress, after);
                            assert(stepped(w, there) == opening::plan_step(
                                next,
                                index_path,
                                plan,
                                from + 1,
                            ));
                            lemma_plan_driven(
                                w,
                                next,
                                index_path,
                                plan,
                                from + 1,
                                (n - 2) as nat,
                            );
                        },
                    }
                },
            }
        }
    }
}

/// How many steps opening a path takes at most.
pub open spec fn step_bound(w: World, root: Seq<u8>, options: OptionsView) -> nat {
    match discovery::resolved_input(
        root,
        (w.listing)(root),
        options.allow_implicit_multi_shard,
    ) {
        Err(_) => 1,
        Ok(InputView::SingleFile(_)) => 2,
        Ok(InputView::ImplicitShards(files)) => (1 + files.len()) as nat,
        Ok(InputView::Index(index_path)) => (2 + 2 * discovery::planned(
            (w.index)(index_path),
        ).len()) as nat,
    }
}

/// Opening a path, step by step, ends in what the path holds or in the reason
/// for which it cannot be opened.
pub proof fn lemma_opening_finishes(w: World, root: Seq<u8>, options: OptionsView, n: nat)
    requires
        n >= step_bound(w, root, options),
    ensures
        driven(w, opening::started(root, options), n) == match opened(w, root, options) {
            Err(e) => Err::<OpeningView, ErrorView>(e),
            Ok(c) => Ok(
                OpeningView::Id { progress: ProgressView { root, options, catalog: c } },
            ),
        },
{
    let empty = CatalogView { shards: Seq::empty(), tensors: Map::empty() };
    let progress = ProgressView { root, options, catalog: empty };
    let start = opening::started(root, options);
    assert(start == OpeningView::Listing { progress });
    match discovery::resolved_input(
        root,
        (w.listing)(root),
        options.allow_implicit_multi_shard,
    ) {
        Err(_) => {
            assert(stepped(w, start) is Err);
        },
        Ok(InputView::SingleFile(file)) => {
            lemma_files_driven(w, progress, seq![file], 0, (n - 1) as nat);
        },
        Ok(InputView::ImplicitShards(files)) => {
            lemma_files_driven(w, progress, files, 0, (n - 1) as nat);
        },
        Ok(InputView::Index(index_path)) => {
            let state = OpeningView::Index { progress, index_path };
            assert(stepped(w, start) == Ok::<_, ErrorView>(state));
            assert(driven(w, start, n) == driven(w, state, (n - 1) as nat));
            lemma_plan_driven(
                w,
                progress,
                index_path,
                discovery::planned((w.index)(index_path)),
                0,
                (n - 2) as nat,
            );
        },
    }
}

/// The tensors that the shards of a plan are listed with, from number `from` on.
pub open spec fn planned_names(plan: Seq<(Seq<char>, Seq<Seq<char>>)>, from: int) -> Set<Seq<char>>
    decreases plan.len() - from,
{
    if from >= plan.len() {
        Set::empty()
    } else {
        plan[from].1.to_set().union(planned_names(plan, from + 1))
    }
}

/// What an index opens to: one shard for each path in it, and the tensors that
/// it lists.
proof fn lemma_plan_contents(
    w: World,
    c: CatalogView,
    index_path: Seq<u8>,
    plan: Seq<(Seq<char>, Seq<Seq<char>>)>,
    max_header_bytes: u64,
    from: int,
)
    requires
        0 <= from <= plan.len(),
        c.wf(),
        c.shards.len() + plan.len() - from <= usize::MAX,
        forall|i: int| 0 <= i < plan.len() ==> name_map::ascending((#[trigger] plan[i]).1),
    ensures
        with_plan(w, c, index_path, plan, max_header_bytes, from) matches Ok(after) ==> {
            &&& after.wf()
            &&& after.tensors.dom() == c.tensors.dom().union(planned_names(plan, from))
            &&& after.shards.len() == c.shards.len() + plan.len() - from
        },
    decreases plan.len() - from,
{
    if from < plan.len() {
        let (raw, names) = plan[from];
        let (boundary, shard) = (w.resolve)(index_path, raw);
        match discovery::resolved_shard(index_path, raw, boundary, shard) {
            Err(_) => {},
            Ok(file) => match opening::with_planned_file(
                c,
                file,
                (w.content)(file),
                max_header_bytes,
                names,
                index_path,
            ) {
                Err(_) => {},
                Ok(after) => {
                    let s = shard::opened(file, (w.content)(file));
                    let base = catalog::with_shard(c, s);
                    let listed = name_map::ordered(names.to_set());
                    catalog::lemma_with_shard_wf(c, s);
                    assert(name_map::ascending(plan[from].1));
                    assert(name_map::lists(names, names.to_set()));
                    name_map::lemma_ordered(names, names.to_set());
                    catalog::lemma_with_tensors_keeps(
                        base,
                        c.shards.len() as usize,
                        header::tensors_of((w.content)(file)),
                        listed,
                        index_path,
                    );
                    lemma_plan_contents(w, after, index_path, plan, max_header_bytes, from + 1);
                    assert(c.tensors.dom().union(names.to_set()).union(
                        planned_names(plan, from + 1),
                    ) =~= c.tensors.dom().union(planned_names(plan, from)));
                },
            },
        }
    } else {
        assert(c.tensors.dom().union(planned_names(plan, from)) =~= c.tensors.dom());
    }
}

proof fn lemma_planned_names(plan: Seq<(Seq<char>, Seq<Seq<char>>)>, from: int, name: Seq<char>)
    requires
        0 <= from,
    ensures
        planned_names(plan, from).contains(name) <==> exists|i: int|
            from <= i < plan.len() && (#[trigger] plan[i]).1.contains(name),
    decreases plan.len() - from,
{
    if from < plan.len() {
        lemma_planned_names(plan, from + 1, name);
        if plan[from].1.contains(name) {
            assert(plan[from].1.to_set().contains(name));
        }
        if exists|i: int| from <= i < plan.len() && (#[trigger] plan[i]).1.contains(name) {
            let i = choose|i: int| from <= i < plan.len() && (#[trigger] plan[i]).1.contains(name);
            if i == from {
                assert(plan[from].1.to_set().contains(name));
            }
        }
    }
}

/// A model opened from an index has exactly the tensors that the index lists,
/// and one shard for each path in it.
pub proof fn lemma_index_determines_tensors(
    w: World,
    index_path: Seq<u8>,
    max_header_bytes: u64,
)
    requires
        (w.index)(index_path).dom().finite(),
        discovery::planned((w.index)(index_path)).len() <= usize::MAX,
    ensures
        ({
            let empty = CatalogView { shards: Seq::empty(), tensors: Map::empty() };
            let index = (w.index)(index_path);
            let plan = discovery::planned(index);
            with_plan(w, empty, index_path, plan, max_header_bytes, 0) matches Ok(c) ==> {
                &&& c.tensors.dom() == index.dom()
                &&& c.shards.len() == plan.len()
            }
        }),
{
    let empty = CatalogView { shards: Seq::empty(), tensors: Map::empty() };
    let index = (w.index)(index_path);
    let plan = discovery::planned(index);
    vstd::map_lib::lemma_values_finite(index);
    name_map::lemma_ordered_exists(index.values());
    let raws = name_map::ordered(index.values());
    assert forall|i: int| 0 <= i < plan.len() implies name_map::lists(
        (#[trigger] plan[i]).1,
        discovery::names_in(index, raws[i]),
    ) by {
        discovery::lemma_plan_lists_names(index, i);
    }
    lemma_plan_contents(w, empty, index_path, plan, max_header_bytes, 0);
    assert forall|name: Seq<char>| planned_names(plan, 0).contains(name) <==> index.dom().contains(
        name,
    ) by {
        lemma_planned_names(plan, 0, name);
        if planned_names(plan, 0).contains(name) {
            let i = choose|i: int| 0 <= i < plan.len() && (#[trigger] plan[i]).1.contains(name);
            assert(name_map::lists(plan[i].1, discovery::names_in(index, raws[i])));
            assert(discovery::names_in(index, raws[i]).contains(name));
        }
        if index.dom().contains(name) {
            let raw = index[name];
            assert(index.contains_key(name));
            assert(index.values().contains(raw));
            assert(raws.contains(raw));
            let i = choose|i: int| 0 <= i < raws.len() && raws[i] == raw;
            assert(name_map::lists(plan[i].1, discovery::names_in(index, raws[i])));
            assert(discovery::names_in(index, raws[i]).contains(name));
            assert(plan[i].1.contains(name));
        }
    }
    assert(planned_names(plan, 0) =~= index.dom());
    assert(empty.tensors.dom().union(index.dom()) =~= index.dom());
}

proof fn lemma_tensors_described(
    c: CatalogView,
    shard_id: usize,
    found: Map<Seq<char>, InfoView>,
    names: Seq<Seq<char>>,
    index_path: Seq<u8>,
)
    requires
        c.wf(),
        shard_id < c.shards.len(),
        name_map::ascending(names),
        c.shards[shard_id as int].data_start <= c.shards[shard_id as int].bytes.len() <= u64::MAX,
        forall|name: Seq<char>| #[trigger]
            found.contains_key(name) ==> header::fits(
                found[name],
                c.shards[shard_id as int].bytes.len() - c.shards[shard_id as int].data_start,
            ),
        forall|name: Seq<char>| #[trigger]
            names.contains(name) ==> found.contains_key(name) && !c.tensors.contains_key(name),
    ensures
        catalog::with_tensors(c, shard_id, found, names, index_path) is Ok,
    decreases names.len(),
{
    if names.len() > 0 {
        let rest = names.drop_last();
        let last = names.last();
        assert(names.contains(last));
        assert forall|name: Seq<char>| #[trigger] rest.contains(name) implies found.contains_key(
            name,
        ) && !c.tensors.contains_key(name) by {
            let j = choose|j: int| 0 <= j < rest.len() && rest[j] == name;
            assert(names[j] == name);
            assert(names.contains(name));
        }
        assert(name_map::ascending(rest)) by {
            assert forall|m: int, n: int|
                0 <= m < n < rest.len() implies #[trigger] crate::text::text_before(
                rest[m],
                rest[n],
            ) by {
                assert(crate::text::text_before(names[m], names[n]));
            }
        }
        lemma_tensors_described(c, shard_id, found, rest, index_path);
        catalog::lemma_with_tensors_keeps(c, shard_id, found, rest, index_path);
        let before = catalog::with_tensors(c, shard_id, found, rest, index_path)->Ok_0;
        assert(!rest.contains(last)) by {
            if rest.contains(last) {
                let j = choose|j: int| 0 <= j < rest.len() && rest[j] == last;
                name_map::lemma_ascending_distinct(names, j, names.len() - 1);
            }
        }
        assert(!rest.to_set().contains(last));
        assert(!before.tensors.dom().contains(last));
        assert(header::fits(
            found[last],
            c.shards[shard_id as int].bytes.len() - c.shards[shard_id as int].data_start,
        ));
    }
}

/// A file whose header is accepted and describes the file's own data is added to
/// a model, with all its tensors, unless one of their names is taken.
pub proof fn lemma_valid_file_added(
    c: CatalogView,
    file: Seq<u8>,
    bytes: Seq<u8>,
    max_header_bytes: u64,
)
    requires
        c.wf(),
        c.shards.len() < usize::MAX,
        shard::open_error(file, bytes, max_header_bytes) is None,
        8 + header::declared_len(bytes) <= bytes.len() <= u64::MAX,
        header::tensors_of(bytes).dom().finite(),
        forall|name: Seq<char>| #[trigger]
            header::tensors_of(bytes).contains_key(name) ==> header::fits(
                header::tensors_of(bytes)[name],
                bytes.len() - 8 - header::declared_len(bytes),
            ) && !c.tensors.contains_key(name),
    ensures
        opening::with_file(c, file, bytes, max_header_bytes) matches Ok(after)
            && after.tensors.dom() == c.tensors.dom().union(header::tensors_of(bytes).dom())
            && after.shards == c.shards.push(shard::opened(file, bytes)),
{
    let found = header::tensors_of(bytes);
    let s = shard::opened(file, bytes);
    let base = catalog::with_shard(c, s);
    let names = name_map::ordered(found.dom());
    name_map::lemma_ordered_exists(found.dom());
    catalog::lemma_with_shard_wf(c, s);
    assert(base.shards[c.shards.len() as int] == s);
    assert forall|name: Seq<char>| #[trigger] names.contains(name) implies found.contains_key(name)
        && !base.tensors.contains_key(name) by {
        assert(found.dom().contains(name));
        assert(found.contains_key(name));
    }
    lemma_tensors_described(base, c.shards.len() as usize, found, names, Seq::empty());
    catalog::lemma_with_tensors_keeps(
        base,
        c.shards.len() as usize,
        found,
        names,
        Seq::empty(),
    );
    assert(names.to_set() =~= found.dom());
}

/// A shard of an index whose header is accepted, describes the file's own data and
/// declares exactly the tensors that the index lists for it is added to a model,
/// unless one of their names is taken.
pub proof fn lemma_valid_shard_added(
    c: CatalogView,
    file: Seq<u8>,
    bytes: Seq<u8>,
    max_header_bytes: u64,
    names: Seq<Seq<char>>,
    index_path: Seq<u8>,
)
    requires
        c.wf(),
        c.shards.len() < usize::MAX,
        shard::open_error(file, bytes, max_header_bytes) is None,
        8 + header::declared_len(bytes) <= bytes.len() <= u64::MAX,
        name_map::ascending(names),
        names.to_set() == header::tensors_of(bytes).dom(),
        forall|name: Seq<char>| #[trigger]
            header::tensors_of(bytes).contains_key(name) ==> header::fits(
                header::tensors_of(bytes)[name],
                bytes.len() - 8 - header::declared_len(bytes),
            ) && !c.tensors.contains_key(name),
    ensures
        opening::with_planned_file(c, file, bytes, max_header_bytes, names, index_path) matches Ok(
            after,
        ) && after.tensors.dom() == c.tensors.dom().union(header::tensors_of(bytes).dom())
            && after.shards == c.shards.push(shard::opened(file, bytes)),
{
    let found = header::tensors_of(bytes);
    let s = shard::opened(file, bytes);
    let base = catalog::with_shard(c, s);
    assert(name_map::lists(names, names.to_set()));
    name_map::lemma_ordered(names, names.to_set());
    catalog::lemma_with_shard_wf(c, s);
    assert(base.shards[c.shards.len() as int] == s);
    assert forall|name: Seq<char>| #[trigger] names.contains(name) implies found.contains_key(name)
        && !base.tensors.contains_key(name) by {
        assert(names.to_set().contains(name));
        assert(found.contains_key(name));
    }
    lemma_tensors_described(base, c.shards.len() as usize, found, names, index_path);
    catalog::lemma_with_tensors_keeps(base, c.shards.len() as usize, found, names, index_path);
    let none = Seq::<Seq<char>>::empty();
    let missing = catalog::unlisted(found, names.to_set());
    assert(name_map::lists(none, missing)) by {
        assert forall|k: Seq<char>| #[trigger] none.contains(k) <==> missing.contains(k) by {}
    }
    name_map::lemma_ordered(none, missing);
}

/// Two files with a tensor of the same name do not make one model.
pub proof fn lemma_shared_name_refused(
    c: CatalogView,
    file: Seq<u8>,
    bytes: Seq<u8>,
    max_header_bytes: u64,
    name: Seq<char>,
)
    requires
        c.wf(),
        c.shards.len() < usize::MAX,
        shard::open_error(file, bytes, max_header_bytes) is None,
        header::tensors_of(bytes).dom().finite(),
        c.tensors.contains_key(name),
        header::tensors_of(bytes).contains_key(name),
    ensures
        opening::with_file(c, file, bytes, max_header_bytes) is Err,
{
    let found = header::tensors_of(bytes);
    let s = shard::opened(file, bytes);
    let base = catalog::with_shard(c, s);
    let names = name_map::ordered(found.dom());
    name_map::lemma_ordered_exists(found.dom());
    catalog::lemma_with_shard_wf(c, s);
    catalog::lemma_with_tensors_keeps(
        base,
        c.shards.len() as usize,
        found,
        names,
        Seq::empty(),
    );
    assert(found.dom().contains(name));
    assert(names.contains(name));
}

/// A shard that resolves within a directory resolves within every directory
/// around it: a wider trusted root accepts whatever a narrower one does.
pub proof fn lemma_wider_root_accepts(
    index_path: Seq<u8>,
    raw: Seq<char>,
    narrow: Seq<u8>,
    wide: Seq<u8>,
    shard: Seq<u8>,
)
    requires
        path::lies_within(narrow, wide),
        discovery::resolved_shard(index_path, raw, narrow, shard) is Ok,
    ensures
        discovery::resolved_shard(index_path, raw, wide, shard) == Ok::<_, ErrorView>(shard),
{
    let outer = path::components(wide);
    let middle = path::components(narrow);
    let inner = path::components(shard);
    assert(inner.subrange(0, outer.len() as int) =~= middle.subrange(0, outer.len() as int));
}

/// No shard path of an index is looked up that is absolute or climbs, and none
/// is opened that really lies outside the boundary.
pub proof fn lemma_opened_shards_contained(
    index_path: Seq<u8>,
    raw: Seq<char>,
    boundary: Seq<u8>,
    shard: Seq<u8>,
)
    ensures
        discovery::resolved_shard(index_path, raw, boundary, shard) is Ok <==> {
            &&& !(raw.len() > 0 && raw[0] == '/')
            &&& !crate::text::split(raw, '/').contains(seq!['.', '.'])
            &&& path::lies_within(shard, boundary)
        },
{
}

proof fn lemma_plan_shards(
    w: World,
    c: CatalogView,
    index_path: Seq<u8>,
    plan: Seq<(Seq<char>, Seq<Seq<char>>)>,
    max_header_bytes: u64,
    from: int,
)
    requires
        0 <= from <= plan.len(),
        c.wf(),
        c.shards.len() == from,
        plan.len() <= usize::MAX,
    ensures
        with_plan(w, c, index_path, plan, max_header_bytes, from) matches Ok(after) ==> {
            &&& after.shards.len() == plan.len()
            &&& after.shards.take(from) == c.shards
            &&& forall|i: int|
                from <= i < plan.len() ==> {
                    let (boundary, shard) = (w.resolve)(index_path, (#[trigger] plan[i]).0);
                    &&& after.shards[i] == shard::opened(shard, (w.content)(shard))
                    &&& discovery::shard_name_fault(plan[i].0) is None
                    &&& path::lies_within(shard, boundary)
                }
        },
    decreases plan.len() - from,
{
    if from < plan.len() {
        let (raw, names) = plan[from];
        let (boundary, shard) = (w.resolve)(index_path, raw);
        match discovery::resolved_shard(index_path, raw, boundary, shard) {
            Err(_) => {},
            Ok(file) => match opening::with_planned_file(
                c,
                file,
                (w.content)(file),
                max_header_bytes,
                names,
                index_path,
            ) {
                Err(_) => {},
                Ok(after) => {
                    let s = shard::opened(file, (w.content)(file));
                    catalog::lemma_with_shard_wf(c, s);
                    catalog::lemma_with_tensors_keeps(
                        catalog::with_shard(c, s),
                        c.shards.len() as usize,
                        header::tensors_of((w.content)(file)),
                        name_map::ordered(names.to_set()),
                        index_path,
                    );
                    lemma_plan_shards(w, after, index_path, plan, max_header_bytes, from + 1);
                    match with_plan(w, after, index_path, plan, max_header_bytes, from + 1) {
                        Err(_) => {},
                        Ok(last) => {
                            assert(last.shards.take(from) =~= last.shards.take(from + 1).take(
                                from,
                            ));
                            assert(after.shards.take(from) =~= c.shards);
                            assert(last.shards[from] == last.shards.take(from + 1)[from]);
                        },
                    }
                },
            },
        }
    } else {
        assert(c.shards.take(from) =~= c.shards);
    }
}

/// The shards of a model opened from an index are the files that its paths lead
/// to, in the order of the paths. None of the paths is absolute or climbs, and
/// none of the files lies outside the boundary.
pub proof fn lemma_index_shards_contained(w: World, index_path: Seq<u8>, max_header_bytes: u64)
    requires
        discovery::planned((w.index)(index_path)).len() <= usize::MAX,
    ensures
        ({
            let empty = CatalogView { shards: Seq::empty(), tensors: Map::empty() };
            let plan = discovery::planned((w.index)(index_path));
            with_plan(w, empty, index_path, plan, max_header_bytes, 0) matches Ok(c) ==> {
                &&& c.shards.len() == plan.len()
                &&& forall|i: int|
                    0 <= i < plan.len() ==> {
                        let (boundary, shard) = (w.resolve)(index_path, (#[trigger] plan[i]).0);
                        &&& c.shards[i] == shard::opened(shard, (w.content)(shard))
                        &&& discovery::shard_name_fault(plan[i].0) is None
                        &&& path::lies_within(shard, boundary)
                    }
            }
        }),
{
    let empty = CatalogView { shards: Seq::empty(), tensors: Map::empty() };
    let plan = discovery::planned((w.index)(index_path));
    lemma_plan_shards(w, empty, index_path, plan, max_header_bytes, 0);
}

proof fn lemma_files_shards(
    w: World,
    c: CatalogView,
    files: Seq<Seq<u8>>,
    max_header_bytes: u64,
    from: int,
)
    requires
        0 <= from <= files.len(),
        c.wf(),
        c.shards.len() == from,
        files.len() <= usize::MAX,
    ensures
        with_files(w, c, files, max_header_bytes, from) matches Ok(after) ==> {
            &&& after.shards.len() == files.len()
            &&& after.shards.take(from) == c.shards
            &&& forall|i: int|
                from <= i < files.len() ==> after.shards[i] == shard::opened(
                    #[trigger] files[i],
                    (w.content)(files[i]),
                )
        },
    decreases files.len() - from,
{
    if from < files.len() {
        let file = files[from];
        let bytes = (w.content)(file);
        match opening::with_file(c, file, bytes, max_header_bytes) {
            Err(_) => {},
            Ok(after) => {
                let s = shard::opened(file, bytes);
                let found = header::tensors_of(bytes);
                catalog::lemma_with_shard_wf(c, s);
                catalog::lemma_with_tensors_keeps(
                    catalog::with_shard(c, s),
                    c.shards.len() as usize,
                    found,
                    name_map::ordered(found.dom()),
                    Seq::empty(),
                );
                lemma_files_shards(w, after, files, max_header_bytes, from + 1);
                match with_files(w, after, files, max_header_bytes, from + 1) {
                    Err(_) => {},
                    Ok(last) => {
                        assert(last.shards.take(from) =~= last.shards.take(from + 1).take(from));
                        assert(after.shards.take(from) =~= c.shards);
                        assert(last.shards[from] == last.shards.take(from + 1)[from]);
                    },
                }
            },
        }
    } else {
        assert(c.shards.take(from) =~= c.shards);
    }
}

/// The shards of a model opened from files are those files, in their order.
pub proof fn lemma_file_shards_in_order(w: World, files: Seq<Seq<u8>>, max_header_bytes: u64)
    requires
        files.len() <= usize::MAX,
    ensures
        ({
            let empty = CatalogView { shards: Seq::empty(), tensors: Map::empty() };
            with_files(w, empty, files, max_header_bytes, 0) matches Ok(c) ==> {
                &&& c.shards.len() == files.len()
                &&& forall|i: int|
                    0 <= i < files.len() ==> c.shards[i] == shard::opened(
                        #[trigger] files[i],
                        (w.content)(files[i]),
                    )
            }
        }),
{
    let empty = CatalogView { shards: Seq::empty(), tensors: Map::empty() };
    lemma_files_shards(w, empty, files, max_header_bytes, 0);
}

proof fn lemma_candidates_count(entries: Seq<(Seq<u8>, bool)>, indexes: bool, p: Seq<u8>)
    ensures
        discovery::candidates(entries, indexes).to_multiset().count(p) == if (if indexes {
            discovery::is_index(p)
        } else {
            discovery::is_shard(p)
        }) {
            entries.to_multiset().count((p, true))
        } else {
            0
        },
    decreases entries.len(),
{
    let found = discovery::candidates(entries, indexes);
    if entries.len() == 0 {
        entries.to_multiset_ensures();
        found.to_multiset_ensures();
        assert(!entries.contains((p, true)) && !found.contains(p));
    } else {
        let rest = entries.drop_last();
        lemma_candidates_count(rest, indexes, p);
        assert(entries =~= rest.push(entries.last()));
        rest.to_multiset_ensures();
        discovery::candidates(rest, indexes).to_multiset_ensures();
    }
}

/// What a directory stands for does not depend on the order in which its entries
/// are listed.
pub proof fn lemma_listing_order_irrelevant(
    p: Seq<u8>,
    a: Seq<(Seq<u8>, bool)>,
    b: Seq<(Seq<u8>, bool)>,
    allow_implicit_multi_shard: bool,
)
    requires
        a.to_multiset() == b.to_multiset(),
    ensures
        discovery::resolved_input(p, ListingView::Directory(a), allow_implicit_multi_shard)
            == discovery::resolved_input(p, ListingView::Directory(b), allow_implicit_multi_shard),
{
    assert forall|indexes: bool| path::sorted_paths(#[trigger] discovery::candidates(a, indexes))
        == path::sorted_paths(discovery::candidates(b, indexes)) by {
        let x = discovery::candidates(a, indexes);
        let y = discovery::candidates(b, indexes);
        assert forall|q: Seq<u8>| x.to_multiset().count(q) == y.to_multiset().count(q) by {
            lemma_candidates_count(a, indexes, q);
            lemma_candidates_count(b, indexes, q);
        }
        assert(x.to_multiset() =~= y.to_multiset());
        path::lemma_sorted_exists(x);
        path::lemma_sorted_paths(path::sorted_paths(x), y);
    }
}

proof fn lemma_candidates_filtered(entries: Seq<(Seq<u8>, bool)>)
    ensures
        discovery::candidates(entries, true) == entries.filter(
            |e: (Seq<u8>, bool)|
                e.1 && ".safetensors.index.json".spec_bytes().is_suffix_of(e.0),
        ).map_values(|e: (Seq<u8>, bool)| e.0),
        discovery::candidates(entries, false) == entries.filter(
            |e: (Seq<u8>, bool)|
                e.1 && !".safetensors.index.json".spec_bytes().is_suffix_of(e.0)
                    && ".safetensors".spec_bytes().is_suffix_of(e.0),
        ).map_values(|e: (Seq<u8>, bool)| e.0),
    decreases entries.len(),
{
    let index = |e: (Seq<u8>, bool)|
        e.1 && ".safetensors.index.json".spec_bytes().is_suffix_of(e.0);
    let shard = |e: (Seq<u8>, bool)|
        e.1 && !".safetensors.index.json".spec_bytes().is_suffix_of(e.0)
            && ".safetensors".spec_bytes().is_suffix_of(e.0);
    let place = |e: (Seq<u8>, bool)| e.0;
    reveal(Seq::filter);
    if entries.len() == 0 {
        assert(entries.filter(index).map_values(place) =~= Seq::<Seq<u8>>::empty());
        assert(entries.filter(shard).map_values(place) =~= Seq::<Seq<u8>>::empty());
    } else {
        let rest = entries.drop_last();
        let e = entries.last();
        lemma_candidates_filtered(rest);
        assert(rest.filter(index).push(e).map_values(place) =~= rest.filter(index).map_values(
            place,
        ).push(e.0));
        assert(rest.filter(shard).push(e).map_values(place) =~= rest.filter(shard).map_values(
            place,
        ).push(e.0));
    }
}

proof fn lemma_sorted_few(s: Seq<Seq<u8>>)
    ensures
        path::sorted_paths(s).len() == s.len(),
        path::sorted_paths(s).to_multiset() == s.to_multiset(),
        path::paths_ascend(path::sorted_paths(s)),
        s.len() == 1 ==> path::sorted_paths(s)[0] == s[0],
{
    let r = path::sorted_paths(s);
    path::lemma_sorted_exists(s);
    s.to_multiset_ensures();
    r.to_multiset_ensures();
    if s.len() == 1 {
        assert(s.contains(s[0]));
        assert(r.to_multiset().count(s[0]) > 0);
        assert(r.contains(s[0]));
    }
}

/// What a directory stands for, by the files in it whose names end as those of an
/// index or a shard do. One index is used, whatever else there is. Several are
/// refused, all named in order. Without an index one shard is used; several are
/// refused, all named in order, unless they were allowed, and then they are used, in
/// order. Without any there is nothing to open.
#[verifier::spinoff_prover]
#[verifier::rlimit(40)]
pub proof fn lemma_directory_decided(
    p: Seq<u8>,
    entries: Seq<(Seq<u8>, bool)>,
    allow_implicit_multi_shard: bool,
)
    ensures
        ({
            let indexes = entries.filter(
                |e: (Seq<u8>, bool)|
                    e.1 && ".safetensors.index.json".spec_bytes().is_suffix_of(e.0),
            ).map_values(|e: (Seq<u8>, bool)| e.0);
            let shards = entries.filter(
                |e: (Seq<u8>, bool)|
                    e.1 && !".safetensors.index.json".spec_bytes().is_suffix_of(e.0)
                        && ".safetensors".spec_bytes().is_suffix_of(e.0),
            ).map_values(|e: (Seq<u8>, bool)| e.0);
            match discovery::resolved_input(
                p,
                ListingView::Directory(entries),
                allow_implicit_multi_shard,
            ) {
                Ok(InputView::Index(file)) => indexes == seq![file],
                Ok(InputView::SingleFile(file)) => indexes.len() == 0 && shards == seq![file],
                Ok(InputView::ImplicitShards(files)) => {
                    &&& indexes.len() == 0
                    &&& shards.len() > 1
                    &&& allow_implicit_multi_shard
                    &&& path::paths_ascend(files)
                    &&& files.to_multiset() == shards.to_multiset()
                },
                Err(ErrorView::NoShardsFound { dir }) => dir == p && indexes.len() == 0
                    && shards.len() == 0,
                Err(ErrorView::AmbiguousDirectory { dir, reason, candidates }) => {
                    &&& dir == p
                    &&& path::paths_ascend(candidates)
                    &&& if indexes.len() > 0 {
                        &&& indexes.len() > 1
                        &&& reason == "multiple *.safetensors.index.json files found"@
                        &&& candidates.to_multiset() == indexes.to_multiset()
                    } else {
                        &&& shards.len() > 1
                        &&& !allow_implicit_multi_shard
                        &&& reason == discovery::SEVERAL_SHARDS@
                        &&& candidates.to_multiset() == shards.to_multiset()
                    }
                },
                Err(_) => false,
            }
        }),
{
    lemma_candidates_filtered(entries);
    let indexes = discovery::candidates(entries, true);
    let shards = discovery::candidates(entries, false);
    lemma_sorted_few(indexes);
    lemma_sorted_few(shards);
    if indexes.len() == 1 {
        assert(indexes =~= seq![path::sorted_paths(indexes)[0]]);
    }
    if shards.len() == 1 {
        assert(shards =~= seq![path::sorted_paths(shards)[0]]);
    }
}

/// A directory in which exactly one file names an index stands for that index,
/// whatever other entries there are and whatever the options say.
pub proof fn lemma_single_index_is_used(
    p: Seq<u8>,
    entries: Seq<(Seq<u8>, bool)>,
    allow_implicit_multi_shard: bool,
    i: int,
)
    requires
        0 <= i < entries.len(),
        entries[i].1,
        ".safetensors.index.json".spec_bytes().is_suffix_of(entries[i].0),
        forall|j: int|
            0 <= j < entries.len() && j != i ==> !((#[trigger] entries[j]).1
                && ".safetensors.index.json".spec_bytes().is_suffix_of(entries[j].0)),
    ensures
        discovery::resolved_input(p, ListingView::Directory(entries), allow_implicit_multi_shard)
            == Ok::<_, ErrorView>(InputView::Index(entries[i].0)),
{
    let pred = |e: (Seq<u8>, bool)|
        e.1 && ".safetensors.index.json".spec_bytes().is_suffix_of(e.0);
    let place = |e: (Seq<u8>, bool)| e.0;
    let found = entries.filter(pred);
    lemma_one_kept(entries, pred, i);
    assert(found.map_values(place) =~= seq![entries[i].0]);
    lemma_candidates_filtered(entries);
    lemma_sorted_few(discovery::candidates(entries, true));
}

proof fn lemma_one_kept<A>(s: Seq<A>, pred: spec_fn(A) -> bool, i: int)
    requires
        0 <= i < s.len(),
        pred(s[i]),
        forall|j: int| 0 <= j < s.len() && j != i ==> !pred(#[trigger] s[j]),
    ensures
        s.filter(pred) == seq![s[i]],
    decreases s.len(),
{
    reveal(Seq::filter);
    let rest = s.drop_last();
    assert forall|j: int| 0 <= j < rest.len() && j != i implies !pred(#[trigger] rest[j]) by {
        assert(!pred(s[j]));
    }
    if i == s.len() - 1 {
        block_laws::lemma_filter_keeps_none(rest, pred);
        assert(s.filter(pred) =~= seq![s[i]]);
    } else {
        lemma_one_kept(rest, pred, i);
        assert(!pred(s[s.len() - 1]));
    }
}

/// What a path that is no directory stands for: a file goes by how its name ends,
/// and anything else cannot be opened. The options do not matter.
pub proof fn lemma_file_decided(p: Seq<u8>, allow_implicit_multi_shard: bool)
    ensures
        discovery::resolved_input(p, ListingView::File, allow_implicit_multi_shard) == if (
        ".safetensors.index.json".spec_bytes().is_suffix_of(p)) {
            Ok(InputView::Index(p))
        } else if ".safetensors".spec_bytes().is_suffix_of(p) {
            Ok(InputView::SingleFile(p))
        } else {
            Err(ErrorView::UnsupportedInput { path: p })
        },
        discovery::resolved_input(p, ListingView::Other, allow_implicit_multi_shard) == Err::<
            InputView,
            _,
        >(ErrorView::UnsupportedInput { path: p }),
{
}

/// A path stands before every longer path that begins with it, and of two paths that
/// differ first in one byte the one with the smaller byte stands before the other.
pub proof fn lemma_paths_ordered_by_bytes(
    lead: Seq<u8>,
    x: u8,
    y: u8,
    a: Seq<u8>,
    b: Seq<u8>,
)
    requires
        x < y,
    ensures
        path::path_before(lead, lead.push(x) + a),
        !path::path_before(lead.push(x) + a, lead),
        !path::path_before(lead, lead),
        path::path_before(lead.push(x) + a, lead.push(y) + b),
        !path::path_before(lead.push(y) + b, lead.push(x) + a),
{
    let n = lead.len() as int;
    let l = path::byte_codes(lead.push(x) + a);
    let r = path::byte_codes(lead.push(y) + b);
    let c = path::byte_codes(lead);
    assert((lead.push(x) + a)[n] == x && (lead.push(y) + b)[n] == y);
    assert(l.take(n) =~= r.take(n));
    assert(l.take(n) =~= c.take(n));
    assert(text::precedes_at(l, r, n));
    assert(text::precedes_at(c, l, n));
    text::lemma_precedes_asymmetric(l, r);
    text::lemma_precedes_asymmetric(c, l);
    text::lemma_precedes_irreflexive(c);
}

/// The components of a path are its parts between the slashes, without empty parts
/// and without single dots behind the first slash. A path lies within another if
/// both are absolute or both are not, and its components begin with those of the
/// other.
pub proof fn lemma_components_part_by_part(p: Seq<u8>, part: Seq<u8>, base: Seq<u8>)
    requires
        !part.contains(47u8),
    ensures
        path::components(part) == if part.len() == 0 {
            Seq::empty()
        } else {
            seq![part]
        },
        path::components(p.push(47u8) + part) == if part.len() == 0 || part == seq![46u8] {
            path::components(p)
        } else {
            path::components(p).push(part)
        },
        path::lies_within(p, base) <==> (p.len() > 0 && p[0] == 47u8) == (base.len() > 0 && base[0]
            == 47u8) && path::components(base).is_prefix_of(path::components(p)),
{
    let own = text::split(part, 47u8);
    let lead = text::split(p, 47u8);
    block_laws::lemma_split_at_separators(part, Seq::empty(), 47u8);
    block_laws::lemma_split_at_separators(p, part, 47u8);
    assert(own == seq![part]);
    assert(own.drop_last() =~= Seq::<Seq<u8>>::empty());
    assert(path::kept_parts(own.drop_last()) =~= Seq::<Seq<u8>>::empty());
    assert(path::components(part) =~= if part.len() == 0 {
        Seq::empty()
    } else {
        seq![part]
    });
    let whole = lead + own;
    assert(whole.drop_last() =~= lead);
    assert(whole.last() == part);
    lemma_split_has_parts(p);
    assert(whole.len() > 1);
}

proof fn lemma_split_has_parts(p: Seq<u8>)
    ensures
        text::split(p, 47u8).len() > 0,
    decreases p.len(),
{
    if p.len() > 0 {
        lemma_split_has_parts(p.drop_last());
    }
}

/// Whatever is appended to a path behind a slash lies within the path; and of two
/// names in one directory neither lies within the other unless they are the same.
pub proof fn lemma_contained_by_parts(base: Seq<u8>, rest: Seq<u8>, x: Seq<u8>, y: Seq<u8>)
    requires
        base.len() > 0,
        !x.contains(47u8) && x.len() > 0 && x != seq![46u8],
        !y.contains(47u8) && y.len() > 0 && y != seq![46u8],
    ensures
        path::lies_within(base.push(47u8) + rest, base),
        path::lies_within(base.push(47u8) + x, base.push(47u8) + y) <==> x == y,
{
    let p = base.push(47u8) + rest;
    block_laws::lemma_split_at_separators(base, rest, 47u8);
    lemma_split_has_parts(base);
    lemma_kept_prefix(text::split(base, 47u8), text::split(rest, 47u8));
    assert(p[0] == base[0]);
    lemma_components_part_by_part(base, x, base);
    lemma_components_part_by_part(base, y, base);
    let a = path::components(base.push(47u8) + x);
    let b = path::components(base.push(47u8) + y);
    let c = path::components(base);
    assert((base.push(47u8) + x)[0] == base[0] && (base.push(47u8) + y)[0] == base[0]);
    assert(a == c.push(x) && b == c.push(y));
    if x == y {
        assert(a.subrange(0, b.len() as int) =~= b);
    } else if b.is_prefix_of(a) {
        assert(a.subrange(0, b.len() as int)[c.len() as int] == b[c.len() as int]);
        assert(a.subrange(0, b.len() as int)[c.len() as int] == x);
    }
}

proof fn lemma_kept_prefix(a: Seq<Seq<u8>>, b: Seq<Seq<u8>>)
    requires
        a.len() > 0,
    ensures
        path::kept_parts(a).is_prefix_of(path::kept_parts(a + b)),
    decreases b.len(),
{
    if b.len() == 0 {
        assert(a + b =~= a);
        let k = path::kept_parts(a);
        assert(k.subrange(0, k.len() as int) =~= k);
    } else {
        lemma_kept_prefix(a, b.drop_last());
        assert((a + b).drop_last() =~= a + b.drop_last());
        let k = path::kept_parts(a);
        let m = path::kept_parts(a + b.drop_last());
        let n = path::kept_parts(a + b);
        assert(n.subrange(0, k.len() as int) =~= m.subrange(0, k.len() as int));
    }
}

/// The directory of a path is what stands before its last slash: the root where that
/// is nothing, and the current directory where there is no slash. Joining appends a
/// path to a directory behind one slash, unless the path is absolute.
pub proof fn lemma_directory_and_join(dir: Seq<u8>, name: Seq<u8>, p: Seq<u8>)
    requires
        !name.contains(47u8),
    ensures
        path::directory_of(dir.push(47u8) + name) == if dir.len() == 0 {
            seq![47u8]
        } else {
            dir
        },
        path::directory_of(name) == seq![46u8],
        path::joined(dir, p) == if (p.len() > 0 && p[0] == 47u8) || dir.len() == 0 {
            p
        } else if dir[dir.len() - 1] == 47u8 {
            dir + p
        } else {
            dir.push(47u8) + p
        },
{
    lemma_last_slash(dir, name);
    let whole = dir.push(47u8) + name;
    assert(whole.take(dir.len() as int) =~= dir);
}

proof fn lemma_last_slash(dir: Seq<u8>, name: Seq<u8>)
    requires
        !name.contains(47u8),
    ensures
        path::last_separator(dir.push(47u8) + name) == dir.len(),
        path::last_separator(name) == -1,
    decreases name.len(),
{
    let whole = dir.push(47u8) + name;
    if name.len() == 0 {
        assert(whole =~= dir.push(47u8));
    } else {
        let rest = name.drop_last();
        assert(name.last() == name[name.len() - 1] && name.contains(name[name.len() - 1]));
        assert(!rest.contains(47u8)) by {
            if rest.contains(47u8) {
                let j = choose|j: int| 0 <= j < rest.len() && rest[j] == 47u8;
                assert(name[j] == 47u8);
            }
        }
        lemma_last_slash(dir, rest);
        assert(whole.drop_last() =~= dir.push(47u8) + rest);
        assert(whole.last() == name.last());
    }
}

/// Why the path of a shard is refused: it is absolute; else it climbs; else it leads
/// out of the boundary. The boundary is the root that was trusted, or the directory
/// of the index where none was.
pub proof fn lemma_refused_shard_reason(
    index_path: Seq<u8>,
    raw: Seq<char>,
    root: Seq<u8>,
    trusted: Option<Seq<u8>>,
    shard: Seq<u8>,
)
    ensures
        discovery::boundary_of(root, trusted) == match trusted {
            Some(t) => t,
            None => root,
        },
        discovery::resolved_shard(index_path, raw, root, shard) matches Err(e) ==> e == (
        ErrorView::UnsafeShardPath {
            index_path,
            raw,
            reason: if raw.len() > 0 && raw[0] == '/' {
                "absolute shard paths are not allowed"@
            } else if text::split(raw, '/').contains(seq!['.', '.']) {
                "'..' path traversal is not allowed"@
            } else {
                "resolves outside the trusted checkpoint root (possible symlink escape)"@
            },
        }),
        discovery::resolved_shard(index_path, raw, root, shard) matches Ok(p) ==> p == shard,
{
}

/// An index is worked off shard by shard: every shard that it names comes once, in
/// order, with exactly the tensors that the index has in it, in order.
#[verifier::spinoff_prover]
#[verifier::rlimit(40)]
pub proof fn lemma_plan_follows_index(index: Map<Seq<char>, Seq<char>>)
    requires
        index.dom().finite(),
    ensures
        ({
            let plan = discovery::planned(index);
            &&& forall|i: int, j: int|
                0 <= i < j < plan.len() ==> text::text_before(
                    (#[trigger] plan[i]).0,
                    (#[trigger] plan[j]).0,
                )
            &&& forall|i: int, a: int, b: int|
                #![trigger plan[i].1[a], plan[i].1[b]]
                0 <= i < plan.len() && 0 <= a < b < plan[i].1.len() ==> text::text_before(
                    plan[i].1[a],
                    plan[i].1[b],
                )
            &&& forall|i: int, name: Seq<char>|
                0 <= i < plan.len() ==> (#[trigger] plan[i].1.contains(name) <==> (
                index.contains_key(name) && index[name] == plan[i].0))
            &&& forall|name: Seq<char>| #[trigger]
                index.contains_key(name) ==> exists|i: int|
                    0 <= i < plan.len() && (#[trigger] plan[i]).0 == index[name]
        }),
{
    let plan = discovery::planned(index);
    let raws = name_map::ordered(index.values());
    vstd::map_lib::lemma_values_finite(index);
    name_map::lemma_ordered_exists(index.values());
    assert forall|i: int| 0 <= i < plan.len() implies name_map::lists(
        (#[trigger] plan[i]).1,
        discovery::names_in(index, plan[i].0),
    ) by {
        discovery::lemma_plan_lists_names(index, i);
    }
    assert forall|i: int, j: int| 0 <= i < j < plan.len() implies text::text_before(
        (#[trigger] plan[i]).0,
        (#[trigger] plan[j]).0,
    ) by {
        assert(text::text_before(raws[i], raws[j]));
    }
    assert forall|i: int, a: int, b: int|
        #![trigger plan[i].1[a], plan[i].1[b]]
        0 <= i < plan.len() && 0 <= a < b < plan[i].1.len() implies text::text_before(
        plan[i].1[a],
        plan[i].1[b],
    ) by {
        assert(name_map::lists(plan[i].1, discovery::names_in(index, plan[i].0)));
    }
    assert forall|i: int, name: Seq<char>|
        0 <= i < plan.len() implies (#[trigger] plan[i].1.contains(name) <==> (index.contains_key(
        name,
    ) && index[name] == plan[i].0)) by {
        assert(name_map::lists(plan[i].1, discovery::names_in(index, plan[i].0)));
        assert(discovery::names_in(index, plan[i].0).contains(name) <==> (index.contains_key(name)
            && index[name] == plan[i].0));
    }
    assert forall|name: Seq<char>| #[trigger] index.contains_key(name) implies exists|i: int|
        0 <= i < plan.len() && (#[trigger] plan[i]).0 == index[name] by {
        assert(index.values().contains(index[name]));
        assert(raws.contains(index[name]));
        let i = choose|i: int| 0 <= i < raws.len() && raws[i] == index[name];
        assert(plan[i].0 == index[name]);
    }
}

/// When a file is refused, and with what: it has no room for a length; or the length
/// that its first eight bytes spell, the lowest first, is over the limit; or its header
/// is not accepted. The data of a shard begins behind the header.
pub proof fn lemma_header_length_checked(file: Seq<u8>, bytes: Seq<u8>, max_header_bytes: u64)
    ensures
        bytes.len() < 8 <==> shard::open_error(file, bytes, max_header_bytes) == Some(
            ErrorView::HeaderTooSmall { path: file },
        ),
        bytes.len() >= 8 ==> {
            let declared = bytes[0] + 0x100 * bytes[1] + 0x1_0000 * bytes[2] + 0x100_0000 * bytes[3]
                + 0x1_0000_0000 * bytes[4] + 0x100_0000_0000 * bytes[5] + 0x1_0000_0000_0000
                * bytes[6] + 0x100_0000_0000_0000 * bytes[7];
            &&& header::declared_len(bytes) == declared
            &&& declared <= u64::MAX
            &&& declared > max_header_bytes <==> shard::open_error(file, bytes, max_header_bytes)
                == Some(
                ErrorView::HeaderTooLarge {
                    path: file,
                    declared: declared as u64,
                    limit: max_header_bytes,
                },
            )
            &&& declared <= max_header_bytes ==> shard::open_error(file, bytes, max_header_bytes)
                == if header::readable_header(bytes) is Some {
                None
            } else {
                Some(ErrorView::InvalidHeader { path: file })
            }
            &&& declared <= u64::MAX - 8 ==> shard::opened(file, bytes) == (ShardView {
                path: file,
                bytes,
                data_start: (8 + declared) as u64,
            })
        },
{
    if bytes.len() >= 8 {
        let s = bytes.take(8);
        assert(s.skip(1)[0] == s[1]);
        assert(s.skip(1).skip(1)[0] == s[2]);
        assert(s.skip(1).skip(1).skip(1)[0] == s[3]);
        assert(s.skip(1).skip(1).skip(1).skip(1)[0] == s[4]);
        assert(s.skip(1).skip(1).skip(1).skip(1).skip(1)[0] == s[5]);
        assert(s.skip(1).skip(1).skip(1).skip(1).skip(1).skip(1)[0] == s[6]);
        assert(s.skip(1).skip(1).skip(1).skip(1).skip(1).skip(1).skip(1)[0] == s[7]);
        reveal_with_fuel(header::little_endian, 9);
    }
}

/// The number of elements is the product of the lengths of the dimensions; without
/// any there is one element.
pub proof fn lemma_elements_multiply(a: Seq<usize>, b: Seq<usize>, n: usize)
    ensures
        header::element_count(a + b) == header::element_count(a) * header::element_count(b),
        header::element_count(seq![n]) == n,
        header::element_count(Seq::<usize>::empty()) == 1,
    decreases b.len(),
{
    assert(seq![n].drop_last() =~= Seq::<usize>::empty());
    let one = header::element_count(Seq::<usize>::empty());
    assert(one * (n as nat) == n) by (nonlinear_arith)
        requires
            one == 1,
    ;
    let x = header::element_count(a);
    if b.len() == 0 {
        assert(a + b =~= a);
        let y = header::element_count(b);
        assert(x * y == x) by (nonlinear_arith)
            requires
                y == 1,
        ;
    } else {
        let rest = b.drop_last();
        lemma_elements_multiply(a, rest, n);
        assert((a + b).drop_last() =~= a + rest);
        assert((a + b).last() == b.last());
        let y = header::element_count(rest);
        let z = b.last() as nat;
        assert(header::element_count(a + b) == (x * y) * z);
        assert(header::element_count(b) == y * z);
        assert((x * y) * z == x * (y * z)) by (nonlinear_arith);
    }
}

/// Number `k` of the names is the first that cannot be added: either the shard lacks
/// it, or an earlier shard has it.
pub open spec fn first_fault(
    c: CatalogView,
    found: Map<Seq<char>, InfoView>,
    names: Seq<Seq<char>>,
    k: int,
) -> bool {
    &&& 0 <= k < names.len()
    &&& !found.contains_key(names[k]) || c.tensors.contains_key(names[k])
    &&& forall|i: int|
        0 <= i < k ==> found.contains_key(#[trigger] names[i]) && !c.tensors.contains_key(names[i])
}

/// What the tensors of a shard come to that fit in its file: either all of them are
/// added, and then the shard has each and no earlier shard has any; or the first one
/// of which that does not hold is reported, as missing with the path of the shard, or
/// as a duplicate with the paths of the shard that has it and of this one.
#[verifier::spinoff_prover]
#[verifier::rlimit(40)]
pub proof fn lemma_first_fault_reported(
    c: CatalogView,
    shard_id: usize,
    found: Map<Seq<char>, InfoView>,
    names: Seq<Seq<char>>,
    index_path: Seq<u8>,
)
    requires
        c.wf(),
        shard_id < c.shards.len(),
        name_map::ascending(names),
        c.shards[shard_id as int].data_start <= c.shards[shard_id as int].bytes.len() <= u64::MAX,
        forall|name: Seq<char>| #[trigger]
            found.contains_key(name) ==> header::fits(
                found[name],
                c.shards[shard_id as int].bytes.len() - c.shards[shard_id as int].data_start,
            ),
    ensures
        match catalog::with_tensors(c, shard_id, found, names, index_path) {
            Ok(after) => {
                &&& forall|i: int|
                    0 <= i < names.len() ==> found.contains_key(#[trigger] names[i])
                        && !c.tensors.contains_key(names[i]) && after.tensors.contains_key(names[i])
                &&& forall|name: Seq<char>| #[trigger]
                    after.tensors.contains_key(name) ==> c.tensors.contains_key(name)
                        || names.contains(name)
            },
            Err(e) => exists|k: int|
                {
                    &&& #[trigger] first_fault(c, found, names, k)
                    &&& e == if found.contains_key(names[k]) {
                        ErrorView::DuplicateTensorName {
                            tensor: names[k],
                            first_path: c.shards[c.tensors[names[k]].shard_id as int].path,
                            second_path: c.shards[shard_id as int].path,
                        }
                    } else {
                        ErrorView::TensorMissingFromShard {
                            index_path,
                            shard_path: c.shards[shard_id as int].path,
                            tensor: names[k],
                        }
                    }
                },
        },
    decreases names.len(),
{
    if names.len() > 0 {
        let rest = names.drop_last();
        let last = names.len() - 1;
        assert(name_map::ascending(rest)) by {
            assert forall|m: int, n: int|
                0 <= m < n < rest.len() implies #[trigger] text::text_before(rest[m], rest[n]) by {
                assert(text::text_before(names[m], names[n]));
            }
        }
        lemma_first_fault_reported(c, shard_id, found, rest, index_path);
        catalog::lemma_with_tensors_keeps(c, shard_id, found, rest, index_path);
        catalog::lemma_with_tensors_keeps(c, shard_id, found, names, index_path);
        match catalog::with_tensors(c, shard_id, found, rest, index_path) {
            Err(e) => {
                let k = choose|k: int|
                    {
                        &&& #[trigger] first_fault(c, found, rest, k)
                        &&& e == if found.contains_key(rest[k]) {
                            ErrorView::DuplicateTensorName {
                                tensor: rest[k],
                                first_path: c.shards[c.tensors[rest[k]].shard_id as int].path,
                                second_path: c.shards[shard_id as int].path,
                            }
                        } else {
                            ErrorView::TensorMissingFromShard {
                                index_path,
                                shard_path: c.shards[shard_id as int].path,
                                tensor: rest[k],
                            }
                        }
                    };
                assert(rest[k] == names[k]);
                assert forall|i: int| 0 <= i < k implies found.contains_key(#[trigger] names[i])
                    && !c.tensors.contains_key(names[i]) by {
                    assert(rest[i] == names[i]);
                }
                assert(first_fault(c, found, names, k));
            },
            Ok(before) => {
                let name = names.last();
                assert(names[last] == name);
                assert forall|i: int| 0 <= i < last implies found.contains_key(#[trigger] names[i])
                    && !c.tensors.contains_key(names[i]) by {
                    assert(rest[i] == names[i]);
                }
                assert(!rest.contains(name)) by {
                    if rest.contains(name) {
                        let j = choose|j: int| 0 <= j < rest.len() && rest[j] == name;
                        name_map::lemma_ascending_distinct(names, j, last);
                    }
                }
                assert(before.tensors.dom().contains(name) <==> c.tensors.dom().contains(name)) by {
                    assert(!rest.to_set().contains(name));
                }
                if found.contains_key(name) && !c.tensors.contains_key(name) {
                    assert(header::fits(
                        found[name],
                        c.shards[shard_id as int].bytes.len()
                            - c.shards[shard_id as int].data_start,
                    ));
                    let after = catalog::with_tensors(
                        c,
                        shard_id,
                        found,
                        names,
                        index_path,
                    )->Ok_0;
                    assert forall|i: int|
                        0 <= i < names.len() implies found.contains_key(#[trigger] names[i])
                        && !c.tensors.contains_key(names[i]) && after.tensors.contains_key(
                        names[i],
                    ) by {
                        assert(names.contains(names[i]));
                        assert(after.tensors.dom().contains(names[i])) by {
                            assert(names.to_set().contains(names[i]));
                        }
                    }
                    assert forall|x: Seq<char>| #[trigger]
                        after.tensors.contains_key(x) implies c.tensors.contains_key(x)
                        || names.contains(x) by {
                        assert(after.tensors.dom().contains(x));
                    }
                } else {
                    assert(first_fault(c, found, names, last));
                    if c.tensors.contains_key(name) {
                        assert(before.tensors[name] == c.tensors[name]) by {
                            assert(c.tensors.dom().contains(name));
                            assert(before.tensors.dom().contains(name));
                        }
                    }
                }
            },
        }
    }
}

/// A shard that has a tensor which the index does not list for it is refused, once
/// all listed ones were found; reported is the one whose name comes first.
pub proof fn lemma_unlisted_tensor_reported(
    c: CatalogView,
    s: ShardView,
    found: Map<Seq<char>, InfoView>,
    listed: Seq<Seq<char>>,
    index_path: Seq<u8>,
)
    requires
        found.dom().finite(),
        name_map::ascending(listed),
        catalog::with_tensors(
            catalog::with_shard(c, s),
            c.shards.len() as usize,
            found,
            listed,
            index_path,
        ) is Ok,
    ensures
        match catalog::with_listed_shard(c, s, found, listed.to_set(), index_path) {
            Ok(after) => {
                &&& forall|name: Seq<char>| #[trigger]
                    found.contains_key(name) ==> listed.contains(name)
                &&& Ok::<_, ErrorView>(after) == catalog::with_tensors(
                    catalog::with_shard(c, s),
                    c.shards.len() as usize,
                    found,
                    listed,
                    index_path,
                )
            },
            Err(e) => exists|name: Seq<char>|
                {
                    &&& #[trigger] found.contains_key(name)
                    &&& !listed.contains(name)
                    &&& e == ErrorView::TensorMissingFromIndex {
                        index_path,
                        shard_path: s.path,
                        tensor: name,
                    }
                    &&& forall|x: Seq<char>| #[trigger]
                        found.contains_key(x) && !listed.contains(x) && x != name
                            ==> text::text_before(name, x)
                },
        },
{
    let extra = catalog::unlisted(found, listed.to_set());
    let order = name_map::ordered(extra);
    name_map::lemma_ordered(listed, listed.to_set());
    name_map::lemma_ordered_exists(extra);
    assert forall|name: Seq<char>| #[trigger] extra.contains(name) <==> found.contains_key(name)
        && !listed.contains(name) by {}
    if order.len() > 0 {
        let name = order[0];
        assert(order.contains(name));
        assert(extra.contains(name));
        assert(found.contains_key(name));
        assert forall|x: Seq<char>| #[trigger]
            found.contains_key(x) && !listed.contains(x) && x != name implies text::text_before(
            name,
            x,
        ) by {
            assert(extra.contains(x));
            assert(order.contains(x));
            let j = choose|j: int| 0 <= j < order.len() && order[j] == x;
            assert(text::text_before(order[0], order[j]));
        }
    } else {
        assert forall|name: Seq<char>| #[trigger] found.contains_key(name) implies listed.contains(
            name,
        ) by {
            if !listed.contains(name) {
                assert(extra.contains(name));
                assert(order.contains(name));
            }
        }
    }
}

/// What an opened catalog has of some files: a shard for each, in their order, with
/// the file's path and bytes, and the tensors that their headers declare.
pub open spec fn holds_files(w: World, c: CatalogView, files: Seq<Seq<u8>>) -> bool {
    &&& c.shards.len() == files.len()
    &&& forall|i: int|
        0 <= i < files.len() ==> (#[trigger] c.shards[i]).path == files[i] && c.shards[i].bytes == (
        w.content)(files[i])
    &&& forall|name: Seq<char>| #[trigger]
        c.tensors.contains_key(name) <==> exists|i: int|
            0 <= i < files.len() && header::tensors_of(
                (w.content)(#[trigger] files[i]),
            ).contains_key(name)
}

#[verifier::spinoff_prover]
#[verifier::rlimit(40)]
proof fn lemma_files_names(
    w: World,
    c: CatalogView,
    files: Seq<Seq<u8>>,
    max_header_bytes: u64,
    from: int,
)
    requires
        0 <= from <= files.len(),
        c.wf(),
        c.shards.len() + files.len() - from <= usize::MAX,
        forall|i: int|
            0 <= i < files.len() ==> header::tensors_of(
                (w.content)(#[trigger] files[i]),
            ).dom().finite(),
    ensures
        with_files(w, c, files, max_header_bytes, from) matches Ok(after) ==> forall|
            name: Seq<char>,
        | #[trigger]
            after.tensors.contains_key(name) <==> c.tensors.contains_key(name) || exists|i: int|
                from <= i < files.len() && header::tensors_of(
                    (w.content)(#[trigger] files[i]),
                ).contains_key(name),
    decreases files.len() - from,
{
    if from < files.len() {
        let file = files[from];
        let bytes = (w.content)(file);
        let found = header::tensors_of(bytes);
        match opening::with_file(c, file, bytes, max_header_bytes) {
            Err(_) => {},
            Ok(next) => {
                let s = shard::opened(file, bytes);
                let names = name_map::ordered(found.dom());
                name_map::lemma_ordered_exists(found.dom());
                catalog::lemma_with_shard_wf(c, s);
                catalog::lemma_with_tensors_keeps(
                    catalog::with_shard(c, s),
                    c.shards.len() as usize,
                    found,
                    names,
                    Seq::empty(),
                );
                assert forall|name: Seq<char>| #[trigger]
                    next.tensors.contains_key(name) <==> c.tensors.contains_key(name)
                        || found.contains_key(name) by {
                    assert(next.tensors.dom().contains(name) <==> c.tensors.dom().contains(name)
                        || names.to_set().contains(name));
                    assert(names.contains(name) <==> found.dom().contains(name));
                }
                lemma_files_names(w, next, files, max_header_bytes, from + 1);
                match with_files(w, next, files, max_header_bytes, from + 1) {
                    Err(_) => {},
                    Ok(after) => {
                        assert forall|name: Seq<char>| #[trigger]
                            after.tensors.contains_key(name) <==> c.tensors.contains_key(name)
                                || exists|i: int|
                                from <= i < files.len() && header::tensors_of(
                                    (w.content)(#[trigger] files[i]),
                                ).contains_key(name) by {
                            assert(after.tensors.contains_key(name)
                                <==> next.tensors.contains_key(name) || exists|i: int|
                                from + 1 <= i < files.len() && header::tensors_of(
                                    (w.content)(#[trigger] files[i]),
                                ).contains_key(name));
                            if found.contains_key(name) {
                                assert(header::tensors_of((w.content)(files[from])).contains_key(
                                    name,
                                ));
                            }
                        }
                    },
                }
            },
        }
    }
}

/// What opening files comes to in the end, where it succeeds: a model of the path
/// that was asked for, with exactly the shards and tensors of these files.
pub proof fn lemma_files_opened(
    w: World,
    root: Seq<u8>,
    options: OptionsView,
    files: Seq<Seq<u8>>,
    n: nat,
)
    requires
        n >= step_bound(w, root, options),
        files.len() <= usize::MAX,
        forall|i: int|
            0 <= i < files.len() ==> header::tensors_of(
                (w.content)(#[trigger] files[i]),
            ).dom().finite(),
        match discovery::resolved_input(
            root,
            (w.listing)(root),
            options.allow_implicit_multi_shard,
        ) {
            Ok(InputView::SingleFile(file)) => files == seq![file],
            Ok(InputView::ImplicitShards(all)) => files == all,
            _ => false,
        },
    ensures
        driven(w, opening::started(root, options), n) matches Ok(state) ==> {
            &&& state matches OpeningView::Id { progress }
            &&& progress.root == root
            &&& progress.options == options
            &&& holds_files(w, progress.catalog, files)
        },
{
    let empty = CatalogView { shards: Seq::empty(), tensors: Map::empty() };
    lemma_opening_finishes(w, root, options, n);
    lemma_file_shards_in_order(w, files, options.max_header_bytes);
    lemma_files_names(w, empty, files, options.max_header_bytes, 0);
    match with_files(w, empty, files, options.max_header_bytes, 0) {
        Err(_) => {},
        Ok(c) => {
            assert forall|i: int| 0 <= i < files.len() implies (#[trigger] c.shards[i]).path
                == files[i] && c.shards[i].bytes == (w.content)(files[i]) by {
                assert(c.shards[i] == shard::opened(files[i], (w.content)(files[i])));
            }
        },
    }
}

/// A file that can be opened: its header is accepted, lies within the file, and
/// declares tensors that fit behind it.
pub open spec fn openable(file: Seq<u8>, bytes: Seq<u8>, max_header_bytes: u64) -> bool {
    &&& shard::open_error(file, bytes, max_header_bytes) is None
    &&& 8 + header::declared_len(bytes) <= bytes.len() <= u64::MAX
    &&& header::tensors_of(bytes).dom().finite()
    &&& forall|name: Seq<char>| #[trigger]
        header::tensors_of(bytes).contains_key(name) ==> header::fits(
            header::tensors_of(bytes)[name],
            bytes.len() - 8 - header::declared_len(bytes),
        )
}

#[verifier::spinoff_prover]
#[verifier::rlimit(40)]
proof fn lemma_valid_files_added(
    w: World,
    c: CatalogView,
    files: Seq<Seq<u8>>,
    max_header_bytes: u64,
    from: int,
)
    requires
        0 <= from <= files.len(),
        c.wf(),
        c.shards.len() + files.len() - from <= usize::MAX,
        forall|i: int|
            0 <= i < files.len() ==> openable(
                #[trigger] files[i],
                (w.content)(files[i]),
                max_header_bytes,
            ),
        forall|i: int, name: Seq<char>|
            #![trigger header::tensors_of((w.content)(files[i])).contains_key(name)]
            from <= i < files.len() && header::tensors_of((w.content)(files[i])).contains_key(name)
                ==> !c.tensors.contains_key(name),
        forall|i: int, j: int, name: Seq<char>|
            #![trigger header::tensors_of((w.content)(files[i])).contains_key(name), files[j]]
            from <= i < j < files.len() && header::tensors_of(
                (w.content)(files[i]),
            ).contains_key(name) ==> !header::tensors_of((w.content)(files[j])).contains_key(name),
    ensures
        with_files(w, c, files, max_header_bytes, from) is Ok,
    decreases files.len() - from,
{
    if from < files.len() {
        let file = files[from];
        let bytes = (w.content)(file);
        let found = header::tensors_of(bytes);
        assert(openable(files[from], (w.content)(files[from]), max_header_bytes));
        assert forall|name: Seq<char>| #[trigger] found.contains_key(name) implies header::fits(
            found[name],
            bytes.len() - 8 - header::declared_len(bytes),
        ) && !c.tensors.contains_key(name) by {
            assert(header::tensors_of((w.content)(files[from])).contains_key(name));
        }
        lemma_valid_file_added(c, file, bytes, max_header_bytes);
        let next = opening::with_file(c, file, bytes, max_header_bytes)->Ok_0;
        let s = shard::opened(file, bytes);
        catalog::lemma_with_shard_wf(c, s);
        catalog::lemma_with_tensors_keeps(
            catalog::with_shard(c, s),
            c.shards.len() as usize,
            found,
            name_map::ordered(found.dom()),
            Seq::empty(),
        );
        assert forall|i: int, name: Seq<char>|
            #![trigger header::tensors_of((w.content)(files[i])).contains_key(name)]
            from + 1 <= i < files.len() && header::tensors_of(
                (w.content)(files[i]),
            ).contains_key(name) implies !next.tensors.contains_key(name) by {
            if next.tensors.contains_key(name) {
                assert(next.tensors.dom().contains(name));
                if found.dom().contains(name) {
                    assert(header::tensors_of((w.content)(files[from])).contains_key(name));
                    assert(files[i] == files[i]);
                }
            }
        }
        lemma_valid_files_added(w, next, files, max_header_bytes, from + 1);
    }
}

/// Files that can each be opened and of which no two declare a tensor of the same
/// name make a model.
pub proof fn lemma_valid_files_open(
    w: World,
    root: Seq<u8>,
    options: OptionsView,
    files: Seq<Seq<u8>>,
    n: nat,
)
    requires
        n >= step_bound(w, root, options),
        files.len() <= usize::MAX,
        match discovery::resolved_input(
            root,
            (w.listing)(root),
            options.allow_implicit_multi_shard,
        ) {
            Ok(InputView::SingleFile(file)) => files == seq![file],
            Ok(InputView::ImplicitShards(all)) => files == all,
            _ => false,
        },
        forall|i: int|
            0 <= i < files.len() ==> openable(
                #[trigger] files[i],
                (w.content)(files[i]),
                options.max_header_bytes,
            ),
        forall|i: int, j: int, name: Seq<char>|
            #![trigger header::tensors_of((w.content)(files[i])).contains_key(name), files[j]]
            0 <= i < j < files.len() && header::tensors_of((w.content)(files[i])).contains_key(name)
                ==> !header::tensors_of((w.content)(files[j])).contains_key(name),
    ensures
        driven(w, opening::started(root, options), n) is Ok,
{
    let empty = CatalogView { shards: Seq::empty(), tensors: Map::empty() };
    lemma_opening_finishes(w, root, options, n);
    lemma_valid_files_added(w, empty, files, options.max_header_bytes, 0);
}

/// A path that stands for nothing is refused with the reason, at the first step.
pub proof fn lemma_unresolved_path_refused(
    w: World,
    root: Seq<u8>,
    options: OptionsView,
    n: nat,
)
    requires
        n >= 1,
        discovery::resolved_input(
            root,
            (w.listing)(root),
            options.allow_implicit_multi_shard,
        ) is Err,
    ensures
        driven(w, opening::started(root, options), n) == Err::<OpeningView, ErrorView>(
            discovery::resolved_input(
                root,
                (w.listing)(root),
                options.allow_implicit_multi_shard,
            )->Err_0,
        ),
{
}

/// What an opened catalog has of an index: exactly the tensors that the index lists,
/// each in the file that the path listed for it leads to; and no such path is absolute
/// or climbs, and no such file lies outside the boundary.
pub open spec fn holds_index(
    w: World,
    c: CatalogView,
    index_path: Seq<u8>,
    index: Map<Seq<char>, Seq<char>>,
) -> bool {
    &&& c.tensors.dom() == index.dom()
    &&& forall|name: Seq<char>| #[trigger]
        index.contains_key(name) ==> {
            let (boundary, file) = (w.resolve)(index_path, index[name]);
            let id = c.tensors[name].shard_id;
            &&& id < c.shards.len()
            &&& c.shards[id as int].path == file
            &&& c.shards[id as int].bytes == (w.content)(file)
            &&& header::tensors_of((w.content)(file)).contains_key(name)
            &&& path::lies_within(file, boundary)
            &&& !(index[name].len() > 0 && index[name][0] == '/')
            &&& !text::split(index[name], '/').contains(seq!['.', '.'])
        }
}

#[verifier::spinoff_prover]
#[verifier::rlimit(40)]
proof fn lemma_plan_places(
    w: World,
    c: CatalogView,
    index_path: Seq<u8>,
    plan: Seq<(Seq<char>, Seq<Seq<char>>)>,
    max_header_bytes: u64,
    from: int,
)
    requires
        0 <= from <= plan.len(),
        c.wf(),
        c.shards.len() == from,
        plan.len() <= usize::MAX,
        forall|i: int| 0 <= i < plan.len() ==> name_map::ascending((#[trigger] plan[i]).1),
    ensures
        with_plan(w, c, index_path, plan, max_header_bytes, from) matches Ok(after) ==> {
            &&& c.tensors.submap_of(after.tensors)
            &&& forall|i: int, name: Seq<char>|
                from <= i < plan.len() && #[trigger] plan[i].1.contains(name)
                    ==> after.tensors.contains_key(name) && after.tensors[name].shard_id == i
                    && header::tensors_of(
                    (w.content)((w.resolve)(index_path, plan[i].0).1),
                ).contains_key(name)
        },
    decreases plan.len() - from,
{
    if from < plan.len() {
        let (raw, names) = plan[from];
        let (boundary, shard) = (w.resolve)(index_path, raw);
        match discovery::resolved_shard(index_path, raw, boundary, shard) {
            Err(_) => {},
            Ok(file) => match opening::with_planned_file(
                c,
                file,
                (w.content)(file),
                max_header_bytes,
                names,
                index_path,
            ) {
                Err(_) => {},
                Ok(next) => {
                    let s = shard::opened(file, (w.content)(file));
                    let found = header::tensors_of((w.content)(file));
                    assert(name_map::ascending(plan[from].1));
                    name_map::lemma_ordered(names, names.to_set());
                    catalog::lemma_with_shard_wf(c, s);
                    catalog::lemma_with_tensors_keeps(
                        catalog::with_shard(c, s),
                        c.shards.len() as usize,
                        found,
                        names,
                        index_path,
                    );
                    lemma_plan_places(w, next, index_path, plan, max_header_bytes, from + 1);
                    match with_plan(w, next, index_path, plan, max_header_bytes, from + 1) {
                        Err(_) => {},
                        Ok(after) => {
                            assert forall|i: int, name: Seq<char>|
                                from <= i < plan.len() && #[trigger] plan[i].1.contains(
                                    name,
                                ) implies after.tensors.contains_key(name)
                                && after.tensors[name].shard_id == i && header::tensors_of(
                                (w.content)((w.resolve)(index_path, plan[i].0).1),
                            ).contains_key(name) by {
                                if i == from {
                                    assert(names.contains(name));
                                    assert(names.to_set().contains(name));
                                    assert(next.tensors.dom().contains(name));
                                    assert(after.tensors.dom().contains(name));
                                    assert(after.tensors[name] == next.tensors[name]);
                                }
                            }
                            assert forall|name: Seq<char>| #[trigger]
                                c.tensors.dom().contains(name) implies after.tensors.dom().contains(
                                name,
                            ) && after.tensors[name] == c.tensors[name] by {
                                assert(next.tensors.dom().contains(name));
                                assert(after.tensors.dom().contains(name));
                            }
                            assert(c.tensors.submap_of(after.tensors));
                        },
                    }
                },
            },
        }
    }
}

/// What opening an index comes to in the end, where it succeeds: a model of the path
/// that was asked for, with exactly what the index lists.
#[verifier::spinoff_prover]
#[verifier::rlimit(40)]
pub proof fn lemma_index_opened(
    w: World,
    root: Seq<u8>,
    options: OptionsView,
    index_path: Seq<u8>,
    n: nat,
)
    requires
        n >= step_bound(w, root, options),
        (w.index)(index_path).dom().finite(),
        discovery::planned((w.index)(index_path)).len() <= usize::MAX,
        discovery::resolved_input(root, (w.listing)(root), options.allow_implicit_multi_shard)
            == Ok::<_, ErrorView>(InputView::Index(index_path)),
    ensures
        driven(w, opening::started(root, options), n) matches Ok(state) ==> {
            &&& state matches OpeningView::Id { progress }
            &&& progress.root == root
            &&& progress.options == options
            &&& holds_index(w, progress.catalog, index_path, (w.index)(index_path))
        },
{
    let empty = CatalogView { shards: Seq::empty(), tensors: Map::empty() };
    let index = (w.index)(index_path);
    let plan = discovery::planned(index);
    let max = options.max_header_bytes;
    lemma_opening_finishes(w, root, options, n);
    lemma_index_determines_tensors(w, index_path, max);
    lemma_index_shards_contained(w, index_path, max);
    lemma_plan_follows_index(index);
    assert forall|i: int| 0 <= i < plan.len() implies name_map::ascending(
        (#[trigger] plan[i]).1,
    ) by {
        discovery::lemma_plan_lists_names(index, i);
    }
    lemma_plan_places(w, empty, index_path, plan, max, 0);
    match with_plan(w, empty, index_path, plan, max, 0) {
        Err(_) => {},
        Ok(c) => {
            assert forall|name: Seq<char>| #[trigger] index.contains_key(name) implies {
                let (boundary, file) = (w.resolve)(index_path, index[name]);
                let id = c.tensors[name].shard_id;
                &&& id < c.shards.len()
                &&& c.shards[id as int].path == file
                &&& c.shards[id as int].bytes == (w.content)(file)
                &&& header::tensors_of((w.content)(file)).contains_key(name)
                &&& path::lies_within(file, boundary)
                &&& !(index[name].len() > 0 && index[name][0] == '/')
                &&& !text::split(index[name], '/').contains(seq!['.', '.'])
            } by {
                let i = choose|i: int| 0 <= i < plan.len() && (#[trigger] plan[i]).0 == index[name];
                assert(plan[i].1.contains(name));
                let (boundary, file) = (w.resolve)(index_path, plan[i].0);
                assert(c.shards[i] == shard::opened(file, (w.content)(file)));
                assert(discovery::shard_name_fault(plan[i].0) is None);
            }
        },
    }
}

#[verifier::spinoff_prover]
#[verifier::rlimit(40)]
proof fn lemma_valid_plan_added(
    w: World,
    c: CatalogView,
    index_path: Seq<u8>,
    index: Map<Seq<char>, Seq<char>>,
    max_header_bytes: u64,
    from: int,
)
    requires
        index.dom().finite(),
        0 <= from <= discovery::planned(index).len(),
        c.wf(),
        c.shards.len() == from,
        discovery::planned(index).len() <= usize::MAX,
        forall|raw: Seq<char>| #[trigger]
            index.values().contains(raw) ==> shard_opens(w, index_path, index, raw, max_header_bytes),
        forall|i: int, name: Seq<char>|
            from <= i < discovery::planned(index).len() && #[trigger] discovery::planned(
                index,
            )[i].1.contains(name) ==> !c.tensors.contains_key(name),
    ensures
        with_plan(w, c, index_path, discovery::planned(index), max_header_bytes, from) is Ok,
    decreases discovery::planned(index).len() - from,
{
    let plan = discovery::planned(index);
    if from < plan.len() {
        let (raw, names) = plan[from];
        let (boundary, file) = (w.resolve)(index_path, raw);
        let bytes = (w.content)(file);
        let found = header::tensors_of(bytes);
        lemma_plan_follows_index(index);
        vstd::map_lib::lemma_values_finite(index);
        name_map::lemma_ordered_exists(index.values());
        let raws = name_map::ordered(index.values());
        assert(raws.contains(raws[from]));
        assert(index.values().contains(raw));
        assert(shard_opens(w, index_path, index, raw, max_header_bytes));
        discovery::lemma_plan_lists_names(index, from);
        assert(names.to_set() =~= found.dom()) by {
            assert forall|name: Seq<char>| names.to_set().contains(name) <==> found.dom().contains(
                name,
            ) by {
                assert(plan[from].1.contains(name) <==> (index.contains_key(name) && index[name]
                    == raw));
                assert(found.contains_key(name) <==> (index.contains_key(name) && index[name]
                    == raw));
            }
        }
        assert forall|name: Seq<char>| #[trigger] found.contains_key(name) implies header::fits(
            found[name],
            bytes.len() - 8 - header::declared_len(bytes),
        ) && !c.tensors.contains_key(name) by {
            assert(names.to_set().contains(name));
            assert(plan[from].1.contains(name));
        }
        lemma_valid_shard_added(c, file, bytes, max_header_bytes, names, index_path);
        let next = opening::with_planned_file(
            c,
            file,
            bytes,
            max_header_bytes,
            names,
            index_path,
        )->Ok_0;
        let s = shard::opened(file, bytes);
        name_map::lemma_ordered(names, names.to_set());
        catalog::lemma_with_shard_wf(c, s);
        catalog::lemma_with_tensors_keeps(
            catalog::with_shard(c, s),
            c.shards.len() as usize,
            found,
            names,
            index_path,
        );
        assert forall|i: int, name: Seq<char>|
            from + 1 <= i < plan.len() && #[trigger] plan[i].1.contains(
                name,
            ) implies !next.tensors.contains_key(name) by {
            if next.tensors.contains_key(name) {
                assert(next.tensors.dom().contains(name));
                if found.dom().contains(name) {
                    assert(found.contains_key(name));
                    assert(index[name] == raw && index[name] == plan[i].0);
                    assert(text::text_before(plan[from].0, plan[i].0));
                    text::lemma_precedes_irreflexive(text::char_codes(raw));
                }
            }
        }
        lemma_valid_plan_added(w, next, index_path, index, max_header_bytes, from + 1);
    }
}

/// A path of an index is sound: it is relative, does not climb and leads into the
/// boundary, to a file that can be opened and that declares exactly the tensors which
/// the index lists for the path.
pub open spec fn shard_opens(
    w: World,
    index_path: Seq<u8>,
    index: Map<Seq<char>, Seq<char>>,
    raw: Seq<char>,
    max_header_bytes: u64,
) -> bool {
    let (boundary, file) = (w.resolve)(index_path, raw);
    &&& !(raw.len() > 0 && raw[0] == '/')
    &&& !text::split(raw, '/').contains(seq!['.', '.'])
    &&& path::lies_within(file, boundary)
    &&& openable(file, (w.content)(file), max_header_bytes)
    &&& forall|name: Seq<char>| #[trigger]
        header::tensors_of((w.content)(file)).contains_key(name) <==> (index.contains_key(name)
            && index[name] == raw)
}

/// An index all of whose paths are sound makes a model.
pub proof fn lemma_valid_index_opens(
    w: World,
    root: Seq<u8>,
    options: OptionsView,
    index_path: Seq<u8>,
    n: nat,
)
    requires
        n >= step_bound(w, root, options),
        (w.index)(index_path).dom().finite(),
        discovery::planned((w.index)(index_path)).len() <= usize::MAX,
        discovery::resolved_input(root, (w.listing)(root), options.allow_implicit_multi_shard)
            == Ok::<_, ErrorView>(InputView::Index(index_path)),
        forall|raw: Seq<char>| #[trigger]
            (w.index)(index_path).values().contains(raw) ==> shard_opens(
                w,
                index_path,
                (w.index)(index_path),
                raw,
                options.max_header_bytes,
            ),
    ensures
        driven(w, opening::started(root, options), n) is Ok,
{
    let empty = CatalogView { shards: Seq::empty(), tensors: Map::empty() };
    lemma_opening_finishes(w, root, options, n);
    lemma_valid_plan_added(
        w,
        empty,
        index_path,
        (w.index)(index_path),
        options.max_header_bytes,
        0,
    );
}

/// A range that a header gives counts from where the data of the shard begins; it is
/// refused where that leads beyond what a file offset can hold. The descriptor of a
/// tensor has that range, with its type and shape, and the number of its shard.
pub proof fn lemma_range_counts_from_data(
    s: ShardView,
    shard_id: usize,
    name: Seq<char>,
    info: InfoView,
)
    requires
        info.data_offsets.0 <= info.data_offsets.1,
    ensures
        ({
            let start = s.data_start + info.data_offsets.0;
            let end = s.data_start + info.data_offsets.1;
            let refused = ErrorView::OffsetOverflow { path: s.path, tensor: name };
            &&& match shard::absolute(
                s,
                name,
                info.data_offsets.0 as u64,
                info.data_offsets.1 as u64,
            ) {
                Ok(r) => r == (start as u64, end as u64) && end <= u64::MAX,
                Err(e) => e == refused && end > u64::MAX,
            }
            &&& match catalog::described(s, shard_id, name, info) {
                Ok(d) => {
                    &&& end <= u64::MAX
                    &&& d.name == name
                    &&& d.dtype == info.dtype
                    &&& d.shape == info.shape
                    &&& d.shard_id == shard_id
                    &&& d.file_offset == start
                    &&& d.byte_len == info.data_offsets.1 - info.data_offsets.0
                },
                Err(e) => e == refused && end > u64::MAX,
            }
        }),
{
}

} // verus!
