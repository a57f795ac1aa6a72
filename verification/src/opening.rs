//! Opening a model, one outside step after the other. Each step says what it
//! needs to know next - what a path is, what an index says, where a shard really
//! lies, what bytes a file has, which id the model gets - and takes the answer.

use vstd::prelude::*;

use crate::catalog;
use crate::catalog::{Catalog, CatalogView};
use crate::discovery;
use crate::discovery::{
    check_shard_name, resolve_input, resolve_shard_path, shard_boundary, IndexJson, Input,
    InputView, Listing, ListingView, ShardPlan,
};
use crate::error::{ErrorView, LoaderError};
use crate::header;
use crate::header::InfoView;
use crate::model::{Model, ModelView, OpenOptions, OptionsView};
use crate::name_map;
use crate::path;
use crate::path::FilePath;
use crate::shard;
use crate::shard::{Shard, ShardView};

verus! {

/// What has been gathered of a model so far.
#[derive(Debug)]
struct Progress<'a> {
    root: FilePath,
    options: OpenOptions,
    catalog: Catalog<'a>,
}

/// What has been gathered of a model so far.
#[verifier::ext_equal]
pub struct ProgressView {
    pub root: Seq<u8>,
    pub options: OptionsView,
    pub catalog: CatalogView,
}

impl ProgressView {
    pub open spec fn wf(self) -> bool {
        self.catalog.wf() && self.catalog.in_bounds() && self.catalog.sized()
            && self.catalog.faithful()
    }
}

impl<'a> View for Progress<'a> {
    type V = ProgressView;

    closed spec fn view(&self) -> ProgressView {
        ProgressView { root: self.root@, options: self.options@, catalog: self.catalog@ }
    }
}

/// Needs to know what the path to open is.
#[derive(Debug)]
pub struct NeedsListing<'a> {
    progress: Progress<'a>,
}

/// Needs to know what an index says.
#[derive(Debug)]
pub struct NeedsIndex<'a> {
    progress: Progress<'a>,
    index_path: FilePath,
}

/// Needs to know where a shard of an index really lies.
#[derive(Debug)]
pub struct NeedsShardPath<'a> {
    progress: Progress<'a>,
    index_path: FilePath,
    plan: ShardPlan,
    next: usize,
}

/// Needs the bytes of a shard file.
#[derive(Debug)]
pub struct NeedsBytes<'a> {
    progress: Progress<'a>,
    file: FilePath,
    rest: Remaining,
}

/// What is to be opened behind the file at hand.
#[derive(Debug)]
enum Remaining {
    /// The shards of an index. The file at hand is number `next` of the plan.
    Planned { index_path: FilePath, plan: ShardPlan, next: usize },
    /// Files that each belong to the model as a whole. The file at hand is
    /// number `next` of them.
    Files { files: Vec<FilePath>, next: usize },
}

/// Needs the id that the model gets; everything else is there.
#[derive(Debug)]
pub struct NeedsId<'a> {
    progress: Progress<'a>,
}

/// The state of opening a model, by what is needed next.
#[derive(Debug)]
pub enum Opening<'a> {
    Listing(NeedsListing<'a>),
    Index(NeedsIndex<'a>),
    ShardPath(NeedsShardPath<'a>),
    Bytes(NeedsBytes<'a>),
    Id(NeedsId<'a>),
}

/// The state of opening a model.
#[verifier::ext_equal]
pub enum OpeningView {
    Listing { progress: ProgressView },
    Index { progress: ProgressView, index_path: Seq<u8> },
    ShardPath {
        progress: ProgressView,
        index_path: Seq<u8>,
        plan: Seq<(Seq<char>, Seq<Seq<char>>)>,
        next: int,
    },
    PlannedBytes {
        progress: ProgressView,
        file: Seq<u8>,
        index_path: Seq<u8>,
        plan: Seq<(Seq<char>, Seq<Seq<char>>)>,
        next: int,
    },
    FileBytes { progress: ProgressView, files: Seq<Seq<u8>>, next: int },
    Id { progress: ProgressView },
}

/// Nothing gathered yet.
pub open spec fn started(root: Seq<u8>, options: OptionsView) -> OpeningView {
    OpeningView::Listing {
        progress: ProgressView {
            root,
            options,
            catalog: CatalogView { shards: Seq::empty(), tensors: Map::empty() },
        },
    }
}

/// On to file number `next`, or done.
pub open spec fn file_step(progress: ProgressView, files: Seq<Seq<u8>>, next: int) -> OpeningView {
    if next < files.len() {
        OpeningView::FileBytes { progress, files, next }
    } else {
        OpeningView::Id { progress }
    }
}

/// On to shard number `next` of an index, or done. A path that is rejected as it
/// is written is never looked up.
pub open spec fn plan_step(
    progress: ProgressView,
    index_path: Seq<u8>,
    plan: Seq<(Seq<char>, Seq<Seq<char>>)>,
    next: int,
) -> Result<OpeningView, ErrorView> {
    if next < plan.len() {
        match discovery::shard_name_fault(plan[next].0) {
            Some(reason) => Err(
                ErrorView::UnsafeShardPath { index_path, raw: plan[next].0, reason },
            ),
            None => Ok(OpeningView::ShardPath { progress, index_path, plan, next }),
        }
    } else {
        Ok(OpeningView::Id { progress })
    }
}

/// The step after it is known what the path to open is.
pub open spec fn after_listing(progress: ProgressView, listing: ListingView) -> Result<
    OpeningView,
    ErrorView,
> {
    match discovery::resolved_input(
        progress.root,
        listing,
        progress.options.allow_implicit_multi_shard,
    ) {
        Err(e) => Err(e),
        Ok(InputView::SingleFile(file)) => Ok(file_step(progress, seq![file], 0)),
        Ok(InputView::Index(index_path)) => Ok(OpeningView::Index { progress, index_path }),
        Ok(InputView::ImplicitShards(files)) => Ok(file_step(progress, files, 0)),
    }
}

/// The step after it is known where a shard of an index really lies.
pub open spec fn after_shard_path(
    progress: ProgressView,
    index_path: Seq<u8>,
    plan: Seq<(Seq<char>, Seq<Seq<char>>)>,
    next: int,
    boundary: Seq<u8>,
    shard: Seq<u8>,
) -> Result<OpeningView, ErrorView> {
    match discovery::resolved_shard(index_path, plan[next].0, boundary, shard) {
        Err(e) => Err(e),
        Ok(file) => Ok(
            OpeningView::PlannedBytes { progress, file, index_path, plan, next },
        ),
    }
}

pub open spec fn with_catalog(progress: ProgressView, catalog: CatalogView) -> ProgressView {
    ProgressView { root: progress.root, options: progress.options, catalog }
}

/// A catalog with a whole file added to it.
pub open spec fn with_file(
    c: CatalogView,
    file: Seq<u8>,
    bytes: Seq<u8>,
    max_header_bytes: u64,
) -> Result<CatalogView, ErrorView> {
    match shard::open_error(file, bytes, max_header_bytes) {
        Some(e) => Err(e),
        None => catalog::with_whole_shard(
            c,
            shard::opened(file, bytes),
            header::tensors_of(bytes),
        ),
    }
}

/// A catalog with a shard of an index added to it.
pub open spec fn with_planned_file(
    c: CatalogView,
    file: Seq<u8>,
    bytes: Seq<u8>,
    max_header_bytes: u64,
    names: Seq<Seq<char>>,
    index_path: Seq<u8>,
) -> Result<CatalogView, ErrorView> {
    match shard::open_error(file, bytes, max_header_bytes) {
        Some(e) => Err(e),
        None => catalog::with_listed_shard(
            c,
            shard::opened(file, bytes),
            header::tensors_of(bytes),
            names.to_set(),
            index_path,
        ),
    }
}

/// The step after the bytes of a file are at hand.
pub open spec fn after_bytes(state: OpeningView, bytes: Seq<u8>) -> Result<
    OpeningView,
    ErrorView,
> {
    match state {
        OpeningView::FileBytes { progress, files, next } => match with_file(
            progress.catalog,
            files[next],
            bytes,
            progress.options.max_header_bytes,
        ) {
            Err(e) => Err(e),
            Ok(c) => Ok(file_step(with_catalog(progress, c), files, next + 1)),
        },
        OpeningView::PlannedBytes { progress, file, index_path, plan, next } => {
            match with_planned_file(
                progress.catalog,
                file,
                bytes,
                progress.options.max_header_bytes,
                plan[next].1,
                index_path,
            ) {
                Err(e) => Err(e),
                Ok(c) => plan_step(with_catalog(progress, c), index_path, plan, next + 1),
            }
        },
        other => Ok(other),
    }
}

impl<'a> NeedsListing<'a> {
    #[verifier::type_invariant]
    spec fn inv(&self) -> bool {
        self.progress@.wf()
    }
}

impl<'a> View for NeedsListing<'a> {
    type V = OpeningView;

    closed spec fn view(&self) -> OpeningView {
        OpeningView::Listing { progress: self.progress@ }
    }
}

impl<'a> NeedsIndex<'a> {
    #[verifier::type_invariant]
    spec fn inv(&self) -> bool {
        self.progress@.wf()
    }
}

impl<'a> View for NeedsIndex<'a> {
    type V = OpeningView;

    closed spec fn view(&self) -> OpeningView {
        OpeningView::Index { progress: self.progress@, index_path: self.index_path@ }
    }
}

impl<'a> NeedsShardPath<'a> {
    #[verifier::type_invariant]
    spec fn inv(&self) -> bool {
        self.progress@.wf() && self.next < self.plan@.len()
    }
}

impl<'a> View for NeedsShardPath<'a> {
    type V = OpeningView;

    closed spec fn view(&self) -> OpeningView {
        OpeningView::ShardPath {
            progress: self.progress@,
            index_path: self.index_path@,
            plan: self.plan@,
            next: self.next as int,
        }
    }
}

impl<'a> NeedsBytes<'a> {
    #[verifier::type_invariant]
    spec fn inv(&self) -> bool {
        &&& self.progress@.wf()
        &&& match self.rest {
            Remaining::Planned { plan, next, .. } => next < plan@.len(),
            Remaining::Files { files, next } => next < files@.len() && files@[next as int]@
                == self.file@,
        }
    }
}

impl<'a> View for NeedsBytes<'a> {
    type V = OpeningView;

    closed spec fn view(&self) -> OpeningView {
        match self.rest {
            Remaining::Planned { index_path, plan, next } => OpeningView::PlannedBytes {
                progress: self.progress@,
                file: self.file@,
                index_path: index_path@,
                plan: plan@,
                next: next as int,
            },
            Remaining::Files { files, next } => OpeningView::FileBytes {
                progress: self.progress@,
                files: path::path_views(files@),
                next: next as int,
            },
        }
    }
}

impl<'a> NeedsId<'a> {
    #[verifier::type_invariant]
    spec fn inv(&self) -> bool {
        self.progress@.wf()
    }
}

impl<'a> View for NeedsId<'a> {
    type V = OpeningView;

    closed spec fn view(&self) -> OpeningView {
        OpeningView::Id { progress: self.progress@ }
    }
}

impl<'a> View for Opening<'a> {
    type V = OpeningView;

    open spec fn view(&self) -> OpeningView {
        match self {
            Opening::Listing(s) => s@,
            Opening::Index(s) => s@,
            Opening::ShardPath(s) => s@,
            Opening::Bytes(s) => s@,
            Opening::Id(s) => s@,
        }
    }
}

/// Goes on to file number `next`.
fn next_file<'a>(progress: Progress<'a>, files: Vec<FilePath>, next: usize) -> (r: Opening<'a>)
    requires
        progress@.wf(),
    ensures
        r@ == file_step(progress@, path::path_views(files@), next as int),
{
    if next < files.len() {
        let file = files[next].clone();
        let s = NeedsBytes { progress, file, rest: Remaining::Files { files, next } };
        Opening::Bytes(s)
    } else {
        Opening::Id(NeedsId { progress })
    }
}

/// Goes on to shard number `next` of an index.
fn next_shard<'a>(
    progress: Progress<'a>,
    index_path: FilePath,
    plan: ShardPlan,
    next: usize,
) -> (r: Result<Opening<'a>, LoaderError>)
    requires
        progress@.wf(),
    ensures
        match r {
            Ok(s) => plan_step(progress@, index_path@, plan@, next as int) == Ok::<_, ErrorView>(
                s@,
            ),
            Err(e) => plan_step(progress@, index_path@, plan@, next as int) == Err::<
                OpeningView,
                _,
            >(e@),
        },
{
    if next < plan.len() {
        match check_shard_name(&index_path, plan.raw(next)) {
            Err(e) => Err(e),
            Ok(_) => Ok(Opening::ShardPath(NeedsShardPath { progress, index_path, plan, next })),
        }
    } else {
        Ok(Opening::Id(NeedsId { progress }))
    }
}

impl<'a> NeedsListing<'a> {
    /// The path to find out about.
    pub fn path(&self) -> (r: &FilePath)
        ensures
            self@ matches OpeningView::Listing { progress } && r@ == progress.root,
    {
        &self.progress.root
    }

    /// Goes on, given what the path is.
    pub fn listed(self, listing: &Listing) -> (r: Result<Opening<'a>, LoaderError>)
        ensures
            self@ matches OpeningView::Listing { progress } && match r {
                Ok(s) => after_listing(progress, listing@) == Ok::<_, ErrorView>(s@),
                Err(e) => after_listing(progress, listing@) == Err::<OpeningView, _>(e@),
            },
    {
        proof {
            use_type_invariant(&self);
        }
        let progress = self.progress;
        let allow = progress.options.allow_implicit_multi_shard;
        match resolve_input(&progress.root, listing, allow) {
            Err(e) => Err(e),
            Ok(Input::SingleFile(file)) => {
                let files = vec![file];
                assert(path::path_views(files@) =~= seq![file@]);
                Ok(next_file(progress, files, 0))
            },
            Ok(Input::Index(index_path)) => Ok(
                Opening::Index(NeedsIndex { progress, index_path }),
            ),
            Ok(Input::ImplicitShards(files)) => Ok(next_file(progress, files, 0)),
        }
    }
}

impl<'a> NeedsIndex<'a> {
    /// The index to read.
    pub fn path(&self) -> (r: &FilePath)
        ensures
            self@ matches OpeningView::Index { index_path, .. } && r@ == index_path,
    {
        &self.index_path
    }

    /// Goes on, given what the index says.
    pub fn parsed(self, index: &IndexJson) -> (r: Result<Opening<'a>, LoaderError>)
        ensures
            self@ matches OpeningView::Index { progress, index_path } && match r {
                Ok(s) => plan_step(progress, index_path, discovery::planned(index@), 0) == Ok::<
                    _,
                    ErrorView,
                >(s@),
                Err(e) => plan_step(progress, index_path, discovery::planned(index@), 0) == Err::<
                    OpeningView,
                    _,
                >(e@),
            },
    {
        proof {
            use_type_invariant(&self);
        }
        next_shard(self.progress, self.index_path, ShardPlan::new(index), 0)
    }
}

impl<'a> NeedsShardPath<'a> {
    /// The index that refers to the shard.
    pub fn index_path(&self) -> (r: &FilePath)
        ensures
            self@ matches OpeningView::ShardPath { index_path, .. } && r@ == index_path,
    {
        &self.index_path
    }

    /// The path of the shard as the index has it.
    pub fn raw(&self) -> (r: &str)
        ensures
            self@ matches OpeningView::ShardPath { plan, next, .. } && r@ == plan[next].0,
    {
        proof {
            use_type_invariant(self);
        }
        self.plan.raw(self.next)
    }

    /// The directory that the shard must not resolve out of.
    pub fn boundary(&self) -> (r: FilePath)
        ensures
            self@ matches OpeningView::ShardPath { progress, index_path, .. } && r@
                == discovery::boundary_of(
                path::directory_of(index_path),
                progress.options.trusted_root,
            ),
    {
        let root = self.index_path.directory();
        shard_boundary(&root, self.progress.options.trusted_root.as_ref())
    }

    /// The path of the shard, seen from the index.
    pub fn candidate(&self) -> (r: FilePath)
        ensures
            self@ matches OpeningView::ShardPath { index_path, plan, next, .. } && r@
                == path::joined(
                path::directory_of(index_path),
                vstd::utf8::encode_utf8(plan[next].0),
            ),
    {
        proof {
            use_type_invariant(self);
        }
        self.index_path.directory().join(self.plan.raw(self.next))
    }

    /// Goes on, given where the boundary and the shard really are.
    pub fn resolved(self, boundary: &FilePath, shard: &FilePath) -> (r: Result<
        Opening<'a>,
        LoaderError,
    >)
        ensures
            self@ matches OpeningView::ShardPath { progress, index_path, plan, next } && match r {
                Ok(s) => after_shard_path(progress, index_path, plan, next, boundary@, shard@)
                    == Ok::<_, ErrorView>(s@),
                Err(e) => after_shard_path(progress, index_path, plan, next, boundary@, shard@)
                    == Err::<OpeningView, _>(e@),
            },
    {
        proof {
            use_type_invariant(&self);
        }
        match resolve_shard_path(&self.index_path, self.plan.raw(self.next), boundary, shard) {
            Err(e) => Err(e),
            Ok(file) => {
                let rest = Remaining::Planned {
                    index_path: self.index_path,
                    plan: self.plan,
                    next: self.next,
                };
                Ok(Opening::Bytes(NeedsBytes { progress: self.progress, file, rest }))
            },
        }
    }
}

/// Adding a shard whose header describes its own data keeps every tensor within
/// its file and of the size that its elements need.
proof fn lemma_stays_in_bounds(
    c: CatalogView,
    s: ShardView,
    found: Map<Seq<char>, InfoView>,
    names: Seq<Seq<char>>,
    index_path: Seq<u8>,
)
    requires
        c.wf(),
        c.in_bounds(),
        c.sized(),
        c.shards.len() <= usize::MAX,
        s.data_start <= s.bytes.len(),
        forall|name: Seq<char>| #[trigger]
            found.contains_key(name) ==> header::fits(found[name], s.bytes.len() - s.data_start),
    ensures
        catalog::with_tensors(
            catalog::with_shard(c, s),
            c.shards.len() as usize,
            found,
            names,
            index_path,
        ) matches Ok(after) ==> after.in_bounds() && after.sized(),
{
    let base = catalog::with_shard(c, s);
    assert(base.in_bounds()) by {
        assert forall|name: Seq<char>| #[trigger] base.tensors.contains_key(name) implies {
            let d = base.tensors[name];
            &&& d.shard_id < base.shards.len()
            &&& d.file_offset + d.byte_len <= base.shards[d.shard_id as int].bytes.len()
        } by {
            assert(c.tensors.contains_key(name));
        }
    }
    assert(base.sized()) by {
        assert forall|name: Seq<char>| #[trigger] base.tensors.contains_key(name) implies {
            let d = base.tensors[name];
            8 * d.byte_len == header::element_count(d.shape) * d.dtype.spec_bitsize()
        } by {
            assert(c.tensors.contains_key(name));
        }
    }
    assert(base.shards[c.shards.len() as int] == s);
    catalog::lemma_with_tensors_in_bounds(
        base,
        c.shards.len() as usize,
        found,
        names,
        index_path,
    );
}

impl<'a> NeedsBytes<'a> {
    /// The file whose bytes are needed.
    pub fn path(&self) -> (r: &FilePath)
        ensures
            match self@ {
                OpeningView::FileBytes { files, next, .. } => r@ == files[next],
                OpeningView::PlannedBytes { file, .. } => r@ == file,
                _ => false,
            },
    {
        proof {
            use_type_invariant(self);
        }
        &self.file
    }

    /// Goes on, given the bytes of the file.
    pub fn mapped(self, bytes: &'a [u8]) -> (r: Result<Opening<'a>, LoaderError>)
        ensures
            self@ is FileBytes || self@ is PlannedBytes,
            match r {
                Ok(s) => after_bytes(self@, bytes@) == Ok::<_, ErrorView>(s@),
                Err(e) => after_bytes(self@, bytes@) == Err::<OpeningView, _>(e@),
            },
    {
        proof {
            use_type_invariant(&self);
        }
        let progress = self.progress;
        let ghost before = progress@.catalog;
        assert(before.shards.len() == progress.catalog.shards.len());
        let (shard, found) = match Shard::open(
            &self.file,
            bytes,
            progress.options.max_header_bytes,
        ) {
            Err(e) => {
                return Err(e);
            },
            Ok(opened) => opened,
        };
        let ghost entry = shard@;
        let ghost tensors = header::header_view(found);
        proof {
            use_type_invariant(&found);
            found.lemma_contents();
            assert(tensors.dom() =~= found@.dom());
            assert(found.keys().to_set() =~= tensors.dom());
            assert(bytes.len() == entry.bytes.len());
            assert(shard::framed(entry));
        }
        match self.rest {
            Remaining::Files { files, next } => match progress.catalog.add_shard(shard, &found) {
                Err(e) => Err(e),
                Ok(catalog) => {
                    proof {
                        lemma_stays_in_bounds(
                            before,
                            entry,
                            tensors,
                            name_map::ordered(tensors.dom()),
                            Seq::empty(),
                        );
                        catalog::lemma_with_tensors_faithful(
                            before,
                            entry,
                            name_map::ordered(tensors.dom()),
                            Seq::empty(),
                        );
                    }
                    let progress = Progress {
                        root: progress.root,
                        options: progress.options,
                        catalog,
                    };
                    assert(next < files.len());
                    Ok(next_file(progress, files, next + 1))
                },
            },
            Remaining::Planned { index_path, plan, next } => {
                let added = progress.catalog.add_listed_shard(
                    shard,
                    &found,
                    plan.names(next),
                    &index_path,
                );
                match added {
                    Err(e) => Err(e),
                    Ok(catalog) => {
                        proof {
                            plan.lemma_len();
                            lemma_stays_in_bounds(
                                before,
                                entry,
                                tensors,
                                name_map::ordered(plan@[next as int].1.to_set()),
                                index_path@,
                            );
                            catalog::lemma_listed_exactly(
                                before,
                                entry,
                                tensors,
                                plan@[next as int].1,
                                index_path@,
                            );
                            catalog::lemma_with_tensors_faithful(
                                before,
                                entry,
                                plan@[next as int].1,
                                index_path@,
                            );
                        }
                        let progress = Progress {
                            root: progress.root,
                            options: progress.options,
                            catalog,
                        };
                        next_shard(progress, index_path, plan, next + 1)
                    },
                }
            },
        }
    }
}

impl<'a> NeedsId<'a> {
    /// The opened model, under the id that it gets. Zero is no id: blocks that no
    /// model has handed out carry it.
    pub fn identified(self, id: u64) -> (r: Model<'a>)
        requires
            id != 0,
        ensures
            r@.wf(),
            self@ matches OpeningView::Id { progress } && r@ == (ModelView {
                id,
                catalog: progress.catalog,
                root_input: progress.root,
            }),
    {
        proof {
            use_type_invariant(&self);
        }
        let progress = self.progress;
        Model::assemble(id, progress.catalog, progress.root)
    }
}

impl<'a> Model<'a> {
    /// Starts to open a path with the usual options.
    pub fn open(path: &FilePath) -> (r: Opening<'a>)
        ensures
            r@ == started(
                path@,
                OptionsView {
                    max_header_bytes: 67108864,
                    trusted_root: None,
                    allow_implicit_multi_shard: false,
                },
            ),
    {
        Model::open_with(path, &OpenOptions::default())
    }

    /// Starts to open a path.
    pub fn open_with(path: &FilePath, opts: &OpenOptions) -> (r: Opening<'a>)
        ensures
            r@ == started(path@, opts@),
    {
        let progress = Progress {
            root: path.clone(),
            options: opts.clone(),
            catalog: Catalog::new(),
        };
        Opening::Listing(NeedsListing { progress })
    }
}

} // verus!
