//! An opened checkpoint: its shards, a description of every tensor, and access
//! to the tensors' bytes.

use vstd::prelude::*;

use crate::block;
use crate::block::{find_block, group_blocks, Block, BlockConfig, BlockView};
use crate::catalog;
use crate::catalog::{Catalog, CatalogView};
use crate::checksum;
use crate::checksum::TensorChecksum;
use crate::descriptor;
use crate::descriptor::{DescriptorView, TensorDescriptor};
use crate::error::{ErrorView, LoaderError};
use crate::name_map;
use crate::path;
use crate::path::FilePath;

verus! {

/// How a model is opened.
#[derive(Debug)]
pub struct OpenOptions {
    /// The longest header that is accepted, held against what a file declares
    /// before its header is parsed.
    pub max_header_bytes: u64,
    /// The directory that shards of an index must not resolve out of. Without
    /// it that is the directory of the index, which is the strictest choice.
    pub trusted_root: Option<FilePath>,
    /// Whether several shards in a directory without an index may be taken for
    /// one model. Different tensor names alone do not prove that they are.
    pub allow_implicit_multi_shard: bool,
}

/// What [`OpenOptions`] say.
#[verifier::ext_equal]
pub struct OptionsView {
    pub max_header_bytes: u64,
    pub trusted_root: Option<Seq<u8>>,
    pub allow_implicit_multi_shard: bool,
}

impl View for OpenOptions {
    type V = OptionsView;

    open spec fn view(&self) -> OptionsView {
        OptionsView {
            max_header_bytes: self.max_header_bytes,
            trusted_root: match self.trusted_root {
                Some(p) => Some(p@),
                None => None,
            },
            allow_implicit_multi_shard: self.allow_implicit_multi_shard,
        }
    }
}

impl Default for OpenOptions {
    fn default() -> (r: Self)
        ensures
            r@ == (OptionsView {
                max_header_bytes: 67108864,
                trusted_root: None,
                allow_implicit_multi_shard: false,
            }),
    {
        OpenOptions {
            max_header_bytes: 67108864,
            trusted_root: None,
            allow_implicit_multi_shard: false,
        }
    }
}

impl Clone for OpenOptions {
    fn clone(&self) -> (r: Self)
        ensures
            r@ == self@,
    {
        let trusted_root = match &self.trusted_root {
            Some(p) => Some(p.clone()),
            None => None,
        };
        OpenOptions {
            max_header_bytes: self.max_header_bytes,
            trusted_root,
            allow_implicit_multi_shard: self.allow_implicit_multi_shard,
        }
    }
}

/// Hands out the ids of models, each model its own. Zero is never the first id,
/// so that it can stand for a block that no model has stamped.
#[derive(Debug)]
pub struct ModelIds {
    next: u64,
}

impl View for ModelIds {
    type V = u64;

    closed spec fn view(&self) -> u64 {
        self.next
    }
}

/// The id behind another. Behind the last one the ids start over.
pub open spec fn id_after(id: u64) -> u64 {
    if id == u64::MAX {
        0
    } else {
        (id + 1) as u64
    }
}

/// The id that is handed out after `n` others.
pub open spec fn nth_id(n: nat) -> u64
    decreases n,
{
    if n == 0 {
        1
    } else {
        id_after(nth_id((n - 1) as nat))
    }
}

/// Ids count up from one.
pub proof fn lemma_nth_id(n: nat)
    requires
        n < u64::MAX,
    ensures
        nth_id(n) == n + 1,
    decreases n,
{
    if n > 0 {
        lemma_nth_id((n - 1) as nat);
    }
}

/// The ids of models are different from each other and from zero, until the
/// counter has run through all of its values.
pub proof fn lemma_ids_distinct(i: nat, j: nat)
    requires
        i < j < u64::MAX,
    ensures
        nth_id(i) != nth_id(j),
        nth_id(i) != 0,
        nth_id(j) != 0,
{
    lemma_nth_id(i);
    lemma_nth_id(j);
}

impl ModelIds {
    pub fn new() -> (r: Self)
        ensures
            r@ == nth_id(0),
    {
        ModelIds { next: 1 }
    }

    /// The next id.
    pub fn take(&mut self) -> (r: u64)
        ensures
            r == old(self)@,
            final(self)@ == id_after(old(self)@),
    {
        let id = self.next;
        self.next = id.wrapping_add(1);
        id
    }
}

/// An opened and indexed checkpoint. It owns no tensor bytes: what it hands out
/// is borrowed from the bytes of the shards.
#[derive(Debug)]
pub struct Model<'a> {
    id: u64,
    catalog: Catalog<'a>,
    root_input: FilePath,
}

/// What a [`Model`] is.
#[verifier::ext_equal]
pub struct ModelView {
    pub id: u64,
    pub catalog: CatalogView,
    pub root_input: Seq<u8>,
}

impl<'a> View for Model<'a> {
    type V = ModelView;

    closed spec fn view(&self) -> ModelView {
        ModelView { id: self.id, catalog: self.catalog@, root_input: self.root_input@ }
    }
}

impl ModelView {
    /// The model has an id, which is not zero; and every tensor lies in its shard,
    /// has the size of its elements, and is what the header of its shard declares.
    pub open spec fn wf(self) -> bool {
        self.id != 0 && self.catalog.wf() && self.catalog.in_bounds() && self.catalog.sized()
            && self.catalog.faithful()
    }

    pub open spec fn has(self, name: Seq<char>) -> bool {
        self.catalog.tensors.contains_key(name)
    }

    /// The bytes of a tensor: the range of its shard that its descriptor says.
    pub open spec fn data(self, name: Seq<char>) -> Seq<u8> {
        let d = self.catalog.tensors[name];
        self.catalog.shards[d.shard_id as int].bytes.subrange(
            d.file_offset as int,
            d.file_offset + d.byte_len,
        )
    }

    /// The descriptors in the order of their names.
    pub open spec fn listed(self) -> Seq<DescriptorView> {
        name_map::ordered(self.catalog.tensors.dom()).map_values(
            |name: Seq<char>| self.catalog.tensors[name],
        )
    }

    /// The first of some tensors that this model does not have.
    pub open spec fn first_missing(self, ds: Seq<DescriptorView>) -> Option<Seq<char>>
        decreases ds.len(),
    {
        if ds.len() == 0 {
            None
        } else {
            match self.first_missing(ds.drop_last()) {
                Some(name) => Some(name),
                None => if self.has(ds.last().name) {
                    None
                } else {
                    Some(ds.last().name)
                },
            }
        }
    }

    /// The tensors in front of the first that this model does not have.
    pub open spec fn readable(self, ds: Seq<DescriptorView>) -> Seq<DescriptorView>
        decreases ds.len(),
    {
        if self.first_missing(ds) is None {
            ds
        } else {
            self.readable(ds.drop_last())
        }
    }

    /// Why a block cannot be read here, if it cannot: it is from another model,
    /// or names a tensor that is not there.
    pub open spec fn block_error(self, b: BlockView) -> Option<ErrorView> {
        if b.model_id != self.id {
            Some(ErrorView::BlockFromDifferentModel { block_id: b.id })
        } else {
            match self.first_missing(b.tensors) {
                Some(name) => Some(ErrorView::TensorNotFound(name)),
                None => None,
            }
        }
    }

    /// Why a block cannot be copied into a buffer of `room` bytes, if it cannot: it
    /// is from another model, is too large, or names a tensor that is not there.
    pub open spec fn copy_error(self, b: BlockView, room: int) -> Option<ErrorView> {
        if b.model_id == self.id && total_bytes(b.tensors) > room {
            Some(
                ErrorView::DestinationTooSmall {
                    needed: total_bytes(b.tensors) as u64,
                    got: room as u64,
                },
            )
        } else {
            self.block_error(b)
        }
    }
}

/// A block as a model hands it out.
pub open spec fn stamped(b: BlockView, id: u64) -> BlockView {
    BlockView { id: b.id, family: b.family, index: b.index, tensors: b.tensors, model_id: id }
}

/// How many bytes some tensors have together, by their descriptors.
pub open spec fn total_bytes(ds: Seq<DescriptorView>) -> nat
    decreases ds.len(),
{
    if ds.len() == 0 {
        0
    } else {
        total_bytes(ds.drop_last()) + ds.last().byte_len as nat
    }
}

/// Where one tensor of a copied block lies in the buffer.
#[derive(Debug)]
pub struct TensorLayout {
    pub name: String,
    pub offset: u64,
    pub len: u64,
}

/// What a [`TensorLayout`] says.
#[verifier::ext_equal]
pub struct LayoutView {
    pub name: Seq<char>,
    pub offset: u64,
    pub len: u64,
}

impl View for TensorLayout {
    type V = LayoutView;

    open spec fn view(&self) -> LayoutView {
        LayoutView { name: self.name@, offset: self.offset, len: self.len }
    }
}

impl Clone for TensorLayout {
    fn clone(&self) -> (r: Self)
        ensures
            r@ == self@,
    {
        TensorLayout { name: self.name.clone(), offset: self.offset, len: self.len }
    }
}

/// What the entries of a layout say.
pub open spec fn layout_views(layout: Seq<TensorLayout>) -> Seq<LayoutView> {
    layout.map_values(|l: TensorLayout| l@)
}

/// The layout of some tensors one behind the other.
pub open spec fn layout_of(ds: Seq<DescriptorView>) -> Seq<LayoutView>
    decreases ds.len(),
{
    if ds.len() == 0 {
        Seq::empty()
    } else {
        layout_of(ds.drop_last()).push(
            LayoutView {
                name: ds.last().name,
                offset: total_bytes(ds.drop_last()) as u64,
                len: ds.last().byte_len,
            },
        )
    }
}

/// `s` with `d` in place of what stood at `at`.
pub open spec fn overwritten(s: Seq<u8>, at: int, d: Seq<u8>) -> Seq<u8> {
    s.take(at) + d + s.skip(at + d.len())
}

/// A buffer after some tensors were copied into it one behind the other.
pub open spec fn copied(m: ModelView, dest: Seq<u8>, ds: Seq<DescriptorView>) -> Seq<u8>
    decreases ds.len(),
{
    if ds.len() == 0 {
        dest
    } else {
        overwritten(
            copied(m, dest, ds.drop_last()),
            total_bytes(ds.drop_last()) as int,
            m.data(ds.last().name),
        )
    }
}

/// Each tensor that copying reaches has room in a buffer of `room` bytes behind
/// the place where its predecessors end.
pub open spec fn has_room(m: ModelView, ds: Seq<DescriptorView>, room: int) -> bool
    decreases ds.len(),
{
    ds.len() == 0 || {
        &&& has_room(m, ds.drop_last(), room)
        &&& m.first_missing(ds) is None ==> total_bytes(ds.drop_last()) + m.data(
            ds.last().name,
        ).len() <= room
    }
}

/// A block can be copied into a buffer of `room` bytes: its descriptors add up,
/// and do not promise less than the model's tensors have.
pub open spec fn copyable(m: ModelView, b: BlockView, room: int) -> bool {
    b.model_id == m.id ==> {
        &&& total_bytes(b.tensors) <= u64::MAX
        &&& total_bytes(b.tensors) <= room ==> has_room(m, b.tensors, room)
    }
}

/// A block's bytes in a buffer of their own.
#[derive(Debug)]
pub struct CopiedBlock {
    pub buffer: Vec<u8>,
    pub layout: Vec<TensorLayout>,
    pub bytes_copied: u64,
}

impl Clone for CopiedBlock {
    fn clone(&self) -> (r: Self)
        ensures
            r.buffer@ == self.buffer@,
            layout_views(r.layout@) == layout_views(self.layout@),
            r.bytes_copied == self.bytes_copied,
    {
        let buffer = self.buffer.clone();
        let layout = self.layout.clone();
        assert(buffer@ =~= self.buffer@);
        assert(layout_views(layout@) =~= layout_views(self.layout@));
        CopiedBlock { buffer, layout, bytes_copied: self.bytes_copied }
    }
}

/// Adds up the sizes of tensors.
pub fn sum_bytes(tensors: &Vec<TensorDescriptor>) -> (r: u64)
    requires
        total_bytes(descriptor::descriptor_views(tensors@)) <= u64::MAX,
    ensures
        r == total_bytes(descriptor::descriptor_views(tensors@)),
{
    let ghost ds = descriptor::descriptor_views(tensors@);
    let mut total: u64 = 0;
    let mut i: usize = 0;
    assert(ds.take(0) =~= Seq::<DescriptorView>::empty());
    while i < tensors.len()
        invariant
            i <= tensors@.len(),
            ds == descriptor::descriptor_views(tensors@),
            total_bytes(ds) <= u64::MAX,
            total == total_bytes(ds.take(i as int)),
        decreases tensors@.len() - i,
    {
        proof {
            assert(ds[i as int] == tensors@[i as int]@);
            assert(ds.take(i + 1).drop_last() =~= ds.take(i as int));
            lemma_total_bytes_prefix(ds, i + 1);
        }
        total = total + tensors[i].byte_len;
        i = i + 1;
    }
    assert(ds.take(i as int) =~= ds);
    total
}

/// Leading tensors have no more bytes than all of them.
pub proof fn lemma_total_bytes_prefix(ds: Seq<DescriptorView>, k: int)
    requires
        0 <= k <= ds.len(),
    ensures
        total_bytes(ds.take(k)) <= total_bytes(ds),
    decreases ds.len(),
{
    if k == ds.len() {
        assert(ds.take(k) =~= ds);
    } else {
        assert(ds.drop_last().take(k) =~= ds.take(k));
        lemma_total_bytes_prefix(ds.drop_last(), k);
    }
}

proof fn lemma_first_missing_prefix(m: ModelView, ds: Seq<DescriptorView>, k: int)
    requires
        0 <= k <= ds.len(),
        m.first_missing(ds.take(k)) is Some,
    ensures
        m.first_missing(ds) == m.first_missing(ds.take(k)),
    decreases ds.len(),
{
    if k == ds.len() {
        assert(ds.take(k) =~= ds);
    } else {
        assert(ds.drop_last().take(k) =~= ds.take(k));
        lemma_first_missing_prefix(m, ds.drop_last(), k);
    }
}

proof fn lemma_readable(m: ModelView, ds: Seq<DescriptorView>, k: int)
    requires
        0 <= k < ds.len(),
        m.first_missing(ds.take(k)) is None,
        m.first_missing(ds.take(k + 1)) is Some,
    ensures
        m.readable(ds) == ds.take(k),
    decreases ds.len(),
{
    lemma_first_missing_prefix(m, ds, k + 1);
    if k + 1 == ds.len() {
        assert(ds.drop_last() =~= ds.take(k));
        assert(m.readable(ds.drop_last()) == ds.take(k));
    } else {
        assert(ds.drop_last().take(k) =~= ds.take(k));
        assert(ds.drop_last().take(k + 1) =~= ds.take(k + 1));
        lemma_readable(m, ds.drop_last(), k);
    }
}

proof fn lemma_has_room_prefix(m: ModelView, ds: Seq<DescriptorView>, room: int, k: int)
    requires
        0 <= k <= ds.len(),
        has_room(m, ds, room),
    ensures
        has_room(m, ds.take(k), room),
    decreases ds.len(),
{
    if k == ds.len() {
        assert(ds.take(k) =~= ds);
    } else {
        assert(ds.drop_last().take(k) =~= ds.take(k));
        lemma_has_room_prefix(m, ds.drop_last(), room, k);
    }
}

/// Copies one slice over another of the same length.
fn fill(dest: &mut [u8], src: &[u8])
    requires
        old(dest)@.len() == src@.len(),
    ensures
        final(dest)@ == src@,
{
    let n: usize = dest.len();
    let mut i: usize = 0;
    while i < n
        invariant
            i <= n == src@.len(),
            dest@.len() == n,
            forall|j: int| 0 <= j < i ==> dest@[j] == src@[j],
        decreases n - i,
    {
        dest[i] = src[i];
        i = i + 1;
    }
    assert(dest@ =~= src@);
}

/// Copies `bytes` into a buffer at `at`.
fn write_at(dest: &mut [u8], at: usize, bytes: &[u8])
    requires
        at + bytes@.len() <= old(dest)@.len(),
    ensures
        final(dest)@ == overwritten(old(dest)@, at as int, bytes@),
        final(dest)@.len() == old(dest)@.len(),
{
    let ghost before = dest@;
    let (_, tail) = dest.split_at_mut(at);
    let (place, _) = tail.split_at_mut(bytes.len());
    fill(place, bytes);
    assert(dest@ =~= overwritten(before, at as int, bytes@));
}

impl<'a> Model<'a> {
    #[verifier::type_invariant]
    pub closed spec fn inv(&self) -> bool {
        self@.wf()
    }

    /// A model of what a catalog holds.
    pub(crate) fn assemble(id: u64, catalog: Catalog<'a>, root_input: FilePath) -> (r: Model<'a>)
        requires
            id != 0,
            catalog@.wf(),
            catalog@.in_bounds(),
            catalog@.sized(),
            catalog@.faithful(),
        ensures
            r@ == (ModelView { id, catalog: catalog@, root_input: root_input@ }),
            r@.wf(),
    {
        Model { id, catalog, root_input }
    }

    /// The identity of this opened model. Two models opened from the same path
    /// are different models.
    pub fn id(&self) -> (r: u64)
        ensures
            r == self@.id,
            r != 0,
            self@.wf(),
    {
        proof {
            use_type_invariant(self);
        }
        self.id
    }

    /// The path that was opened.
    pub fn root_input(&self) -> (r: &FilePath)
        ensures
            r@ == self@.root_input,
    {
        &self.root_input
    }

    /// The paths of the shards, in the order of their ids.
    pub fn shard_paths(&self) -> (r: Vec<&FilePath>)
        ensures
            r@.len() == self@.catalog.shards.len(),
            forall|i: int| 0 <= i < r@.len() ==> (#[trigger] r@[i])@ == self@.catalog.shards[i].path,
    {
        let mut out: Vec<&FilePath> = Vec::new();
        let mut i: usize = 0;
        while i < self.catalog.shards.len()
            invariant
                i <= self.catalog.shards@.len(),
                out@.len() == i,
                forall|j: int| 0 <= j < i ==> (#[trigger] out@[j])@ == self@.catalog.shards[j].path,
            decreases self.catalog.shards@.len() - i,
        {
            assert(self@.catalog.shards[i as int] == self.catalog.shards@[i as int]@);
            out.push(self.catalog.shards[i].path());
            i = i + 1;
        }
        out
    }

    pub fn tensor_count(&self) -> (r: usize)
        ensures
            r == self@.listed().len(),
            r == self@.catalog.tensors.dom().len(),
    {
        let n: usize = self.catalog.tensors.len();
        proof {
            lemma_listed(*self);
            let keys = self.catalog.tensors.keys();
            self.catalog.tensors.lemma_contents();
            assert(keys.to_set() =~= self@.catalog.tensors.dom());
            keys.unique_seq_to_set();
        }
        n
    }

    /// All descriptors, in the order of their names.
    pub fn descriptors(&self) -> (r: Vec<&TensorDescriptor>)
        ensures
            r@.len() == self@.listed().len(),
            forall|i: int| 0 <= i < r@.len() ==> (#[trigger] r@[i])@ == self@.listed()[i],
    {
        let mut out: Vec<&TensorDescriptor> = Vec::new();
        let n: usize = self.catalog.tensors.len();
        proof {
            lemma_listed(*self);
        }
        let mut i: usize = 0;
        while i < n
            invariant
                i <= n == self.catalog.tensors.values().len(),
                out@.len() == i,
                self@.listed() == descriptor::descriptor_views(self.catalog.tensors.values()),
                forall|j: int| 0 <= j < i ==> (#[trigger] out@[j])@ == self@.listed()[j],
            decreases n - i,
        {
            out.push(self.catalog.tensors.value_at(i));
            i = i + 1;
        }
        out
    }

    /// The descriptor of one tensor.
    pub fn descriptor(&self, name: &str) -> (r: Option<&TensorDescriptor>)
        ensures
            match r {
                Some(d) => self@.has(name@) && d@ == self@.catalog.tensors[name@],
                None => !self@.has(name@),
            },
    {
        self.catalog.tensors.get(name)
    }

    /// The bytes of one tensor, borrowed from its shard. Nothing beyond the
    /// tensor's own range is read or copied.
    pub fn tensor_bytes(&self, name: &str) -> (r: Result<&'a [u8], LoaderError>)
        ensures
            self@.wf(),
            match r {
                Ok(bytes) => self@.has(name@) && bytes@ == self@.data(name@) && bytes@.len()
                    == self@.catalog.tensors[name@].byte_len,
                Err(e) => !self@.has(name@) && e@ == ErrorView::TensorNotFound(name@),
            },
    {
        proof {
            use_type_invariant(self);
        }
        match self.catalog.tensors.get(name) {
            None => Err(LoaderError::TensorNotFound(name.to_owned())),
            Some(d) => {
                assert(self@.has(name@));
                assert(d@ == self@.catalog.tensors[name@]);
                let shard = &self.catalog.shards[d.shard_id];
                assert(shard@ == self@.catalog.shards[d.shard_id as int]);
                assert(shard@.bytes.len() <= u64::MAX) by {
                    shard.lemma_len();
                }
                shard.byte_range(name, d.file_offset, d.file_offset + d.byte_len)
            },
        }
    }

    /// Copies of all descriptors, in the order of their names.
    fn all_descriptors(&self) -> (r: Vec<TensorDescriptor>)
        ensures
            descriptor::descriptor_views(r@) == self@.listed(),
    {
        let mut out: Vec<TensorDescriptor> = Vec::new();
        let n: usize = self.catalog.tensors.len();
        proof {
            lemma_listed(*self);
        }
        let mut i: usize = 0;
        while i < n
            invariant
                i <= n == self.catalog.tensors.values().len(),
                out@.len() == i,
                self@.listed() == descriptor::descriptor_views(self.catalog.tensors.values()),
                forall|j: int| 0 <= j < i ==> (#[trigger] out@[j])@ == self@.listed()[j],
            decreases n - i,
        {
            out.push(self.catalog.tensors.value_at(i).clone());
            i = i + 1;
        }
        assert(descriptor::descriptor_views(out@) =~= self@.listed());
        out
    }

    /// Groups all tensors into blocks. No tensor's bytes are touched.
    pub fn blocks(&self, config: &BlockConfig) -> (r: Vec<Block>)
        ensures
            self@.wf(),
            block::block_views(r@) == block::grouped(self@.listed(), config@).map_values(
                |b: BlockView| stamped(b, self@.id),
            ),
    {
        proof {
            use_type_invariant(self);
        }
        let all = self.all_descriptors();
        let mut found = group_blocks(all.as_slice(), config);
        let ghost grouped = block::grouped(self@.listed(), config@);
        let ghost n = found@.len();
        assert(forall|j: int| 0 <= j < n ==> (#[trigger] found@[j])@ == grouped[j]) by {
            assert(block::block_views(found@) == grouped);
            assert forall|j: int| 0 <= j < n implies (#[trigger] found@[j])@ == grouped[j] by {
                assert(block::block_views(found@)[j] == found@[j]@);
            }
        }
        let mut i: usize = 0;
        while i < found.len()
            invariant
                i <= found@.len(),
                found@.len() == n,
                n == grouped.len(),
                forall|j: int| 0 <= j < i ==> (#[trigger] found@[j])@ == stamped(grouped[j], self@.id),
                forall|j: int| i <= j < n ==> (#[trigger] found@[j])@ == grouped[j],
            decreases found@.len() - i,
        {
            let ghost before = found@;
            let block = &mut found[i];
            block.model_id = self.id;
            assert(found@[i as int]@ =~= stamped(grouped[i as int], self@.id));
            assert(forall|j: int| 0 <= j < n && j != i ==> #[trigger] found@[j] == before[j]);
            i = i + 1;
        }
        assert(block::block_views(found@) =~= grouped.map_values(
            |b: BlockView| stamped(b, self@.id),
        ));
        found
    }

    /// The block with exactly this id.
    pub fn block(&self, config: &BlockConfig, block_id: &str) -> (r: Result<Block, LoaderError>)
        ensures
            self@.wf(),
            match r {
                Ok(b) => exists|found: BlockView| #[trigger]
                    block::grouped(self@.listed(), config@).contains(found) && found.id
                        == block_id@ && b@ == stamped(found, self@.id),
                Err(e) => e@ == ErrorView::BlockNotFound(block_id@) && forall|found: BlockView|
                    #[trigger]
                    block::grouped(self@.listed(), config@).contains(found) ==> found.id
                        != block_id@,
            },
    {
        proof {
            use_type_invariant(self);
        }
        let all = self.all_descriptors();
        match find_block(all.as_slice(), config, block_id) {
            Some(b) => {
                let mut b = b;
                let ghost found = b@;
                b.model_id = self.id;
                assert(b@ =~= stamped(found, self@.id));
                Ok(b)
            },
            None => Err(LoaderError::BlockNotFound(block_id.to_owned())),
        }
    }

    /// Rejects a block that another model made: its offsets mean nothing here.
    pub fn check_provenance(&self, blk: &Block) -> (r: Result<(), LoaderError>)
        ensures
            match r {
                Ok(_) => blk@.model_id == self@.id,
                Err(e) => blk@.model_id != self@.id && e@ == (ErrorView::BlockFromDifferentModel {
                    block_id: blk@.id,
                }),
            },
    {
        if blk.model_id != self.id {
            return Err(LoaderError::BlockFromDifferentModel { block_id: blk.id.clone() });
        }
        Ok(())
    }

    /// The bytes of every tensor of a block, borrowed, in the block's order.
    pub fn block_views<'b>(&'b self, blk: &'b Block) -> (r: Result<
        Vec<(&'b str, &'b [u8])>,
        LoaderError,
    >)
        ensures
            match r {
                Ok(views) => {
                    &&& self@.block_error(blk@) is None
                    &&& views@.len() == blk@.tensors.len()
                    &&& forall|i: int|
                        0 <= i < views@.len() ==> (#[trigger] views@[i]).0@ == blk@.tensors[i].name
                            && views@[i].1@ == self@.data(blk@.tensors[i].name)
                },
                Err(e) => self@.block_error(blk@) == Some(e@),
            },
    {
        match self.check_provenance(blk) {
            Ok(_) => {},
            Err(e) => {
                return Err(e);
            },
        }
        let ghost ds = blk@.tensors;
        let mut out: Vec<(&'b str, &'b [u8])> = Vec::new();
        let mut i: usize = 0;
        assert(ds.take(0) =~= Seq::<DescriptorView>::empty());
        while i < blk.tensors.len()
            invariant
                i <= blk.tensors@.len(),
                ds == blk@.tensors,
                blk@.model_id == self@.id,
                out@.len() == i,
                self@.first_missing(ds.take(i as int)) is None,
                forall|j: int|
                    0 <= j < i ==> (#[trigger] out@[j]).0@ == ds[j].name && out@[j].1@
                        == self@.data(ds[j].name),
            decreases blk.tensors@.len() - i,
        {
            let name = blk.tensors[i].name.as_str();
            proof {
                assert(ds[i as int] == blk.tensors@[i as int]@);
                assert(ds.take(i + 1).drop_last() =~= ds.take(i as int));
            }
            match self.tensor_bytes(name) {
                Ok(bytes) => {
                    out.push((name, bytes));
                },
                Err(e) => {
                    proof {
                        lemma_first_missing_prefix(self@, ds, i + 1);
                    }
                    return Err(e);
                },
            }
            i = i + 1;
        }
        assert(ds.take(i as int) =~= ds);
        Ok(out)
    }

    /// Copies every tensor of a block into one buffer of its own.
    pub fn copy_block(&self, blk: &Block) -> (r: Result<CopiedBlock, LoaderError>)
        requires
            copyable(self@, blk@, total_bytes(blk@.tensors) as int),
            blk@.model_id == self@.id ==> total_bytes(blk@.tensors) <= isize::MAX,
        ensures
            match r {
                Ok(c) => {
                    &&& self@.block_error(blk@) is None
                    &&& c.buffer@ == copied(
                        self@,
                        Seq::new(total_bytes(blk@.tensors), |i: int| 0u8),
                        blk@.tensors,
                    )
                    &&& layout_views(c.layout@) == layout_of(blk@.tensors)
                    &&& c.bytes_copied == total_bytes(blk@.tensors)
                },
                Err(e) => self@.block_error(blk@) == Some(e@),
            },
    {
        match self.check_provenance(blk) {
            Ok(_) => {},
            Err(e) => {
                return Err(e);
            },
        }
        let total = sum_bytes(&blk.tensors);
        let mut buffer: Vec<u8> = vec![0u8; total as usize];
        assert(buffer@ =~= Seq::new(total_bytes(blk@.tensors), |i: int| 0u8));
        match self.copy_block_into(blk, buffer.as_mut_slice()) {
            Ok(layout) => Ok(CopiedBlock { buffer, layout, bytes_copied: total }),
            Err(e) => Err(e),
        }
    }

    /// Copies every tensor of a block into a buffer that the caller owns. Nothing
    /// is allocated for the bytes, and nothing is written where the buffer is too
    /// small.
    pub fn copy_block_into(&self, blk: &Block, dest: &mut [u8]) -> (r: Result<
        Vec<TensorLayout>,
        LoaderError,
    >)
        requires
            copyable(self@, blk@, old(dest)@.len() as int),
        ensures
            final(dest)@.len() == old(dest)@.len(),
            match r {
                Ok(layout) => {
                    &&& self@.copy_error(blk@, old(dest)@.len() as int) is None
                    &&& total_bytes(blk@.tensors) <= old(dest)@.len()
                    &&& layout_views(layout@) == layout_of(blk@.tensors)
                    &&& final(dest)@ == copied(self@, old(dest)@, blk@.tensors)
                },
                Err(e) => {
                    &&& self@.copy_error(blk@, old(dest)@.len() as int) == Some(e@)
                    &&& final(dest)@ == if blk@.model_id == self@.id && total_bytes(blk@.tensors)
                        <= old(dest)@.len() {
                        copied(self@, old(dest)@, self@.readable(blk@.tensors))
                    } else {
                        old(dest)@
                    }
                },
            },
    {
        match self.check_provenance(blk) {
            Ok(_) => {},
            Err(e) => {
                return Err(e);
            },
        }
        let total = sum_bytes(&blk.tensors);
        let room: usize = dest.len();
        if (room as u64) < total {
            return Err(LoaderError::DestinationTooSmall { needed: total, got: room as u64 });
        }
        let ghost ds = blk@.tensors;
        let ghost before = dest@;
        let mut layout: Vec<TensorLayout> = Vec::with_capacity(blk.tensors.len());
        let mut offset: u64 = 0;
        let mut i: usize = 0;
        proof {
            assert(ds.take(0) =~= Seq::<DescriptorView>::empty());
            assert(layout_views(layout@) =~= Seq::<LayoutView>::empty());
        }
        while i < blk.tensors.len()
            invariant
                i <= blk.tensors@.len(),
                ds == blk@.tensors,
                blk@.model_id == self@.id,
                total == total_bytes(ds),
                total <= room,
                dest@.len() == room,
                before == old(dest)@,
                before.len() == room,
                has_room(self@, ds, room as int),
                offset == total_bytes(ds.take(i as int)),
                self@.first_missing(ds.take(i as int)) is None,
                layout_views(layout@) == layout_of(ds.take(i as int)),
                dest@ == copied(self@, before, ds.take(i as int)),
            decreases blk.tensors@.len() - i,
        {
            let name = blk.tensors[i].name.as_str();
            let len: u64 = blk.tensors[i].byte_len;
            proof {
                assert(ds[i as int] == blk.tensors@[i as int]@);
                assert(ds.take(i + 1).drop_last() =~= ds.take(i as int));
                lemma_total_bytes_prefix(ds, i as int);
                lemma_total_bytes_prefix(ds, i + 1);
                lemma_has_room_prefix(self@, ds, room as int, i + 1);
            }
            match self.tensor_bytes(name) {
                Ok(bytes) => {
                    write_at(dest, offset as usize, bytes);
                    let ghost listed = layout_views(layout@);
                    layout.push(TensorLayout { name: name.to_owned(), offset, len });
                    assert(layout_views(layout@) =~= listed.push(
                        LayoutView { name: name@, offset, len },
                    ));
                },
                Err(e) => {
                    proof {
                        lemma_first_missing_prefix(self@, ds, i + 1);
                        lemma_readable(self@, ds, i as int);
                    }
                    return Err(e);
                },
            }
            offset = offset + len;
            i = i + 1;
        }
        assert(ds.take(i as int) =~= ds);
        Ok(layout)
    }

    /// The checksum of one tensor. This reads the tensor's bytes.
    pub fn checksum_tensor(&self, name: &str) -> (r: Result<TensorChecksum, LoaderError>)
        ensures
            self@.wf(),
            match r {
                Ok(c) => self@.has(name@) && c@ == checksum::checksum_of(name@, self@.data(name@)),
                Err(e) => !self@.has(name@) && e@ == ErrorView::TensorNotFound(name@),
            },
    {
        match self.tensor_bytes(name) {
            Ok(bytes) => Ok(TensorChecksum::of(name, bytes)),
            Err(e) => Err(e),
        }
    }

    /// The checksums of a block's tensors, in the block's order.
    pub fn checksum_block(&self, blk: &Block) -> (r: Result<Vec<TensorChecksum>, LoaderError>)
        ensures
            match r {
                Ok(cs) => {
                    &&& self@.block_error(blk@) is None
                    &&& checksum::checksum_views(cs@) == blk@.tensors.map_values(
                        |d: DescriptorView| checksum::checksum_of(d.name, self@.data(d.name)),
                    )
                },
                Err(e) => self@.block_error(blk@) == Some(e@),
            },
    {
        match self.check_provenance(blk) {
            Ok(_) => {},
            Err(e) => {
                return Err(e);
            },
        }
        let ghost ds = blk@.tensors;
        let mut out: Vec<TensorChecksum> = Vec::new();
        let mut i: usize = 0;
        assert(ds.take(0) =~= Seq::<DescriptorView>::empty());
        while i < blk.tensors.len()
            invariant
                i <= blk.tensors@.len(),
                ds == blk@.tensors,
                blk@.model_id == self@.id,
                out@.len() == i,
                self@.first_missing(ds.take(i as int)) is None,
                forall|j: int|
                    0 <= j < i ==> (#[trigger] out@[j])@ == checksum::checksum_of(
                        ds[j].name,
                        self@.data(ds[j].name),
                    ),
            decreases blk.tensors@.len() - i,
        {
            let name = blk.tensors[i].name.as_str();
            proof {
                assert(ds[i as int] == blk.tensors@[i as int]@);
                assert(ds.take(i + 1).drop_last() =~= ds.take(i as int));
            }
            match self.checksum_tensor(name) {
                Ok(c) => {
                    out.push(c);
                },
                Err(e) => {
                    proof {
                        lemma_first_missing_prefix(self@, ds, i + 1);
                    }
                    return Err(e);
                },
            }
            i = i + 1;
        }
        proof {
            assert(ds.take(i as int) =~= ds);
            assert(checksum::checksum_views(out@) =~= ds.map_values(
                |d: DescriptorView| checksum::checksum_of(d.name, self@.data(d.name)),
            ));
        }
        Ok(out)
    }
}

/// The order of a model's descriptors is that of its map.
proof fn lemma_listed(m: Model)
    requires
        m.catalog.tensors.wf(),
    ensures
        m@.listed() == descriptor::descriptor_views(m.catalog.tensors.values()),
{
    let t = m.catalog.tensors;
    t.lemma_contents();
    assert(m@.catalog.tensors.dom() =~= t@.dom());
    assert(m@.listed() =~= descriptor::descriptor_views(t.values()));
}

/// The entries of a layout are seen one by one, each field under its own name.
pub proof fn lemma_layout_seen(layout: Seq<TensorLayout>, i: int)
    requires
        0 <= i < layout.len(),
    ensures
        layout_views(layout).len() == layout.len(),
        layout_views(layout)[i].name == layout[i].name@,
        layout_views(layout)[i].offset == layout[i].offset,
        layout_views(layout)[i].len == layout[i].len,
{
}

/// The options are seen as they are, each under its own name.
pub proof fn lemma_options_seen(options: OpenOptions)
    ensures
        options@.max_header_bytes == options.max_header_bytes,
        options@.allow_implicit_multi_shard == options.allow_implicit_multi_shard,
        options@.trusted_root is Some <==> options.trusted_root is Some,
        options.trusted_root matches Some(p) ==> options@.trusted_root == Some(p@),
{
}

} // verus!
