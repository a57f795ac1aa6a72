//! What an engine that streams blocks to a GPU decides before it starts: the
//! order of the blocks, where each lies in the pinned host buffer, which of them
//! stay on the GPU, and how large the slots of the streaming ring are.

use vstd::prelude::*;

use crate::block;
use crate::block::{Block, BlockConfig, BlockFamily, BlockView, ConfigView, UNASSIGNED};
use crate::block_laws;
use crate::catalog;
use crate::descriptor::{DescriptorView, Dtype};
use crate::dlpack;
use crate::dlpack::DlDtype;
use crate::error::{ErrorView, LoaderError};
use crate::model;
use crate::model::{sum_bytes, Model, ModelView, TensorLayout};
use crate::model_laws;
use crate::name_map::NameMap;
use crate::text::same_text;

verus! {

/// The errors of the engine.
#[derive(Debug)]
pub enum EngineError {
    Loader(LoaderError),
    /// The checkpoint needs more pinned memory than it may have. It is refused
    /// rather than cached in part.
    BudgetExceeded { needed: u64, budget: u64 },
    /// A tensor has an element type that cannot be exported.
    UnsupportedDtype { name: String, dtype: Dtype },
    /// No slot holds this block.
    BlockNotResident(String),
    UnknownBlock(String),
}

/// What an [`EngineError`] says.
#[verifier::ext_equal]
pub enum EngineErrorView {
    Loader(ErrorView),
    BudgetExceeded { needed: u64, budget: u64 },
    UnsupportedDtype { name: Seq<char>, dtype: Dtype },
    BlockNotResident(Seq<char>),
    UnknownBlock(Seq<char>),
}

impl View for EngineError {
    type V = EngineErrorView;

    open spec fn view(&self) -> EngineErrorView {
        match self {
            EngineError::Loader(e) => EngineErrorView::Loader(e@),
            EngineError::BudgetExceeded { needed, budget } => EngineErrorView::BudgetExceeded {
                needed: *needed,
                budget: *budget,
            },
            EngineError::UnsupportedDtype { name, dtype } => EngineErrorView::UnsupportedDtype {
                name: name@,
                dtype: *dtype,
            },
            EngineError::BlockNotResident(id) => EngineErrorView::BlockNotResident(id@),
            EngineError::UnknownBlock(id) => EngineErrorView::UnknownBlock(id@),
        }
    }
}

/// The exported type of a tensor, or an error that names the tensor.
pub fn dl_dtype(name: &str, dtype: Dtype) -> (r: Result<DlDtype, EngineError>)
    ensures
        match r {
            Ok(d) => dlpack::exported(dtype) == Some(d),
            Err(e) => dlpack::exported(dtype) is None && e@ == (
            EngineErrorView::UnsupportedDtype { name: name@, dtype }),
        },
{
    match DlDtype::of(dtype) {
        Some(d) => Ok(d),
        None => Err(EngineError::UnsupportedDtype { name: name.to_owned(), dtype }),
    }
}

/// The families that an engine groups blocks by: those given, else those of FLUX.
pub open spec fn config_of(families: Option<Seq<Seq<char>>>) -> ConfigView {
    ConfigView {
        model_prefix: None,
        families: match families {
            Some(labels) => labels,
            None => seq!["transformer_blocks"@, "single_transformer_blocks"@],
        },
    }
}

/// Makes the block configuration of an engine.
pub fn engine_config(families: Option<&Vec<String>>) -> (r: BlockConfig)
    ensures
        r@ == config_of(
            match families {
                Some(labels) => Some(catalog::name_views(labels@)),
                None => None,
            },
        ),
{
    match families {
        None => BlockConfig::flux(),
        Some(labels) => {
            let mut list: Vec<BlockFamily> = Vec::new();
            let mut i: usize = 0;
            while i < labels.len()
                invariant
                    i <= labels@.len(),
                    list@.len() == i,
                    forall|j: int| 0 <= j < i ==> (#[trigger] list@[j])@ == labels@[j]@,
                decreases labels@.len() - i,
            {
                list.push(BlockFamily::new(labels[i].as_str()));
                i = i + 1;
            }
            assert(list@.map_values(|f: BlockFamily| f@) =~= catalog::name_views(labels@));
            BlockConfig::new(list)
        },
    }
}

/// Where the first block of shared tensors stands, from `from` on.
pub open spec fn shared_position(blocks: Seq<BlockView>, from: int) -> Option<int>
    decreases blocks.len() - from,
{
    if from >= blocks.len() {
        None
    } else if blocks[from].id == UNASSIGNED@ {
        Some(from)
    } else {
        shared_position(blocks, from + 1)
    }
}

/// The blocks with the shared tensors in front: they must be there before any
/// other block runs.
pub open spec fn shared_first(blocks: Seq<BlockView>) -> Seq<BlockView> {
    match shared_position(blocks, 0) {
        Some(p) => blocks.remove(p).insert(0, blocks[p]),
        None => blocks,
    }
}

/// Moves the block of shared tensors to the front.
pub fn order_blocks(blocks: Vec<Block>) -> (r: Vec<Block>)
    ensures
        block::block_views(r@) == shared_first(block::block_views(blocks@)),
{
    let ghost all = block::block_views(blocks@);
    let mut out = blocks;
    let mut i: usize = 0;
    while i < out.len()
        invariant
            i <= out@.len(),
            all == block::block_views(blocks@),
            all == block::block_views(out@),
            shared_position(all, 0) == shared_position(all, i as int),
        decreases out@.len() - i,
    {
        assert(all[i as int] == out@[i as int]@);
        if same_text(out[i].id.as_str(), UNASSIGNED) {
            let shared = out.remove(i);
            assert(block::block_views(out@) =~= all.remove(i as int));
            out.insert(0, shared);
            assert(block::block_views(out@) =~= all.remove(i as int).insert(0, all[i as int]));
            return out;
        }
        i = i + 1;
    }
    out
}

/// How many bytes some blocks have together.
pub open spec fn blocks_total(blocks: Seq<BlockView>) -> nat
    decreases blocks.len(),
{
    if blocks.len() == 0 {
        0
    } else {
        blocks_total(blocks.drop_last()) + model::total_bytes(blocks.last().tensors)
    }
}

pub proof fn lemma_blocks_total_prefix(blocks: Seq<BlockView>, k: int)
    requires
        0 <= k <= blocks.len(),
    ensures
        blocks_total(blocks.take(k)) <= blocks_total(blocks),
    decreases blocks.len(),
{
    if k == blocks.len() {
        assert(blocks.take(k) =~= blocks);
    } else {
        assert(blocks.drop_last().take(k) =~= blocks.take(k));
        lemma_blocks_total_prefix(blocks.drop_last(), k);
    }
}

/// Where block number `n` begins in the pinned buffer.
pub open spec fn block_start(blocks: Seq<BlockView>, n: int) -> nat {
    blocks_total(blocks.take(n))
}

/// Adds up the sizes of blocks.
fn sum_blocks(blocks: &Vec<Block>) -> (r: u64)
    requires
        blocks_total(block::block_views(blocks@)) <= u64::MAX,
    ensures
        r == blocks_total(block::block_views(blocks@)),
{
    let ghost all = block::block_views(blocks@);
    let mut total: u64 = 0;
    let mut i: usize = 0;
    assert(all.take(0) =~= Seq::<BlockView>::empty());
    while i < blocks.len()
        invariant
            i <= blocks@.len(),
            all == block::block_views(blocks@),
            blocks_total(all) <= u64::MAX,
            total == blocks_total(all.take(i as int)),
        decreases blocks@.len() - i,
    {
        proof {
            assert(all[i as int] == blocks@[i as int]@);
            assert(all.take(i + 1).drop_last() =~= all.take(i as int));
            lemma_blocks_total_prefix(all, i + 1);
        }
        total = total + sum_bytes(&blocks[i].tensors);
        i = i + 1;
    }
    assert(all.take(i as int) =~= all);
    total
}

/// The blocks of a model in the order of an engine.
pub open spec fn planned_blocks(m: ModelView, config: ConfigView) -> Seq<BlockView> {
    shared_first(
        block::grouped(m.listed(), config).map_values(|b: BlockView| model::stamped(b, m.id)),
    )
}

/// Every block is the model's own.
pub open spec fn own_blocks(m: ModelView, blocks: Seq<BlockView>) -> bool {
    forall|i: int|
        0 <= i < blocks.len() ==> (#[trigger] blocks[i]).model_id == m.id
            && model_laws::consistent(m, blocks[i].tensors)
}

pub proof fn lemma_shared_position(blocks: Seq<BlockView>, from: int)
    requires
        0 <= from,
    ensures
        shared_position(blocks, from) matches Some(p) ==> from <= p < blocks.len()
            && blocks[p].id == UNASSIGNED@,
    decreases blocks.len() - from,
{
    if from < blocks.len() && blocks[from].id != UNASSIGNED@ {
        lemma_shared_position(blocks, from + 1);
    }
}

/// Moving the shared tensors to the front keeps the blocks.
pub proof fn lemma_shared_first_keeps(blocks: Seq<BlockView>)
    ensures
        shared_first(blocks).to_multiset() == blocks.to_multiset(),
        shared_first(blocks).len() == blocks.len(),
        forall|b: BlockView| #[trigger] shared_first(blocks).contains(b) <==> blocks.contains(b),
{
    lemma_shared_position(blocks, 0);
    match shared_position(blocks, 0) {
        Some(p) => {
            blocks.to_multiset_ensures();
            let rest = blocks.remove(p);
            vstd::seq_lib::to_multiset_insert(rest, 0, blocks[p]);
            let m = blocks.to_multiset();
            assert(m.count(blocks[p]) > 0) by {
                assert(blocks.contains(blocks[p]));
            }
            assert(m.remove(blocks[p]).insert(blocks[p]) =~= m);
        },
        None => {},
    }
    shared_first(blocks).to_multiset_ensures();
    blocks.to_multiset_ensures();
    assert forall|b: BlockView| #[trigger] shared_first(blocks).contains(b) <==> blocks.contains(
        b,
    ) by {
        assert(shared_first(blocks).contains(b) <==> shared_first(blocks).to_multiset().count(b)
            > 0);
        assert(blocks.contains(b) <==> blocks.to_multiset().count(b) > 0);
    }
}

/// The blocks of a plan are the model's own.
pub proof fn lemma_planned_blocks_own(m: ModelView, config: ConfigView)
    requires
        m.wf(),
    ensures
        own_blocks(m, planned_blocks(m, config)),
{
    let grouped = block::grouped(m.listed(), config);
    let stamped = grouped.map_values(|b: BlockView| model::stamped(b, m.id));
    let planned = planned_blocks(m, config);
    lemma_shared_first_keeps(stamped);
    assert forall|i: int| 0 <= i < planned.len() implies (#[trigger] planned[i]).model_id == m.id
        && model_laws::consistent(m, planned[i].tensors) by {
        assert(planned.contains(planned[i]));
        assert(stamped.contains(planned[i]));
        let j = choose|j: int| 0 <= j < stamped.len() && stamped[j] == planned[i];
        assert(grouped.contains(grouped[j]));
        model_laws::lemma_own_block_consistent(m, config, grouped[j]);
    }
}

proof fn lemma_total_bytes_add(a: Seq<DescriptorView>, b: Seq<DescriptorView>)
    ensures
        model::total_bytes(a + b) == model::total_bytes(a) + model::total_bytes(b),
{
    model_laws::lemma_bytes_add_up(a, b);
}

proof fn lemma_total_bytes_same_tensors(a: Seq<DescriptorView>, b: Seq<DescriptorView>)
    requires
        a.to_multiset() == b.to_multiset(),
    ensures
        model::total_bytes(a) == model::total_bytes(b),
    decreases a.len(),
{
    a.to_multiset_ensures();
    b.to_multiset_ensures();
    if a.len() > 0 {
        let last = a.last();
        assert(a.contains(last));
        assert(b.to_multiset().count(last) > 0);
        assert(b.contains(last));
        let j = choose|j: int| 0 <= j < b.len() && b[j] == last;
        let before = b.take(j);
        let behind = b.skip(j + 1);
        assert(b.remove(j) =~= before + behind);
        assert(b =~= (before + seq![last]) + behind);
        lemma_total_bytes_add(before, behind);
        lemma_total_bytes_add(before, seq![last]);
        lemma_total_bytes_add(before + seq![last], behind);
        model_laws::lemma_bytes_of_one(last);
        assert(a.drop_last() =~= a.remove(a.len() - 1));
        assert(a.drop_last().to_multiset() =~= b.remove(j).to_multiset());
        lemma_total_bytes_same_tensors(a.drop_last(), b.remove(j));
    }
}

/// The bytes of some blocks are those of all their tensors together.
pub proof fn lemma_blocks_total_joined(blocks: Seq<BlockView>)
    ensures
        blocks_total(blocks) == model::total_bytes(block_laws::all_tensors(blocks)),
    decreases blocks.len(),
{
    if blocks.len() > 0 {
        lemma_blocks_total_joined(blocks.drop_last());
        lemma_total_bytes_add(
            block_laws::all_tensors(blocks.drop_last()),
            blocks.last().tensors,
        );
    }
}

proof fn lemma_blocks_total_add(a: Seq<BlockView>, b: Seq<BlockView>)
    ensures
        blocks_total(a + b) == blocks_total(a) + blocks_total(b),
    decreases b.len(),
{
    if b.len() == 0 {
        assert(a + b =~= a);
    } else {
        assert((a + b).drop_last() =~= a + b.drop_last());
        assert((a + b).last() == b.last());
        lemma_blocks_total_add(a, b.drop_last());
    }
}

proof fn lemma_shared_first_total(blocks: Seq<BlockView>)
    ensures
        blocks_total(shared_first(blocks)) == blocks_total(blocks),
{
    lemma_shared_position(blocks, 0);
    match shared_position(blocks, 0) {
        Some(p) => {
            let shared = seq![blocks[p]];
            let before = blocks.take(p);
            let behind = blocks.skip(p + 1);
            assert(shared_first(blocks) =~= (shared + before) + behind);
            assert(blocks =~= (before + shared) + behind);
            lemma_blocks_total_add(shared, before);
            lemma_blocks_total_add(before, shared);
            lemma_blocks_total_add(shared + before, behind);
            lemma_blocks_total_add(before + shared, behind);
        },
        None => {},
    }
}

proof fn lemma_stamped_total(blocks: Seq<BlockView>, id: u64)
    ensures
        blocks_total(blocks.map_values(|b: BlockView| model::stamped(b, id))) == blocks_total(
            blocks,
        ),
    decreases blocks.len(),
{
    let stamped = blocks.map_values(|b: BlockView| model::stamped(b, id));
    if blocks.len() > 0 {
        lemma_stamped_total(blocks.drop_last(), id);
        assert(stamped.drop_last() =~= blocks.drop_last().map_values(
            |b: BlockView| model::stamped(b, id),
        ));
    }
}

/// A plan needs as many pinned bytes as the tensors of the model have together,
/// however they are grouped.
pub proof fn lemma_plan_holds_model(m: ModelView, config: ConfigView)
    ensures
        blocks_total(planned_blocks(m, config)) == model::total_bytes(m.listed()),
{
    let grouped = block::grouped(m.listed(), config);
    lemma_shared_first_total(
        grouped.map_values(|b: BlockView| model::stamped(b, m.id)),
    );
    lemma_stamped_total(grouped, m.id);
    lemma_blocks_total_joined(grouped);
    block_laws::lemma_blocks_partition(m.listed(), config);
    lemma_total_bytes_same_tensors(block_laws::all_tensors(grouped), m.listed());
}

/// Where a tensor lies in the pinned buffer, and what an export of it looks like.
#[derive(Debug)]
pub struct TensorMeta {
    pub name: String,
    pub pinned_offset: u64,
    pub len: u64,
    pub dtype: Dtype,
    pub shape: Vec<usize>,
}

/// What a [`TensorMeta`] says.
#[verifier::ext_equal]
pub struct TensorMetaView {
    pub name: Seq<char>,
    pub pinned_offset: u64,
    pub len: u64,
    pub dtype: Dtype,
    pub shape: Seq<usize>,
}

impl View for TensorMeta {
    type V = TensorMetaView;

    open spec fn view(&self) -> TensorMetaView {
        TensorMetaView {
            name: self.name@,
            pinned_offset: self.pinned_offset,
            len: self.len,
            dtype: self.dtype,
            shape: self.shape@,
        }
    }
}

/// A block in the pinned buffer.
#[derive(Debug)]
pub struct BlockMeta {
    pub id: String,
    pub tensors: Vec<TensorMeta>,
    pub total_bytes: u64,
}

/// What a [`BlockMeta`] says.
#[verifier::ext_equal]
pub struct BlockMetaView {
    pub id: Seq<char>,
    pub tensors: Seq<TensorMetaView>,
    pub total_bytes: u64,
}

/// What the tensors of a list say.
pub open spec fn tensor_meta_views(ts: Seq<TensorMeta>) -> Seq<TensorMetaView> {
    ts.map_values(|t: TensorMeta| t@)
}

impl View for BlockMeta {
    type V = BlockMetaView;

    open spec fn view(&self) -> BlockMetaView {
        BlockMetaView {
            id: self.id@,
            tensors: tensor_meta_views(self.tensors@),
            total_bytes: self.total_bytes,
        }
    }
}

/// What the blocks of a map say.
pub open spec fn block_meta_views(blocks: NameMap<BlockMeta>) -> Map<Seq<char>, BlockMetaView> {
    blocks@.map_values(|b: BlockMeta| b@)
}

/// A tensor in a pinned buffer where its block begins at `start`.
pub open spec fn tensor_meta(ds: Seq<DescriptorView>, start: nat, i: int) -> TensorMetaView {
    TensorMetaView {
        name: ds[i].name,
        pinned_offset: (start + model::total_bytes(ds.take(i))) as u64,
        len: ds[i].byte_len,
        dtype: ds[i].dtype,
        shape: ds[i].shape,
    }
}

/// A block in a pinned buffer where it begins at `start`.
pub open spec fn block_meta(b: BlockView, start: nat) -> BlockMetaView {
    BlockMetaView {
        id: b.id,
        tensors: Seq::new(b.tensors.len(), |i: int| tensor_meta(b.tensors, start, i)),
        total_bytes: model::total_bytes(b.tensors) as u64,
    }
}

/// The first `n` blocks in the pinned buffer, by id.
pub open spec fn meta_map(blocks: Seq<BlockView>, n: int) -> Map<Seq<char>, BlockMetaView>
    decreases n,
{
    if n <= 0 {
        Map::empty()
    } else {
        meta_map(blocks, n - 1).insert(
            blocks[n - 1].id,
            block_meta(blocks[n - 1], block_start(blocks, n - 1)),
        )
    }
}

/// The ids of the first `n` blocks, without that of the shared tensors.
pub open spec fn streamed_ids(blocks: Seq<BlockView>, n: int) -> Seq<Seq<char>>
    decreases n,
{
    if n <= 0 {
        Seq::empty()
    } else if blocks[n - 1].id == UNASSIGNED@ {
        streamed_ids(blocks, n - 1)
    } else {
        streamed_ids(blocks, n - 1).push(blocks[n - 1].id)
    }
}

/// The size of the last block of shared tensors among the first `n` blocks.
pub open spec fn shared_size(blocks: Seq<BlockView>, n: int) -> nat
    decreases n,
{
    if n <= 0 {
        0
    } else if blocks[n - 1].id == UNASSIGNED@ {
        model::total_bytes(blocks[n - 1].tensors)
    } else {
        shared_size(blocks, n - 1)
    }
}

/// The first tensor of an element type that cannot be exported.
pub open spec fn first_unsupported(ds: Seq<DescriptorView>) -> Option<EngineErrorView>
    decreases ds.len(),
{
    if ds.len() == 0 {
        None
    } else {
        match first_unsupported(ds.drop_last()) {
            Some(e) => Some(e),
            None => if dlpack::exported(ds.last().dtype) is Some {
                None
            } else {
                Some(
                    EngineErrorView::UnsupportedDtype {
                        name: ds.last().name,
                        dtype: ds.last().dtype,
                    },
                )
            },
        }
    }
}

/// How many of the blocks are copied to the pinned buffer: all, or those up to
/// the first with a tensor that cannot be exported.
pub open spec fn copied_blocks(blocks: Seq<BlockView>, from: int) -> int
    decreases blocks.len() - from,
{
    if from >= blocks.len() {
        blocks.len() as int
    } else if first_unsupported(blocks[from].tensors) is Some {
        from + 1
    } else {
        copied_blocks(blocks, from + 1)
    }
}

/// Why the blocks from `from` on cannot all be exported, if they cannot.
pub open spec fn export_error(blocks: Seq<BlockView>, from: int) -> Option<EngineErrorView>
    decreases blocks.len() - from,
{
    if from >= blocks.len() {
        None
    } else {
        match first_unsupported(blocks[from].tensors) {
            Some(e) => Some(e),
            None => export_error(blocks, from + 1),
        }
    }
}

/// The bytes of the first `n` blocks, one behind the other.
pub open spec fn blocks_data(m: ModelView, blocks: Seq<BlockView>, n: int) -> Seq<u8>
    decreases n,
{
    if n <= 0 {
        Seq::empty()
    } else {
        blocks_data(m, blocks, n - 1) + model_laws::joined_data(m, blocks[n - 1].tensors)
    }
}

/// A pinned buffer after the first `n` blocks were copied to it.
pub open spec fn filled(m: ModelView, dest: Seq<u8>, blocks: Seq<BlockView>, n: int) -> Seq<u8> {
    blocks_data(m, blocks, n) + dest.skip(block_start(blocks, n) as int)
}

/// A model that has been found to fit in pinned memory, and its blocks in the
/// order of the engine.
#[derive(Debug)]
pub struct EnginePlan<'m, 'a> {
    model: &'m Model<'a>,
    blocks: Vec<Block>,
    total: u64,
}

/// What an [`EnginePlan`] says.
#[verifier::ext_equal]
pub struct PlanView {
    pub model: ModelView,
    pub blocks: Seq<BlockView>,
    pub total: u64,
}

impl<'m, 'a> View for EnginePlan<'m, 'a> {
    type V = PlanView;

    closed spec fn view(&self) -> PlanView {
        PlanView {
            model: self.model@,
            blocks: block::block_views(self.blocks@),
            total: self.total,
        }
    }
}

/// The blocks as they lie in the pinned buffer.
#[derive(Debug)]
pub struct PinnedLayout {
    pub blocks: NameMap<BlockMeta>,
    pub block_order: Vec<String>,
    pub shared_bytes: u64,
}

/// Copies one block to its place in the pinned buffer.
fn copy_to_place(m: &Model, blk: &Block, pinned: &mut [u8], at: usize, n: usize) -> (r: Vec<
    TensorLayout,
>)
    requires
        m@.wf(),
        blk@.model_id == m@.id,
        model_laws::consistent(m@, blk@.tensors),
        n == model::total_bytes(blk@.tensors),
        at + n <= old(pinned)@.len(),
    ensures
        model::layout_views(r@) == model::layout_of(blk@.tensors),
        final(pinned)@ == old(pinned)@.take(at as int) + model_laws::joined_data(
            m@,
            blk@.tensors,
        ) + old(pinned)@.skip(at + n),
{
    let ghost ds = blk@.tensors;
    let ghost before = pinned@;
    proof {
        model_laws::lemma_room(m@, ds, n as int);
        model_laws::lemma_nothing_missing(m@, ds);
        model_laws::lemma_joined_len(m@, ds);
    }
    let (_, tail) = pinned.split_at_mut(at);
    let (place, _) = tail.split_at_mut(n);
    let ghost dest = place@;
    match m.copy_block_into(blk, place) {
        Ok(layout) => {
            proof {
                model_laws::lemma_copy_is_concatenation(m@, dest, ds);
                assert(model::copied(m@, dest, ds) =~= model_laws::joined_data(m@, ds));
                assert(pinned@ =~= before.take(at as int) + model_laws::joined_data(m@, ds)
                    + before.skip(at + n));
            }
            layout
        },
        Err(_) => {
            assert(false);
            Vec::new()
        },
    }
}

/// Describes the tensors of a block that begins at `start` in the pinned buffer.
fn describe_block(blk: &Block, layout: &Vec<TensorLayout>, start: u64, bytes: u64) -> (r: Result<
    BlockMeta,
    EngineError,
>)
    requires
        model::layout_views(layout@) == model::layout_of(blk@.tensors),
        bytes == model::total_bytes(blk@.tensors),
        start + bytes <= u64::MAX,
    ensures
        match r {
            Ok(meta) => first_unsupported(blk@.tensors) is None && meta@ == block_meta(
                blk@,
                start as nat,
            ),
            Err(e) => first_unsupported(blk@.tensors) == Some(e@),
        },
{
    let ghost ds = blk@.tensors;
    let mut tensors: Vec<TensorMeta> = Vec::with_capacity(blk.tensors.len());
    let mut i: usize = 0;
    proof {
        assert(ds.take(0) =~= Seq::<DescriptorView>::empty());
        if ds.len() > 0 {
            model_laws::lemma_layout_entry(ds, 0);
        }
        assert(layout@.len() == model::layout_of(ds).len());
    }
    while i < blk.tensors.len()
        invariant
            i <= blk.tensors@.len(),
            ds == blk@.tensors,
            blk.tensors@.len() == ds.len(),
            ds.len() > 0 ==> layout@.len() == ds.len(),
            model::layout_views(layout@) == model::layout_of(ds),
            start + model::total_bytes(ds) <= u64::MAX,
            first_unsupported(ds.take(i as int)) is None,
            tensors@.len() == i,
            forall|j: int|
                0 <= j < i ==> (#[trigger] tensors@[j])@ == tensor_meta(ds, start as nat, j),
        decreases blk.tensors@.len() - i,
    {
        let d = &blk.tensors[i];
        proof {
            assert(ds[i as int] == d@);
            assert(ds.take(i + 1).drop_last() =~= ds.take(i as int));
            model_laws::lemma_layout_entry(ds, i as int);
            model::lemma_total_bytes_prefix(ds, i as int);
            assert(model::layout_views(layout@)[i as int] == layout@[i as int]@);
        }
        match dl_dtype(d.name.as_str(), d.dtype) {
            Ok(_) => {},
            Err(e) => {
                proof {
                    lemma_first_unsupported(ds, i + 1);
                }
                return Err(e);
            },
        }
        let shape = d.shape.clone();
        assert(shape@ =~= d.shape@);
        let l = &layout[i];
        tensors.push(
            TensorMeta {
                name: d.name.clone(),
                pinned_offset: start + l.offset,
                len: l.len,
                dtype: d.dtype,
                shape,
            },
        );
        i = i + 1;
    }
    assert(ds.take(i as int) =~= ds);
    let meta = BlockMeta { id: blk.id.clone(), tensors, total_bytes: bytes };
    assert(meta@.tensors =~= block_meta(blk@, start as nat).tensors);
    Ok(meta)
}

proof fn lemma_first_unsupported(ds: Seq<DescriptorView>, k: int)
    requires
        0 <= k <= ds.len(),
        first_unsupported(ds.take(k)) is Some,
    ensures
        first_unsupported(ds) == first_unsupported(ds.take(k)),
    decreases ds.len(),
{
    if k == ds.len() {
        assert(ds.take(k) =~= ds);
    } else {
        assert(ds.drop_last().take(k) =~= ds.take(k));
        lemma_first_unsupported(ds.drop_last(), k);
    }
}

impl<'m, 'a> EnginePlan<'m, 'a> {
    #[verifier::type_invariant]
    spec fn inv(&self) -> bool {
        &&& self@.model.wf()
        &&& own_blocks(self@.model, self@.blocks)
        &&& self@.total == blocks_total(self@.blocks)
    }

    /// Groups a model into blocks and holds their size against a budget.
    pub fn new(model: &'m Model<'a>, families: Option<&Vec<String>>, budget_bytes: u64) -> (r:
        Result<EnginePlan<'m, 'a>, EngineError>)
        requires
            blocks_total(
                planned_blocks(
                    model@,
                    config_of(
                        match families {
                            Some(labels) => Some(catalog::name_views(labels@)),
                            None => None,
                        },
                    ),
                ),
            ) <= u64::MAX,
        ensures
            ({
                let blocks = planned_blocks(
                    model@,
                    config_of(
                        match families {
                            Some(labels) => Some(catalog::name_views(labels@)),
                            None => None,
                        },
                    ),
                );
                match r {
                    Ok(plan) => blocks_total(blocks) <= budget_bytes && plan@ == (PlanView {
                        model: model@,
                        blocks,
                        total: blocks_total(blocks) as u64,
                    }),
                    Err(e) => blocks_total(blocks) > budget_bytes && e@ == (
                    EngineErrorView::BudgetExceeded {
                        needed: blocks_total(blocks) as u64,
                        budget: budget_bytes,
                    }),
                }
            }),
    {
        let config = engine_config(families);
        let blocks = order_blocks(model.blocks(&config));
        proof {
            lemma_planned_blocks_own(model@, config@);
        }
        let total = sum_blocks(&blocks);
        if total > budget_bytes {
            return Err(EngineError::BudgetExceeded { needed: total, budget: budget_bytes });
        }
        Ok(EnginePlan { model, blocks, total })
    }

    /// How many bytes of pinned memory are needed.
    pub fn pinned_bytes(&self) -> (r: u64)
        ensures
            r == self@.total,
            self@.total == blocks_total(self@.blocks),
    {
        proof {
            use_type_invariant(self);
        }
        self.total
    }

    /// Copies every block to the pinned buffer, one behind the other, and says
    /// where each tensor went. A tensor that cannot be exported is an error now,
    /// not when it is first used.
    pub fn fill(&self, pinned: &mut [u8]) -> (r: Result<PinnedLayout, EngineError>)
        requires
            old(pinned)@.len() == self@.total,
        ensures
            final(pinned)@ == filled(
                self@.model,
                old(pinned)@,
                self@.blocks,
                copied_blocks(self@.blocks, 0),
            ),
            match r {
                Ok(p) => {
                    let n = self@.blocks.len() as int;
                    &&& export_error(self@.blocks, 0) is None
                    &&& block_meta_views(p.blocks) == meta_map(self@.blocks, n)
                    &&& catalog::name_views(p.block_order@) == streamed_ids(self@.blocks, n)
                    &&& p.shared_bytes == shared_size(self@.blocks, n)
                },
                Err(e) => export_error(self@.blocks, 0) == Some(e@),
            },
    {
        proof {
            use_type_invariant(self);
        }
        let ghost m = self.model@;
        let ghost all = self@.blocks;
        let ghost before = pinned@;
        let mut blocks: NameMap<BlockMeta> = NameMap::new();
        let mut block_order: Vec<String> = Vec::new();
        let mut shared_bytes: u64 = 0;
        let mut offset: u64 = 0;
        let mut i: usize = 0;
        proof {
            assert(all.take(0) =~= Seq::<BlockView>::empty());
            assert(block_meta_views(blocks) =~= Map::empty());
            assert(catalog::name_views(block_order@) =~= Seq::empty());
            assert(before.skip(0) =~= before);
            assert(pinned@ =~= filled(m, before, all, 0));
        }
        while i < self.blocks.len()
            invariant
                i <= self.blocks@.len(),
                all == block::block_views(self.blocks@),
                all == self@.blocks,
                m == self.model@,
                m == self@.model,
                m.wf(),
                own_blocks(m, all),
                before.len() == blocks_total(all),
                before == old(pinned)@,
                blocks_total(all) <= u64::MAX,
                offset == block_start(all, i as int),
                pinned@ == filled(m, before, all, i as int),
                pinned@.len() == before.len(),
                block_meta_views(blocks) == meta_map(all, i as int),
                catalog::name_views(block_order@) == streamed_ids(all, i as int),
                shared_bytes == shared_size(all, i as int),
                export_error(all, 0) == export_error(all, i as int),
                copied_blocks(all, 0) == copied_blocks(all, i as int),
            decreases self.blocks@.len() - i,
        {
            let blk = &self.blocks[i];
            proof {
                assert(all[i as int] == blk@);
                assert(all.take(i + 1).drop_last() =~= all.take(i as int));
                lemma_blocks_total_prefix(all, i + 1);
                assert(blk@.model_id == m.id && model_laws::consistent(m, blk@.tensors));
                assert(pinned.len() == before.len());
            }
            let block_bytes = sum_bytes(&blk.tensors);
            let ghost sofar = pinned@;
            let layout = copy_to_place(
                self.model,
                blk,
                pinned,
                offset as usize,
                block_bytes as usize,
            );
            proof {
                lemma_blocks_data_len(m, all, i as int);
                model_laws::lemma_joined_len(m, blk@.tensors);
                assert(sofar.take(offset as int) =~= blocks_data(m, all, i as int));
                assert(sofar.skip(offset + block_bytes) =~= before.skip(offset + block_bytes));
                assert(pinned@ =~= filled(m, before, all, i + 1));
                assert(pinned@.len() == before.len());
            }
            let meta = match describe_block(blk, &layout, offset, block_bytes) {
                Ok(meta) => meta,
                Err(e) => {
                    return Err(e);
                },
            };
            if same_text(blk.id.as_str(), UNASSIGNED) {
                shared_bytes = block_bytes;
            } else {
                let ghost ids = catalog::name_views(block_order@);
                block_order.push(blk.id.clone());
                assert(catalog::name_views(block_order@) =~= ids.push(blk@.id));
            }
            let ghost known = block_meta_views(blocks);
            let ghost view = meta@;
            blocks.insert(blk.id.as_str(), meta);
            assert(block_meta_views(blocks) =~= known.insert(blk@.id, view));
            offset = offset + block_bytes;
            i = i + 1;
        }
        Ok(PinnedLayout { blocks, block_order, shared_bytes })
    }
}

pub proof fn lemma_blocks_data_len(m: ModelView, blocks: Seq<BlockView>, n: int)
    requires
        m.wf(),
        own_blocks(m, blocks),
        0 <= n <= blocks.len(),
    ensures
        blocks_data(m, blocks, n).len() == block_start(blocks, n),
    decreases n,
{
    if n > 0 {
        lemma_blocks_data_len(m, blocks, n - 1);
        assert(blocks.take(n).drop_last() =~= blocks.take(n - 1));
        assert(blocks[n - 1].model_id == m.id);
        model_laws::lemma_joined_len(m, blocks[n - 1].tensors);
    } else {
        assert(blocks.take(0) =~= Seq::<BlockView>::empty());
    }
}

/// The tensors of a layout are seen one by one, each field under its own name.
pub proof fn lemma_tensor_metas_seen(ts: Seq<TensorMeta>, i: int)
    requires
        0 <= i < ts.len(),
    ensures
        tensor_meta_views(ts).len() == ts.len(),
        tensor_meta_views(ts)[i].name == ts[i].name@,
        tensor_meta_views(ts)[i].pinned_offset == ts[i].pinned_offset,
        tensor_meta_views(ts)[i].len == ts[i].len,
        tensor_meta_views(ts)[i].dtype == ts[i].dtype,
        tensor_meta_views(ts)[i].shape == ts[i].shape@,
{
}

/// The blocks of a layout are seen under their ids, with all their tensors and bytes.
pub proof fn lemma_block_metas_seen(blocks: NameMap<BlockMeta>, id: Seq<char>)
    ensures
        block_meta_views(blocks).contains_key(id) <==> blocks@.contains_key(id),
        blocks@.contains_key(id) ==> {
            let b = block_meta_views(blocks)[id];
            &&& b.id == blocks@[id].id@
            &&& b.tensors == tensor_meta_views(blocks@[id].tensors@)
            &&& b.total_bytes == blocks@[id].total_bytes
        },
{
}

/// An error of the engine is seen as what it is, each field under its own name.
pub proof fn lemma_engine_error_seen(e: EngineError)
    ensures
        e matches EngineError::Loader(x) ==> e@ == EngineErrorView::Loader(x@),
        e matches EngineError::BudgetExceeded { needed, budget } ==> e@ == (
        EngineErrorView::BudgetExceeded { needed, budget }),
        e matches EngineError::UnsupportedDtype { name, dtype } ==> e@ == (
        EngineErrorView::UnsupportedDtype { name: name@, dtype }),
        e matches EngineError::BlockNotResident(id) ==> e@ == EngineErrorView::BlockNotResident(id@),
        e matches EngineError::UnknownBlock(id) ==> e@ == EngineErrorView::UnknownBlock(id@),
{
}

} // verus!
