//! The streaming engine's bookkeeping: which blocks stay on the GPU, which block
//! each slot of the ring holds, and what has to be copied where when a block is
//! asked for. Device memory, streams and events are the caller's.

use vstd::prelude::*;

use crate::block::{BlockView, UNASSIGNED};
use crate::catalog;
use crate::descriptor::DescriptorView;
use crate::dlpack;
use crate::dlpack::DlDtype;
use crate::engine_plan;
use crate::engine_plan::{
    dl_dtype, BlockMeta, BlockMetaView, EngineError, EngineErrorView, EnginePlan, PinnedLayout,
    TensorMetaView,
};
use crate::model;
use crate::name_map;
use crate::name_map::NameMap;
use crate::residency;
use crate::residency::choose_resident;
use crate::text::same_text;

verus! {

/// Counters of an engine.
#[derive(Clone, Copy, PartialEq, Eq, Structural, Debug)]
pub struct Stats {
    pub bytes_h2d: u64,
    pub transfer_count: u64,
    /// How often a block was still in a slot of the ring.
    pub cache_hits: u64,
    pub pinned_bytes: u64,
    pub vram_bytes: u64,
    /// The bytes of the blocks that stay.
    pub resident_bytes: u64,
    /// How often a block was asked for that stays. A cache hit had its transfer
    /// before; a resident hit never has one.
    pub resident_hits: u64,
}

impl Default for Stats {
    fn default() -> (r: Self)
        ensures
            r == (Stats {
                bytes_h2d: 0,
                transfer_count: 0,
                cache_hits: 0,
                pinned_bytes: 0,
                vram_bytes: 0,
                resident_bytes: 0,
                resident_hits: 0,
            }),
    {
        Stats {
            bytes_h2d: 0,
            transfer_count: 0,
            cache_hits: 0,
            pinned_bytes: 0,
            vram_bytes: 0,
            resident_bytes: 0,
            resident_hits: 0,
        }
    }
}

/// A slot of the ring.
#[derive(Debug)]
struct Slot {
    occupant: Option<String>,
    /// The consumer has said that it is done with what the slot holds, and the
    /// next copy into the slot has to wait for that.
    freed: bool,
}

/// What a slot of the ring holds.
#[verifier::ext_equal]
pub struct SlotView {
    pub occupant: Option<Seq<char>>,
    pub freed: bool,
}

impl View for Slot {
    type V = SlotView;

    closed spec fn view(&self) -> SlotView {
        SlotView {
            occupant: match self.occupant {
                Some(id) => Some(id@),
                None => None,
            },
            freed: self.freed,
        }
    }
}

/// A copy that has been asked for and not been reported as issued.
#[derive(Debug)]
struct Pending {
    slot: usize,
    id: String,
    bytes: u64,
}

/// One copy to the ring.
#[derive(Debug)]
pub struct BlockTiming {
    pub id: String,
    pub bytes: u64,
    /// Always false: a block that stays is never copied to the ring.
    pub resident: bool,
}

/// What to do for a block that was asked for.
#[derive(Debug)]
pub enum Transfer {
    /// The block stays on the GPU: number `at` of the resident blocks.
    Resident { at: usize },
    /// These are the shared tensors, which have a buffer of their own for good.
    Shared,
    /// A slot of the ring still holds the block.
    Cached { slot: usize },
    /// The block has to be copied from the pinned buffer to a slot, after waiting
    /// for the consumer of the slot's last block where `wait` says so. There is
    /// nothing to wait for where that consumer was never reported done: the copy
    /// then overwrites what it may still be reading, and it is for the caller to
    /// mark each block done before its slot comes round again.
    Copy { slot: usize, wait: bool, pinned_offset: u64, bytes: u64 },
}

/// The state of an engine.
#[derive(Debug)]
pub struct RustEngine {
    blocks: NameMap<BlockMeta>,
    block_order: Vec<String>,
    shared_bytes: u64,
    resident_ids: Vec<String>,
    resident: NameMap<usize>,
    slot_bytes: u64,
    slots: Vec<Slot>,
    next_slot: usize,
    pending: Option<Pending>,
    /// The shared tensors have been asked for.
    shared_fetched: bool,
    stats: Stats,
    timings: Vec<BlockTiming>,
}

/// What the state of an engine is.
#[verifier::ext_equal]
pub struct EngineView {
    pub blocks: Map<Seq<char>, BlockMetaView>,
    pub block_order: Seq<Seq<char>>,
    pub shared_bytes: u64,
    pub resident_ids: Seq<Seq<char>>,
    pub resident: Map<Seq<char>, usize>,
    pub slot_bytes: u64,
    pub slots: Seq<SlotView>,
    pub next_slot: usize,
    pub pending: Option<(usize, Seq<char>, u64)>,
    pub shared_fetched: bool,
    pub stats: Stats,
    pub timings: Seq<(Seq<char>, u64, bool)>,
}

/// What the slots of a ring hold.
spec fn slot_views(slots: Seq<Slot>) -> Seq<SlotView> {
    slots.map_values(|s: Slot| s@)
}

/// What the records of copies say.
pub open spec fn timing_views(timings: Seq<BlockTiming>) -> Seq<(Seq<char>, u64, bool)> {
    timings.map_values(|t: BlockTiming| (t.id@, t.bytes, t.resident))
}

impl View for RustEngine {
    type V = EngineView;

    closed spec fn view(&self) -> EngineView {
        EngineView {
            blocks: engine_plan::block_meta_views(self.blocks),
            block_order: catalog::name_views(self.block_order@),
            shared_bytes: self.shared_bytes,
            resident_ids: catalog::name_views(self.resident_ids@),
            resident: self.resident@,
            slot_bytes: self.slot_bytes,
            slots: slot_views(self.slots@),
            next_slot: self.next_slot,
            pending: match self.pending {
                Some(p) => Some((p.slot, p.id@, p.bytes)),
                None => None,
            },
            shared_fetched: self.shared_fetched,
            stats: self.stats,
            timings: timing_views(self.timings@),
        }
    }
}

/// The tensors of a block lie one behind the other in the pinned buffer, within
/// the bytes of the block, and can be exported.
pub open spec fn well_placed(b: BlockMetaView, pinned_bytes: u64) -> bool {
    &&& b.tensors.len() == 0 ==> b.total_bytes == 0
    &&& forall|i: int|
        0 <= i < b.tensors.len() ==> {
            let t = #[trigger] b.tensors[i];
            &&& b.tensors[0].pinned_offset <= t.pinned_offset
            &&& t.pinned_offset + t.len <= b.tensors[0].pinned_offset + b.total_bytes
            &&& b.tensors[0].pinned_offset + b.total_bytes <= pinned_bytes
            &&& dlpack::exported(t.dtype) is Some
        }
}

/// The block is neither that of the shared tensors nor one that stays.
pub open spec fn is_streamed(
    blocks: Map<Seq<char>, BlockMetaView>,
    resident: Map<Seq<char>, usize>,
    id: Seq<char>,
) -> bool {
    blocks.contains_key(id) && id != UNASSIGNED@ && !resident.contains_key(id)
}

impl EngineView {
    /// The slot that holds a block, from `from` on.
    pub open spec fn slot_of(self, id: Seq<char>, from: int) -> Option<int>
        decreases self.slots.len() - from,
    {
        if from >= self.slots.len() {
            None
        } else if self.slots[from].occupant == Some(id) {
            Some(from)
        } else {
            self.slot_of(id, from + 1)
        }
    }

    /// No slot holds this block.
    pub open spec fn not_in_ring(self, id: Seq<char>) -> bool {
        forall|i: int| 0 <= i < self.slots.len() ==> (#[trigger] self.slots[i]).occupant != Some(id)
    }

    /// The block is copied to the ring when it is asked for.
    #[verifier::inline]
    pub open spec fn streamed(self, id: Seq<char>) -> bool {
        is_streamed(self.blocks, self.resident, id)
    }

    /// The ring has slots; they hold streamed blocks and none twice; and every
    /// block that is streamed fits in a slot.
    pub open spec fn wf(self) -> bool {
        &&& self.next_slot < self.slots.len() <= usize::MAX
        &&& self.shared_bytes > 0 ==> self.blocks.contains_key(UNASSIGNED@)
        &&& self.blocks.contains_key(UNASSIGNED@) ==> self.blocks[UNASSIGNED@].total_bytes
            == self.shared_bytes
        &&& self.shared_fetched ==> self.blocks.contains_key(UNASSIGNED@)
        &&& forall|id: Seq<char>| #[trigger]
            self.blocks.contains_key(id) ==> self.blocks[id].id == id && well_placed(
                self.blocks[id],
                self.stats.pinned_bytes,
            )
        &&& forall|i: int|
            0 <= i < self.block_order.len() ==> self.blocks.contains_key(
                #[trigger] self.block_order[i],
            ) && self.block_order[i] != UNASSIGNED@
        &&& forall|id: Seq<char>| #[trigger]
            self.resident.contains_key(id) ==> self.blocks.contains_key(id) && id != UNASSIGNED@
                && self.resident[id] < self.resident_ids.len()
                && self.resident_ids[self.resident[id] as int] == id
        &&& forall|i: int|
            0 <= i < self.resident_ids.len() ==> self.resident.contains_key(
                #[trigger] self.resident_ids[i],
            )
        &&& forall|id: Seq<char>| #[trigger]
            self.streamed(id) ==> self.blocks[id].total_bytes <= self.slot_bytes
        &&& forall|i: int|
            0 <= i < self.slots.len() ==> match (#[trigger] self.slots[i]).occupant {
                Some(id) => self.streamed(id),
                None => true,
            }
        &&& forall|i: int, j: int|
            0 <= i < j < self.slots.len() && (#[trigger] self.slots[i]).occupant is Some
                ==> self.slots[i].occupant != (#[trigger] self.slots[j]).occupant
        &&& match self.pending {
            Some((slot, id, bytes)) => slot < self.slots.len() && self.streamed(id) && bytes
                == self.blocks[id].total_bytes && self.not_in_ring(id),
            None => true,
        }
    }
}

/// The sizes of some blocks.
pub open spec fn sizes_of(ids: Seq<Seq<char>>, blocks: Map<Seq<char>, BlockMetaView>) -> Seq<u64> {
    ids.map_values(|id: Seq<char>| blocks[id].total_bytes)
}

/// The size of the largest of the first `n` blocks that does not stay.
pub open spec fn largest_streamed(
    ids: Seq<Seq<char>>,
    sizes: Seq<u64>,
    resident: Map<Seq<char>, usize>,
    n: int,
) -> u64
    decreases n,
{
    if n <= 0 {
        0
    } else {
        let before = largest_streamed(ids, sizes, resident, n - 1);
        if !resident.contains_key(ids[n - 1]) && sizes[n - 1] > before {
            sizes[n - 1]
        } else {
            before
        }
    }
}

/// Which entry of the first `n` resident blocks stands for an id: the last.
pub open spec fn resident_map(ids: Seq<Seq<char>>, n: int) -> Map<Seq<char>, usize>
    decreases n,
{
    if n <= 0 {
        Map::empty()
    } else {
        resident_map(ids, n - 1).insert(ids[n - 1], (n - 1) as usize)
    }
}

/// The ids of the blocks that stay, in the order in which they were chosen.
pub open spec fn resident_ids_of(
    order: Seq<Seq<char>>,
    blocks: Map<Seq<char>, BlockMetaView>,
    budget: u64,
) -> Seq<Seq<char>> {
    residency::resident(sizes_of(order, blocks), budget).0.map_values(|p: int| order[p])
}

pub open spec fn max_of(a: int, b: int) -> int {
    if a < b {
        b
    } else {
        a
    }
}

/// How many bytes of device memory an engine takes: the shared tensors, the
/// blocks that stay, and the ring, whose slots are never empty.
pub open spec fn vram_total(shared: int, resident: int, slots: int, slot_bytes: int) -> int {
    shared + resident + slots * max_of(slot_bytes, 1)
}

/// How many bytes of device memory an engine takes whose blocks lie so in the
/// pinned buffer.
pub open spec fn vram_needed(
    blocks: Map<Seq<char>, BlockMetaView>,
    order: Seq<Seq<char>>,
    shared_bytes: u64,
    vram_slots: usize,
    resident_budget: u64,
) -> int {
    let sizes = sizes_of(order, blocks);
    let stays = resident_ids_of(order, blocks, resident_budget);
    vram_total(
        shared_bytes as int,
        residency::resident(sizes, resident_budget).1 as int,
        max_of(vram_slots as int, 1),
        largest_streamed(
            order,
            sizes,
            resident_map(stays, stays.len() as int),
            order.len() as int,
        ) as int,
    )
}

/// An engine at its start.
pub open spec fn engine_of(
    blocks: Map<Seq<char>, BlockMetaView>,
    order: Seq<Seq<char>>,
    shared_bytes: u64,
    pinned_bytes: u64,
    vram_slots: usize,
    resident_budget: u64,
) -> EngineView {
    let resident_ids = resident_ids_of(order, blocks, resident_budget);
    let resident_bytes = residency::resident(sizes_of(order, blocks), resident_budget).1;
    let resident = resident_map(resident_ids, resident_ids.len() as int);
    let slot_bytes = largest_streamed(
        order,
        sizes_of(order, blocks),
        resident,
        order.len() as int,
    );
    let slots = max_of(vram_slots as int, 1);
    EngineView {
        blocks,
        block_order: order,
        shared_bytes,
        resident_ids,
        resident,
        slot_bytes,
        slots: Seq::new(slots as nat, |i: int| SlotView { occupant: None, freed: false }),
        next_slot: 0,
        pending: None,
        shared_fetched: false,
        stats: Stats {
            bytes_h2d: 0,
            transfer_count: 0,
            cache_hits: 0,
            pinned_bytes,
            vram_bytes: vram_total(
                shared_bytes as int,
                resident_bytes as int,
                slots,
                slot_bytes as int,
            ) as u64,
            resident_bytes: resident_bytes as u64,
            resident_hits: 0,
        },
        timings: Seq::empty(),
    }
}

/// Every block lies in the pinned buffer, and all but the shared tensors are
/// streamed.
pub open spec fn layout_ok(
    blocks: Map<Seq<char>, BlockMetaView>,
    order: Seq<Seq<char>>,
    shared_bytes: u64,
    pinned_bytes: u64,
) -> bool {
    &&& shared_bytes > 0 ==> blocks.contains_key(UNASSIGNED@)
    &&& blocks.contains_key(UNASSIGNED@) ==> blocks[UNASSIGNED@].total_bytes == shared_bytes
    &&& forall|id: Seq<char>| #[trigger]
        blocks.contains_key(id) ==> blocks[id].id == id && well_placed(blocks[id], pinned_bytes)
            && (id == UNASSIGNED@ || order.contains(id))
    &&& forall|i: int|
        0 <= i < order.len() ==> blocks.contains_key(#[trigger] order[i]) && order[i]
            != UNASSIGNED@
}

proof fn lemma_well_placed(b: BlockView, start: nat, pinned_bytes: u64)
    requires
        start + model::total_bytes(b.tensors) <= pinned_bytes,
        engine_plan::first_unsupported(b.tensors) is None,
    ensures
        well_placed(engine_plan::block_meta(b, start), pinned_bytes),
{
    let meta = engine_plan::block_meta(b, start);
    let ds = b.tensors;
    assert(ds.take(0) =~= Seq::<DescriptorView>::empty());
    assert forall|i: int| 0 <= i < meta.tensors.len() implies {
        let t = #[trigger] meta.tensors[i];
        &&& meta.tensors[0].pinned_offset <= t.pinned_offset
        &&& t.pinned_offset + t.len <= meta.tensors[0].pinned_offset + meta.total_bytes
        &&& meta.tensors[0].pinned_offset + meta.total_bytes <= pinned_bytes
        &&& dlpack::exported(t.dtype) is Some
    } by {
        model::lemma_total_bytes_prefix(ds, i + 1);
        assert(ds.take(i + 1).drop_last() =~= ds.take(i));
        assert(meta.tensors[0].pinned_offset == start);
        lemma_supported(ds, i);
    }
}

proof fn lemma_supported(ds: Seq<DescriptorView>, i: int)
    requires
        0 <= i < ds.len(),
        engine_plan::first_unsupported(ds) is None,
    ensures
        dlpack::exported(ds[i].dtype) is Some,
    decreases ds.len(),
{
    if i < ds.len() - 1 {
        lemma_supported(ds.drop_last(), i);
    }
}

proof fn lemma_all_supported(blocks: Seq<BlockView>, from: int, k: int)
    requires
        0 <= from <= k < blocks.len(),
        engine_plan::export_error(blocks, from) is None,
    ensures
        engine_plan::first_unsupported(blocks[k].tensors) is None,
    decreases blocks.len() - from,
{
    if from < k {
        lemma_all_supported(blocks, from + 1, k);
    }
}

/// What a plan copies to the pinned buffer can be streamed from it.
pub proof fn lemma_layout_ok(blocks: Seq<BlockView>, n: int, pinned_bytes: u64)
    requires
        0 <= n <= blocks.len(),
        engine_plan::blocks_total(blocks) <= pinned_bytes,
        engine_plan::export_error(blocks, 0) is None,
    ensures
        layout_ok(
            engine_plan::meta_map(blocks, n),
            engine_plan::streamed_ids(blocks, n),
            engine_plan::shared_size(blocks, n) as u64,
            pinned_bytes,
        ),
        engine_plan::shared_size(blocks, n) <= pinned_bytes,
    decreases n,
{
    if n > 0 {
        lemma_layout_ok(blocks, n - 1, pinned_bytes);
        let b = blocks[n - 1];
        let start = engine_plan::block_start(blocks, n - 1);
        engine_plan::lemma_blocks_total_prefix(blocks, n);
        assert(blocks.take(n).drop_last() =~= blocks.take(n - 1));
        lemma_all_supported(blocks, 0, n - 1);
        lemma_well_placed(b, start, pinned_bytes);
        let before = engine_plan::meta_map(blocks, n - 1);
        let after = engine_plan::meta_map(blocks, n);
        let ids = engine_plan::streamed_ids(blocks, n - 1);
        let order = engine_plan::streamed_ids(blocks, n);
        assert forall|id: Seq<char>| #[trigger] after.contains_key(id) implies after[id].id == id
            && well_placed(after[id], pinned_bytes) && (id == UNASSIGNED@ || order.contains(id)) by {
            if id == b.id {
                if id != UNASSIGNED@ {
                    assert(order[order.len() - 1] == id);
                }
            } else {
                assert(before.contains_key(id));
                if id != UNASSIGNED@ {
                    let j = choose|j: int| 0 <= j < ids.len() && ids[j] == id;
                    assert(order[j] == id);
                }
            }
        }
        assert forall|i: int| 0 <= i < order.len() implies after.contains_key(
            #[trigger] order[i],
        ) && order[i] != UNASSIGNED@ by {
            if i < ids.len() {
                assert(before.contains_key(ids[i]));
            }
        }
    }
}

pub proof fn lemma_distance(from: int, at: int, n: int)
    requires
        0 <= from < n,
        0 <= at < n,
    ensures
        distance(from, at, n) == if at >= from {
            at - from
        } else {
            at + n - from
        },
{
    if at >= from {
        vstd::arithmetic::div_mod::lemma_mod_add_multiples_vanish(at - from, n);
        vstd::arithmetic::div_mod::lemma_small_mod((at - from) as nat, n as nat);
    } else {
        vstd::arithmetic::div_mod::lemma_small_mod((at + n - from) as nat, n as nat);
    }
}

pub proof fn lemma_next_slot(slot: int, count: int)
    requires
        0 <= slot < count,
    ensures
        (slot + 1) % count == if slot + 1 == count {
            0
        } else {
            slot + 1
        },
{
    if slot + 1 < count {
        vstd::arithmetic::div_mod::lemma_small_mod((slot + 1) as nat, count as nat);
    } else {
        vstd::arithmetic::div_mod::lemma_mod_self_0(count);
    }
}

pub proof fn lemma_slot_of_same(a: EngineView, b: EngineView, id: Seq<char>, from: int)
    requires
        a.slots == b.slots,
    ensures
        a.slot_of(id, from) == b.slot_of(id, from),
    decreases a.slots.len() - from,
{
    if from < a.slots.len() {
        lemma_slot_of_same(a, b, id, from + 1);
    }
}

/// A block that the search of the ring does not find is in no slot.
pub proof fn lemma_not_in_ring(e: EngineView, id: Seq<char>, from: int)
    requires
        0 <= from,
    ensures
        match e.slot_of(id, from) {
            None => forall|i: int|
                from <= i < e.slots.len() ==> (#[trigger] e.slots[i]).occupant != Some(id),
            Some(slot) => from <= slot < e.slots.len() && e.slots[slot].occupant == Some(id),
        },
    decreases e.slots.len() - from,
{
    if from < e.slots.len() && e.slots[from].occupant != Some(id) {
        lemma_not_in_ring(e, id, from + 1);
    }
}

/// Asking for a copy leaves an engine in good order.
pub proof fn lemma_same_ring_wf(before: EngineView, after: EngineView, id: Seq<char>)
    requires
        before.wf(),
        issued(before, id) matches Ok((t, e)) && t is Copy && e == after,
    ensures
        after.wf(),
{
    let slot = before.next_slot as int;
    lemma_not_in_ring(before, id, 0);
    lemma_next_slot(slot, before.slots.len() as int);
    assert forall|i: int| 0 <= i < after.slots.len() implies (#[trigger] after.slots[i]).occupant
        == before.slots[i].occupant by {}
    assert forall|i: int, j: int|
        0 <= i < j < after.slots.len() && (#[trigger] after.slots[i]).occupant
            is Some implies after.slots[i].occupant != (#[trigger] after.slots[j]).occupant by {
        assert(before.slots[i].occupant != before.slots[j].occupant);
    }
    assert forall|i: int| 0 <= i < after.slots.len() implies match (
    #[trigger] after.slots[i]).occupant {
        Some(x) => after.streamed(x),
        None => true,
    } by {
        assert(before.slots[i].occupant == after.slots[i].occupant);
    }
    assert(after.not_in_ring(id));
}

/// Recording a copy leaves an engine in good order.
pub proof fn lemma_completed_wf(before: EngineView)
    requires
        before.wf(),
    ensures
        completed(before).wf(),
{
    let after = completed(before);
    match before.pending {
        None => {},
        Some((slot, id, bytes)) => {
            assert forall|i: int, j: int|
                0 <= i < j < after.slots.len() && (#[trigger] after.slots[i]).occupant
                    is Some implies after.slots[i].occupant != (
            #[trigger] after.slots[j]).occupant by {
                assert(before.slots[i].occupant != Some(id));
                assert(before.slots[j].occupant != Some(id));
                if i != slot && j != slot {
                    assert(before.slots[i].occupant != before.slots[j].occupant);
                }
            }
            assert forall|i: int| 0 <= i < after.slots.len() implies match (
            #[trigger] after.slots[i]).occupant {
                Some(x) => after.streamed(x),
                None => true,
            } by {
                if i != slot {
                    assert(before.slots[i] == after.slots[i]);
                }
            }
        },
    }
}

/// A consumer that is done leaves an engine in good order.
pub proof fn lemma_released_wf(before: EngineView, slot: int)
    requires
        before.wf(),
        0 <= slot < before.slots.len(),
    ensures
        released(before, slot).wf(),
{
    let after = released(before, slot);
    assert forall|i: int| 0 <= i < after.slots.len() implies (#[trigger] after.slots[i]).occupant
        == before.slots[i].occupant by {}
    assert forall|i: int, j: int|
        0 <= i < j < after.slots.len() && (#[trigger] after.slots[i]).occupant
            is Some implies after.slots[i].occupant != (#[trigger] after.slots[j]).occupant by {
        assert(before.slots[i].occupant != before.slots[j].occupant);
    }
    assert forall|i: int| 0 <= i < after.slots.len() implies match (
    #[trigger] after.slots[i]).occupant {
        Some(x) => after.streamed(x),
        None => true,
    } by {
        assert(before.slots[i].occupant == after.slots[i].occupant);
    }
}

/// What the largest streamed block bounds.
proof fn lemma_largest(
    ids: Seq<Seq<char>>,
    sizes: Seq<u64>,
    resident: Map<Seq<char>, usize>,
    n: int,
)
    requires
        0 <= n <= ids.len(),
    ensures
        forall|i: int|
            0 <= i < n && !resident.contains_key(#[trigger] ids[i]) ==> sizes[i]
                <= largest_streamed(ids, sizes, resident, n),
    decreases n,
{
    if n > 0 {
        lemma_largest(ids, sizes, resident, n - 1);
    }
}

/// Every block that stays is found by its id.
pub proof fn lemma_resident_map(ids: Seq<Seq<char>>, n: int)
    requires
        0 <= n <= ids.len(),
        ids.len() <= usize::MAX,
    ensures
        forall|id: Seq<char>| #[trigger]
            resident_map(ids, n).contains_key(id) ==> resident_map(ids, n)[id] < n
                && ids[resident_map(ids, n)[id] as int] == id,
        forall|i: int| 0 <= i < n ==> resident_map(ids, n).contains_key(#[trigger] ids[i]),
    decreases n,
{
    if n > 0 {
        lemma_resident_map(ids, n - 1);
        let before = resident_map(ids, n - 1);
        let after = resident_map(ids, n);
        assert forall|id: Seq<char>| #[trigger] after.contains_key(id) implies after[id] < n
            && ids[after[id] as int] == id by {
            if id != ids[n - 1] {
                assert(before.contains_key(id));
            }
        }
    }
}

/// An engine at its start is in good order.
pub proof fn lemma_engine_starts_well(
    blocks: Map<Seq<char>, BlockMetaView>,
    order: Seq<Seq<char>>,
    shared_bytes: u64,
    pinned_bytes: u64,
    vram_slots: usize,
    resident_budget: u64,
)
    requires
        layout_ok(blocks, order, shared_bytes, pinned_bytes),
        order.len() <= usize::MAX,
        resident_ids_of(order, blocks, resident_budget).len() <= usize::MAX,
    ensures
        engine_of(
            blocks,
            order,
            shared_bytes,
            pinned_bytes,
            vram_slots,
            resident_budget,
        ).wf(),
{
    let e = engine_of(blocks, order, shared_bytes, pinned_bytes, vram_slots, resident_budget);
    let ids = e.resident_ids;
    lemma_resident_map(ids, ids.len() as int);
    lemma_largest(order, sizes_of(order, blocks), e.resident, order.len() as int);
    residency::lemma_resident_within_budget(sizes_of(order, blocks), resident_budget);
    let positions = residency::resident(sizes_of(order, blocks), resident_budget).0;
    assert forall|id: Seq<char>| #[trigger] e.resident.contains_key(
        id,
    ) implies e.blocks.contains_key(id) && id != UNASSIGNED@ by {
        let at = e.resident[id] as int;
        assert(positions.contains(positions[at]));
        assert(ids[at] == order[positions[at]]);
        assert(blocks.contains_key(order[positions[at]]));
    }
    assert forall|id: Seq<char>| #[trigger] e.streamed(id) implies e.blocks[id].total_bytes
        <= e.slot_bytes by {
        assert(order.contains(id));
        let i = choose|i: int| 0 <= i < order.len() && order[i] == id;
        assert(sizes_of(order, blocks)[i] == blocks[id].total_bytes);
    }
}

impl RustEngine {
    /// Fills the pinned buffer with the blocks of a plan and decides where each
    /// block goes on the GPU.
    pub fn new(
        plan: &EnginePlan,
        pinned: &mut [u8],
        vram_slots: usize,
        resident_budget_bytes: u64,
    ) -> (r: Result<RustEngine, EngineError>)
        requires
            old(pinned)@.len() == plan@.total,
            ({
                let n = plan@.blocks.len() as int;
                vram_needed(
                    engine_plan::meta_map(plan@.blocks, n),
                    engine_plan::streamed_ids(plan@.blocks, n),
                    engine_plan::shared_size(plan@.blocks, n) as u64,
                    vram_slots,
                    resident_budget_bytes,
                ) <= u64::MAX
            }),
        ensures
            final(pinned)@ == engine_plan::filled(
                plan@.model,
                old(pinned)@,
                plan@.blocks,
                engine_plan::copied_blocks(plan@.blocks, 0),
            ),
            match r {
                Ok(e) => {
                    let n = plan@.blocks.len() as int;
                    &&& engine_plan::export_error(plan@.blocks, 0) is None
                    &&& e@.wf()
                    &&& e@ == engine_of(
                        engine_plan::meta_map(plan@.blocks, n),
                        engine_plan::streamed_ids(plan@.blocks, n),
                        engine_plan::shared_size(plan@.blocks, n) as u64,
                        plan@.total,
                        vram_slots,
                        resident_budget_bytes,
                    )
                },
                Err(e) => engine_plan::export_error(plan@.blocks, 0) == Some(e@),
            },
    {
        let total = plan.pinned_bytes();
        let layout = match plan.fill(pinned) {
            Ok(layout) => layout,
            Err(e) => {
                return Err(e);
            },
        };
        proof {
            lemma_layout_ok(plan@.blocks, plan@.blocks.len() as int, total);
        }
        Ok(RustEngine::from_layout(layout, total, vram_slots, resident_budget_bytes))
    }

    /// Decides where each block of a filled pinned buffer goes on the GPU.
    pub fn from_layout(
        layout: PinnedLayout,
        pinned_bytes: u64,
        vram_slots: usize,
        resident_budget_bytes: u64,
    ) -> (r: RustEngine)
        requires
            layout_ok(
                engine_plan::block_meta_views(layout.blocks),
                catalog::name_views(layout.block_order@),
                layout.shared_bytes,
                pinned_bytes,
            ),
            vram_needed(
                engine_plan::block_meta_views(layout.blocks),
                catalog::name_views(layout.block_order@),
                layout.shared_bytes,
                vram_slots,
                resident_budget_bytes,
            ) <= u64::MAX,
        ensures
            r@.wf(),
            r@ == engine_of(
                engine_plan::block_meta_views(layout.blocks),
                catalog::name_views(layout.block_order@),
                layout.shared_bytes,
                pinned_bytes,
                vram_slots,
                resident_budget_bytes,
            ),
    {
        let ghost blocks = engine_plan::block_meta_views(layout.blocks);
        let ghost order = catalog::name_views(layout.block_order@);
        let ghost expected = engine_of(
            blocks,
            order,
            layout.shared_bytes,
            pinned_bytes,
            vram_slots,
            resident_budget_bytes,
        );
        let ghost stays = resident_ids_of(order, blocks, resident_budget_bytes);
        assert forall|j: int| 0 <= j < layout.block_order@.len() implies blocks.contains_key(
            (#[trigger] layout.block_order@[j])@,
        ) by {
            assert(blocks.contains_key(order[j]));
        }
        let sizes = block_sizes(&layout.block_order, &layout.blocks);
        let (resident_ids, resident, resident_bytes) = choose_blocks(
            &layout.block_order,
            &sizes,
            resident_budget_bytes,
        );
        assert(catalog::name_views(resident_ids@) == stays);

        let slot_bytes = largest_block(&layout.block_order, &sizes, &resident);
        let slot_count: usize = if vram_slots < 1 {
            1
        } else {
            vram_slots
        };
        let slot_size: u64 = if slot_bytes < 1 {
            1
        } else {
            slot_bytes
        };
        let mut slots: Vec<Slot> = Vec::new();
        let mut k: usize = 0;
        while k < slot_count
            invariant
                k <= slot_count,
                slots@.len() == k,
                forall|j: int|
                    0 <= j < k ==> (#[trigger] slots@[j])@ == (SlotView {
                        occupant: None,
                        freed: false,
                    }),
            decreases slot_count - k,
        {
            slots.push(Slot { occupant: None, freed: false });
            k = k + 1;
        }
        assert(slot_count * slot_size >= 0) by (nonlinear_arith);
        let ring_bytes: u64 = slot_count as u64 * slot_size;
        let vram_bytes: u64 = layout.shared_bytes + resident_bytes + ring_bytes;
        let stats = Stats {
            bytes_h2d: 0,
            transfer_count: 0,
            cache_hits: 0,
            pinned_bytes,
            vram_bytes,
            resident_bytes,
            resident_hits: 0,
        };
        let r = RustEngine {
            blocks: layout.blocks,
            block_order: layout.block_order,
            shared_bytes: layout.shared_bytes,
            resident_ids,
            resident,
            slot_bytes,
            slots,
            next_slot: 0,
            pending: None,
            shared_fetched: false,
            stats,
            timings: Vec::new(),
        };
        proof {
            assert(r@.slots =~= expected.slots);
            assert(r@.timings =~= expected.timings);
            assert(r@ =~= expected);
            assert(order.len() == r.block_order.len());
            assert(stays.len() == r.resident_ids.len());
            lemma_engine_starts_well(
                blocks,
                order,
                layout.shared_bytes,
                pinned_bytes,
                vram_slots,
                resident_budget_bytes,
            );
        }
        r
    }
}

/// Chooses the blocks that stay: their ids in the order in which they were chosen,
/// where each stands there, and how many bytes they have together.
fn choose_blocks(order: &Vec<String>, sizes: &Vec<u64>, budget: u64) -> (r: (
    Vec<String>,
    NameMap<usize>,
    u64,
))
    requires
        sizes@.len() == order@.len(),
    ensures
        catalog::name_views(r.0@) == residency::resident(sizes@, budget).0.map_values(
            |p: int| catalog::name_views(order@)[p],
        ),
        r.1@ == resident_map(catalog::name_views(r.0@), r.0@.len() as int),
        r.2 == residency::resident(sizes@, budget).1,
{
    let ghost ids = catalog::name_views(order@);
    let ghost stays = residency::resident(sizes@, budget).0.map_values(|p: int| ids[p]);
    let (positions, total) = choose_resident(sizes, budget);
    let mut chosen: Vec<String> = Vec::new();
    let mut index: NameMap<usize> = NameMap::new();
    let mut i: usize = 0;
    assert(index@ =~= resident_map(stays, 0));
    while i < positions.len()
        invariant
            i <= positions@.len(),
            ids == catalog::name_views(order@),
            stays == residency::as_positions(positions@).map_values(|p: int| ids[p]),
            forall|j: int| 0 <= j < positions@.len() ==> #[trigger] positions@[j] < order@.len(),
            chosen@.len() == i,
            forall|j: int| 0 <= j < i ==> (#[trigger] chosen@[j])@ == stays[j],
            index@ == resident_map(stays, i as int),
        decreases positions@.len() - i,
    {
        let p = positions[i];
        assert(stays[i as int] == ids[p as int]);
        let id = order[p].clone();
        index.insert(id.as_str(), i);
        chosen.push(id);
        i = i + 1;
    }
    assert(catalog::name_views(chosen@) =~= stays);
    (chosen, index, total)
}

/// How many bytes of device memory an engine takes, if they can be counted.
pub fn device_bytes(layout: &PinnedLayout, vram_slots: usize, resident_budget_bytes: u64) -> (r:
    Option<u64>)
    requires
        forall|i: int|
            0 <= i < layout.block_order@.len() ==> engine_plan::block_meta_views(
                layout.blocks,
            ).contains_key((#[trigger] layout.block_order@[i])@),
    ensures
        ({
            let needed = vram_needed(
                engine_plan::block_meta_views(layout.blocks),
                catalog::name_views(layout.block_order@),
                layout.shared_bytes,
                vram_slots,
                resident_budget_bytes,
            );
            match r {
                Some(n) => n == needed,
                None => needed > u64::MAX,
            }
        }),
{
    let sizes = block_sizes(&layout.block_order, &layout.blocks);
    let (_, resident, resident_bytes) = choose_blocks(
        &layout.block_order,
        &sizes,
        resident_budget_bytes,
    );
    let largest = largest_block(&layout.block_order, &sizes, &resident);
    let slot_count: u64 = if vram_slots < 1 {
        1
    } else {
        vram_slots as u64
    };
    let slot_size: u64 = if largest < 1 {
        1
    } else {
        largest
    };
    assert(slot_count * slot_size >= 0) by (nonlinear_arith);
    match slot_count.checked_mul(slot_size) {
        None => None,
        Some(ring) => match ring.checked_add(resident_bytes) {
            None => None,
            Some(streamed) => streamed.checked_add(layout.shared_bytes),
        },
    }
}

/// The sizes of blocks, in their order.
fn block_sizes(order: &Vec<String>, blocks: &NameMap<BlockMeta>) -> (r: Vec<u64>)
    requires
        forall|i: int|
            0 <= i < order@.len() ==> engine_plan::block_meta_views(*blocks).contains_key(
                (#[trigger] order@[i])@,
            ),
    ensures
        r@ == sizes_of(catalog::name_views(order@), engine_plan::block_meta_views(*blocks)),
{
    let ghost map = engine_plan::block_meta_views(*blocks);
    let mut out: Vec<u64> = Vec::new();
    let mut i: usize = 0;
    while i < order.len()
        invariant
            i <= order@.len(),
            map == engine_plan::block_meta_views(*blocks),
            forall|j: int| 0 <= j < order@.len() ==> map.contains_key((#[trigger] order@[j])@),
            out@.len() == i,
            forall|j: int| 0 <= j < i ==> #[trigger] out@[j] == map[order@[j]@].total_bytes,
        decreases order@.len() - i,
    {
        assert(map.contains_key(order@[i as int]@));
        match blocks.get(order[i].as_str()) {
            Some(meta) => {
                out.push(meta.total_bytes);
            },
            None => {
                assert(false);
            },
        }
        i = i + 1;
    }
    assert(out@ =~= sizes_of(catalog::name_views(order@), map));
    out
}

/// The size of the largest block that does not stay.
fn largest_block(order: &Vec<String>, sizes: &Vec<u64>, resident: &NameMap<usize>) -> (r: u64)
    requires
        sizes@.len() == order@.len(),
    ensures
        r == largest_streamed(
            catalog::name_views(order@),
            sizes@,
            resident@,
            order@.len() as int,
        ),
{
    let ghost ids = catalog::name_views(order@);
    let mut largest: u64 = 0;
    let mut i: usize = 0;
    while i < order.len()
        invariant
            i <= order@.len(),
            ids == catalog::name_views(order@),
            sizes@.len() == order@.len(),
            largest == largest_streamed(ids, sizes@, resident@, i as int),
        decreases order@.len() - i,
    {
        assert(ids[i as int] == order@[i as int]@);
        if resident.get(order[i].as_str()).is_none() && sizes[i] > largest {
            largest = sizes[i];
        }
        i = i + 1;
    }
    largest
}

/// Where a block begins in the pinned buffer: the least offset of its tensors.
pub open spec fn least_offset(ts: Seq<TensorMetaView>) -> u64
    decreases ts.len(),
{
    if ts.len() == 0 {
        0
    } else if ts.len() == 1 || ts.last().pinned_offset < least_offset(ts.drop_last()) {
        ts.last().pinned_offset
    } else {
        least_offset(ts.drop_last())
    }
}

/// The least offset of a block's tensors in the pinned buffer.
pub fn block_pinned_start_offset(meta: &BlockMeta) -> (r: u64)
    ensures
        r == least_offset(meta@.tensors),
{
    let ghost ts = meta@.tensors;
    let mut least: u64 = 0;
    let mut i: usize = 0;
    assert(ts.take(0) =~= Seq::<TensorMetaView>::empty());
    while i < meta.tensors.len()
        invariant
            i <= meta.tensors@.len(),
            ts == meta@.tensors,
            least == least_offset(ts.take(i as int)),
        decreases meta.tensors@.len() - i,
    {
        let offset: u64 = meta.tensors[i].pinned_offset;
        assert(ts[i as int] == meta.tensors@[i as int]@);
        assert(ts.take(i + 1).drop_last() =~= ts.take(i as int));
        if i == 0 || offset < least {
            least = offset;
        }
        i = i + 1;
    }
    assert(ts.take(i as int) =~= ts);
    least
}

pub proof fn lemma_least_offset(ts: Seq<TensorMetaView>)
    requires
        ts.len() > 0,
        forall|i: int|
            0 <= i < ts.len() ==> ts[0].pinned_offset <= (#[trigger] ts[i]).pinned_offset,
    ensures
        least_offset(ts) == ts[0].pinned_offset,
    decreases ts.len(),
{
    if ts.len() > 1 {
        let rest = ts.drop_last();
        assert forall|i: int| 0 <= i < rest.len() implies rest[0].pinned_offset <= (
        #[trigger] rest[i]).pinned_offset by {
            assert(ts[0].pinned_offset <= ts[i].pinned_offset);
        }
        lemma_least_offset(rest);
        assert(ts[0].pinned_offset <= ts[ts.len() - 1].pinned_offset);
    }
}

/// Where a copy of a block begins in the pinned buffer.
pub open spec fn source_offset(b: BlockMetaView) -> u64 {
    if b.tensors.len() > 0 {
        b.tensors[0].pinned_offset
    } else {
        0
    }
}

/// What is done for a block that is asked for, and the engine after it.
pub open spec fn issued(e: EngineView, id: Seq<char>) -> Result<
    (Transfer, EngineView),
    EngineErrorView,
> {
    if id == UNASSIGNED@ && e.blocks.contains_key(id) {
        Ok((Transfer::Shared, EngineView { pending: None, shared_fetched: true, ..e }))
    } else if e.resident.contains_key(id) {
        Ok(
            (
                Transfer::Resident { at: e.resident[id] },
                EngineView {
                    pending: None,
                    stats: Stats {
                        resident_hits: (e.stats.resident_hits + 1) as u64,
                        ..e.stats
                    },
                    ..e
                },
            ),
        )
    } else {
        match e.slot_of(id, 0) {
            Some(slot) => Ok(
                (
                    Transfer::Cached { slot: slot as usize },
                    EngineView {
                        pending: None,
                        stats: Stats { cache_hits: (e.stats.cache_hits + 1) as u64, ..e.stats },
                        ..e
                    },
                ),
            ),
            None => if e.blocks.contains_key(id) {
                let slot = e.next_slot;
                let b = e.blocks[id];
                Ok(
                    (
                        Transfer::Copy {
                            slot,
                            wait: e.slots[slot as int].freed,
                            pinned_offset: source_offset(b),
                            bytes: b.total_bytes,
                        },
                        EngineView {
                            slots: e.slots.update(
                                slot as int,
                                SlotView { occupant: e.slots[slot as int].occupant, freed: false },
                            ),
                            next_slot: ((slot + 1) % (e.slots.len() as int)) as usize,
                            pending: Some((slot, id, b.total_bytes)),
                            ..e
                        },
                    ),
                )
            } else {
                Err(EngineErrorView::UnknownBlock(id))
            },
        }
    }
}

/// An engine after the copy that it asked for was issued.
pub open spec fn completed(e: EngineView) -> EngineView {
    match e.pending {
        None => e,
        Some((slot, id, bytes)) => EngineView {
            slots: e.slots.update(
                slot as int,
                SlotView { occupant: Some(id), freed: e.slots[slot as int].freed },
            ),
            pending: None,
            stats: Stats {
                bytes_h2d: (e.stats.bytes_h2d + bytes) as u64,
                transfer_count: (e.stats.transfer_count + 1) as u64,
                ..e.stats
            },
            timings: e.timings.push((id, bytes, false)),
            ..e
        },
    }
}

/// The slot that the consumer of a block was using. A block that stays has none, nor
/// have the shared tensors once they were asked for: nothing ever takes their place.
pub open spec fn slot_in_use(e: EngineView, id: Seq<char>) -> Result<Option<int>, EngineErrorView> {
    if e.resident.contains_key(id) || (id == UNASSIGNED@ && e.shared_fetched) {
        Ok(None)
    } else {
        match e.slot_of(id, 0) {
            Some(slot) => Ok(Some(slot)),
            None => Err(EngineErrorView::BlockNotResident(id)),
        }
    }
}

/// An engine after the consumer of a slot was done.
pub open spec fn released(e: EngineView, slot: int) -> EngineView {
    EngineView {
        slots: e.slots.update(slot, SlotView { occupant: e.slots[slot].occupant, freed: true }),
        ..e
    }
}

/// The first position of an id, from `from` on.
pub open spec fn position_of(ids: Seq<Seq<char>>, id: Seq<char>, from: int) -> Option<int>
    decreases ids.len() - from,
{
    if from >= ids.len() {
        None
    } else if ids[from] == id {
        Some(from)
    } else {
        position_of(ids, id, from + 1)
    }
}

/// How many blocks run between position `from` and the next time that position
/// `at` runs, where the last block is followed by the first.
pub open spec fn distance(from: int, at: int, n: int) -> int {
    (at + n - from) % n
}

/// What is exported of a tensor whose block begins at `base` in device memory.
#[derive(Debug)]
pub struct TensorExport {
    pub name: String,
    pub device_ptr: u64,
    pub dtype: DlDtype,
    pub shape: Vec<usize>,
}

/// What a [`TensorExport`] says.
#[verifier::ext_equal]
pub struct ExportView {
    pub name: Seq<char>,
    pub device_ptr: u64,
    pub dtype: DlDtype,
    pub shape: Seq<usize>,
}

impl View for TensorExport {
    type V = ExportView;

    open spec fn view(&self) -> ExportView {
        ExportView {
            name: self.name@,
            device_ptr: self.device_ptr,
            dtype: self.dtype,
            shape: self.shape@,
        }
    }
}

/// What the exports of a list say.
pub open spec fn export_views(es: Seq<TensorExport>) -> Seq<ExportView> {
    es.map_values(|e: TensorExport| e@)
}

/// The exports of a block that begins at `slot_base` in device memory.
pub open spec fn exports_of(b: BlockMetaView, slot_base: u64) -> Seq<ExportView> {
    b.tensors.map_values(
        |t: TensorMetaView|
            ExportView {
                name: t.name,
                device_ptr: (slot_base + (t.pinned_offset - least_offset(b.tensors))) as u64,
                dtype: dlpack::exported(t.dtype)->0,
                shape: t.shape,
            },
    )
}

impl RustEngine {
    pub fn stats(&self) -> (r: Stats)
        ensures
            r == self@.stats,
    {
        self.stats
    }

    /// The ids of the streamed and resident blocks, in the order in which they run.
    pub fn block_ids(&self) -> (r: Vec<String>)
        ensures
            catalog::name_views(r@) == self@.block_order,
    {
        let r = self.block_order.clone();
        assert(catalog::name_views(r@) =~= catalog::name_views(self.block_order@));
        r
    }

    /// The ids of the blocks that stay, each once.
    pub fn resident_block_ids(&self) -> (r: Vec<String>)
        ensures
            catalog::name_views(r@) == name_map::ordered(self@.resident.dom()),
    {
        let n: usize = self.resident.len();
        let mut out: Vec<String> = Vec::new();
        let mut i: usize = 0;
        while i < n
            invariant
                i <= n == self.resident.keys().len(),
                out@.len() == i,
                forall|j: int| 0 <= j < i ==> (#[trigger] out@[j])@ == self.resident.keys()[j],
            decreases n - i,
        {
            out.push(self.resident.key_at(i).to_owned());
            i = i + 1;
        }
        proof {
            self.resident.lemma_contents();
            assert(catalog::name_views(out@) =~= self.resident.keys());
        }
        out
    }

    /// How many blocks were chosen to stay.
    pub fn resident_count(&self) -> (r: usize)
        ensures
            r == self@.resident_ids.len(),
    {
        self.resident_ids.len()
    }

    /// Where resident block number `at` begins in the pinned buffer, and its size.
    pub fn resident_source(&self, at: usize) -> (r: (u64, u64))
        requires
            self@.wf(),
            at < self@.resident_ids.len(),
        ensures
            r.0 == least_offset(self@.blocks[self@.resident_ids[at as int]].tensors),
            r.1 == self@.blocks[self@.resident_ids[at as int]].total_bytes,
    {
        assert(self@.resident_ids[at as int] == self.resident_ids@[at as int]@);
        assert(self@.resident.contains_key(self@.resident_ids[at as int]));
        match self.blocks.get(self.resident_ids[at].as_str()) {
            Some(meta) => (block_pinned_start_offset(meta), meta.total_bytes),
            None => {
                assert(false);
                (0, 0)
            },
        }
    }

    /// Where the shared tensors begin in the pinned buffer, and their size, if they
    /// have any bytes.
    pub fn shared_source(&self) -> (r: Option<(u64, u64)>)
        requires
            self@.wf(),
        ensures
            match r {
                Some((offset, bytes)) => {
                    &&& self@.shared_bytes > 0
                    &&& self@.blocks.contains_key(UNASSIGNED@)
                    &&& offset == least_offset(self@.blocks[UNASSIGNED@].tensors)
                    &&& bytes == self@.shared_bytes
                },
                None => self@.shared_bytes == 0,
            },
    {
        if self.shared_bytes == 0 {
            return None;
        }
        match self.blocks.get(UNASSIGNED) {
            Some(meta) => Some((block_pinned_start_offset(meta), self.shared_bytes)),
            None => {
                assert(false);
                None
            },
        }
    }

    /// The size of the shared tensors, which have no slot where it is zero.
    pub fn shared_bytes(&self) -> (r: u64)
        ensures
            r == self@.shared_bytes,
    {
        self.shared_bytes
    }

    /// How large a slot of the ring has to be.
    pub fn slot_bytes(&self) -> (r: u64)
        ensures
            r == self@.slot_bytes,
    {
        self.slot_bytes
    }

    pub fn slot_count(&self) -> (r: usize)
        ensures
            r == self@.slots.len(),
    {
        self.slots.len()
    }

    /// The copies to the ring so far.
    pub fn timings(&self) -> (r: &Vec<BlockTiming>)
        ensures
            timing_views(r@) == self@.timings,
    {
        &self.timings
    }

    /// For each block how many blocks run before its turn comes, counted from a
    /// given block; the block itself is at distance zero.
    pub fn next_use_distances(&self, from_block_id: &str) -> (r: Result<
        Vec<(String, u64)>,
        EngineError,
    >)
        ensures
            match r {
                Ok(out) => {
                    let n = self@.block_order.len() as int;
                    &&& position_of(self@.block_order, from_block_id@, 0) matches Some(from)
                    &&& out@.len() == n
                    &&& forall|i: int|
                        0 <= i < n ==> (#[trigger] out@[i]).0@ == self@.block_order[i]
                            && out@[i].1 == distance(from, i, n)
                },
                Err(e) => position_of(self@.block_order, from_block_id@, 0) is None && e@
                    == EngineErrorView::UnknownBlock(from_block_id@),
            },
    {
        let ghost order = self@.block_order;
        let n: usize = self.block_order.len();
        let mut from: usize = 0;
        while from < n && !same_text(self.block_order[from].as_str(), from_block_id)
            invariant
                from <= n == self.block_order@.len(),
                order == catalog::name_views(self.block_order@),
                position_of(order, from_block_id@, 0) == position_of(
                    order,
                    from_block_id@,
                    from as int,
                ),
            decreases n - from,
        {
            assert(order[from as int] == self.block_order@[from as int]@);
            from = from + 1;
        }
        if from == n {
            return Err(EngineError::UnknownBlock(from_block_id.to_owned()));
        }
        assert(order[from as int] == self.block_order@[from as int]@);
        let mut out: Vec<(String, u64)> = Vec::new();
        let mut i: usize = 0;
        while i < n
            invariant
                i <= n == self.block_order@.len(),
                from < n,
                order == catalog::name_views(self.block_order@),
                out@.len() == i,
                forall|j: int|
                    0 <= j < i ==> (#[trigger] out@[j]).0@ == order[j] && out@[j].1 == distance(
                        from as int,
                        j,
                        n as int,
                    ),
            decreases n - i,
        {
            let dist: usize = if i >= from {
                i - from
            } else {
                i + (n - from)
            };
            proof {
                lemma_distance(from as int, i as int, n as int);
                assert(order[i as int] == self.block_order@[i as int]@);
            }
            out.push((self.block_order[i].clone(), dist as u64));
            i = i + 1;
        }
        Ok(out)
    }

    /// The slot of the ring that holds a block.
    fn slot_holding(&self, block_id: &str) -> (r: Option<usize>)
        ensures
            match r {
                Some(slot) => self@.slot_of(block_id@, 0) == Some(slot as int) && slot
                    < self@.slots.len(),
                None => self@.slot_of(block_id@, 0) is None,
            },
    {
        let mut i: usize = 0;
        while i < self.slots.len()
            invariant
                i <= self.slots@.len(),
                self@.slot_of(block_id@, 0) == self@.slot_of(block_id@, i as int),
            decreases self.slots@.len() - i,
        {
            assert(self@.slots[i as int] == self.slots@[i as int]@);
            match &self.slots[i].occupant {
                Some(id) => {
                    if same_text(id.as_str(), block_id) {
                        return Some(i);
                    }
                },
                None => {},
            }
            i = i + 1;
        }
        None
    }

    /// Decides what has to be done so that a block is on the GPU. The shared tensors
    /// have a buffer of their own; blocks that stay come next and are never copied;
    /// then the ring; and a block that is nowhere is copied to the slot whose turn
    /// it is. The copy waits for the consumer of that slot's last block only where
    /// [`RustEngine::record_done`] has reported it done: a slot whose consumer was
    /// never reported is overwritten without a wait.
    pub fn issue_transfer(&mut self, block_id: &str) -> (r: Result<Transfer, EngineError>)
        requires
            old(self)@.wf(),
            old(self)@.stats.resident_hits < u64::MAX,
            old(self)@.stats.cache_hits < u64::MAX,
        ensures
            final(self)@.wf(),
            match r {
                Ok(t) => issued(old(self)@, block_id@) == Ok::<_, EngineErrorView>(
                    (t, final(self)@),
                ),
                Err(e) => issued(old(self)@, block_id@) == Err::<(Transfer, EngineView), _>(e@)
                    && final(self)@ == (EngineView { pending: None, ..old(self)@ }),
            },
    {
        let ghost before = self@;
        self.pending = None;
        let ghost cleared = self@;
        assert(cleared =~= EngineView { pending: None, ..before });
        if same_text(block_id, UNASSIGNED) && self.blocks.get(block_id).is_some() {
            self.shared_fetched = true;
            return Ok(Transfer::Shared);
        }
        match self.resident.get(block_id) {
            Some(at) => {
                let at: usize = *at;
                self.stats.resident_hits = self.stats.resident_hits + 1;
                return Ok(Transfer::Resident { at });
            },
            None => {},
        }
        proof {
            lemma_slot_of_same(before, cleared, block_id@, 0);
        }
        match self.slot_holding(block_id) {
            Some(slot) => {
                self.stats.cache_hits = self.stats.cache_hits + 1;
                return Ok(Transfer::Cached { slot });
            },
            None => {},
        }
        let (pinned_offset, bytes) = match self.blocks.get(block_id) {
            None => {
                return Err(EngineError::UnknownBlock(block_id.to_owned()));
            },
            Some(meta) => {
                let offset: u64 = if meta.tensors.len() > 0 {
                    assert(meta@.tensors[0] == meta.tensors@[0]@);
                    meta.tensors[0].pinned_offset
                } else {
                    0
                };
                (offset, meta.total_bytes)
            },
        };
        let slot: usize = self.next_slot;
        let count: usize = self.slots.len();
        self.next_slot = if slot + 1 == count {
            0
        } else {
            slot + 1
        };
        assert(before.slots[slot as int] == self.slots@[slot as int]@);
        let wait = self.slots[slot].freed;
        let entry = &mut self.slots[slot];
        entry.freed = false;
        self.pending = Some(Pending { slot, id: block_id.to_owned(), bytes });
        proof {
            lemma_not_in_ring(before, block_id@, 0);
            lemma_next_slot(slot as int, count as int);
            assert(self@.slots =~= before.slots.update(
                slot as int,
                SlotView { occupant: before.slots[slot as int].occupant, freed: false },
            ));
            assert(issued(before, block_id@)->Ok_0.1 =~= self@);
            lemma_same_ring_wf(before, self@, block_id@);
        }
        Ok(Transfer::Copy { slot, wait, pinned_offset, bytes })
    }

    /// Records that the copy that was asked for last has been issued.
    pub fn finish_transfer(&mut self)
        requires
            old(self)@.wf(),
            old(self)@.pending matches Some((_, _, bytes)) ==> old(self)@.stats.bytes_h2d + bytes
                <= u64::MAX && old(self)@.stats.transfer_count < u64::MAX,
        ensures
            final(self)@.wf(),
            final(self)@ == completed(old(self)@),
    {
        let ghost before = self@;
        let pending = self.pending.take();
        match pending {
            None => {
                assert(self@ =~= before);
            },
            Some(p) => {
                let id = p.id.clone();
                let entry = &mut self.slots[p.slot];
                entry.occupant = Some(p.id);
                self.timings.push(BlockTiming { id, bytes: p.bytes, resident: false });
                self.stats.bytes_h2d = self.stats.bytes_h2d + p.bytes;
                self.stats.transfer_count = self.stats.transfer_count + 1;
                proof {
                    let after = completed(before);
                    assert(self@.slots =~= after.slots);
                    assert(self@.timings =~= after.timings);
                    assert(self@ =~= after);
                    lemma_completed_wf(before);
                }
            },
        }
    }

    /// The slot whose consumer is done with a block. A block that stays has none,
    /// nor have the shared tensors: nothing ever takes their place. A block that no
    /// slot holds is refused, and so are the shared tensors while
    /// [`RustEngine::issue_transfer`] was never asked for them.
    pub fn mark_block_done(&self, block_id: &str) -> (r: Result<Option<usize>, EngineError>)
        ensures
            match r {
                Ok(Some(slot)) => slot_in_use(self@, block_id@) == Ok::<_, EngineErrorView>(
                    Some(slot as int),
                ) && slot < self@.slots.len(),
                Ok(None) => slot_in_use(self@, block_id@) == Ok::<_, EngineErrorView>(None::<int>),
                Err(e) => slot_in_use(self@, block_id@) == Err::<Option<int>, _>(e@),
            },
    {
        if self.resident.get(block_id).is_some() {
            return Ok(None);
        }
        if self.shared_fetched && same_text(block_id, UNASSIGNED) {
            return Ok(None);
        }
        match self.slot_holding(block_id) {
            Some(slot) => Ok(Some(slot)),
            None => Err(EngineError::BlockNotResident(block_id.to_owned())),
        }
    }

    /// Records that the consumer of a slot is done, so that the next copy into the
    /// slot waits for it.
    pub fn record_done(&mut self, slot: usize)
        requires
            old(self)@.wf(),
            slot < old(self)@.slots.len(),
        ensures
            final(self)@.wf(),
            final(self)@ == released(old(self)@, slot as int),
    {
        let ghost before = self@;
        assert(before.slots[slot as int] == self.slots@[slot as int]@);
        let entry = &mut self.slots[slot];
        entry.freed = true;
        proof {
            assert(self@.slots =~= released(before, slot as int).slots);
            lemma_released_wf(before, slot as int);
        }
    }

    /// Describes every tensor of a block that begins at `slot_base` in device
    /// memory.
    pub fn build_tensors(&self, block_id: &str, slot_base: u64) -> (r: Result<
        Vec<TensorExport>,
        EngineError,
    >)
        requires
            self@.wf(),
            self@.blocks.contains_key(block_id@) ==> slot_base
                + self@.blocks[block_id@].total_bytes <= u64::MAX,
        ensures
            match r {
                Ok(es) => self@.blocks.contains_key(block_id@) && export_views(es@) == exports_of(
                    self@.blocks[block_id@],
                    slot_base,
                ),
                Err(e) => !self@.blocks.contains_key(block_id@) && e@
                    == EngineErrorView::UnknownBlock(block_id@),
            },
    {
        let meta = match self.blocks.get(block_id) {
            None => {
                return Err(EngineError::UnknownBlock(block_id.to_owned()));
            },
            Some(meta) => meta,
        };
        let ghost b = meta@;
        let ghost exports = exports_of(b, slot_base);
        assert(self@.blocks.contains_key(block_id@) && self@.blocks[block_id@] == b);
        let base = block_pinned_start_offset(meta);
        proof {
            assert(well_placed(b, self@.stats.pinned_bytes));
            if b.tensors.len() > 0 {
                lemma_least_offset(b.tensors);
            }
        }
        let mut out: Vec<TensorExport> = Vec::with_capacity(meta.tensors.len());
        let mut i: usize = 0;
        while i < meta.tensors.len()
            invariant
                i <= meta.tensors@.len(),
                b == meta@,
                exports == exports_of(b, slot_base),
                base == least_offset(b.tensors),
                b.tensors.len() > 0 ==> base == b.tensors[0].pinned_offset,
                well_placed(b, self@.stats.pinned_bytes),
                slot_base + b.total_bytes <= u64::MAX,
                out@.len() == i,
                forall|j: int| 0 <= j < i ==> (#[trigger] out@[j])@ == exports[j],
            decreases meta.tensors@.len() - i,
        {
            let t = &meta.tensors[i];
            assert(b.tensors[i as int] == t@);
            let within: u64 = t.pinned_offset - base;
            let shape = t.shape.clone();
            assert(shape@ =~= t.shape@);
            match dl_dtype(t.name.as_str(), t.dtype) {
                Ok(dtype) => {
                    let export = TensorExport {
                        name: t.name.clone(),
                        device_ptr: slot_base + within,
                        dtype,
                        shape,
                    };
                    assert(export@ =~= exports[i as int]);
                    out.push(export);
                },
                Err(e) => {
                    assert(false);
                    return Err(e);
                },
            }
            i = i + 1;
        }
        assert(export_views(out@) =~= exports);
        Ok(out)
    }

    /// Describes the shared tensors, which begin at `slot_base` in device memory.
    /// There are none where they take no bytes.
    pub fn get_shared(&self, slot_base: u64) -> (r: Result<Vec<TensorExport>, EngineError>)
        requires
            self@.wf(),
            slot_base + self@.shared_bytes <= u64::MAX,
        ensures
            r matches Ok(es) && if self@.shared_bytes == 0 {
                es@.len() == 0
            } else {
                self@.blocks.contains_key(UNASSIGNED@) && export_views(es@) == exports_of(
                    self@.blocks[UNASSIGNED@],
                    slot_base,
                )
            },
    {
        if self.shared_bytes == 0 {
            return Ok(Vec::new());
        }
        self.build_tensors(UNASSIGNED, slot_base)
    }
}

/// Exports are seen one by one, each field under its own name.
pub proof fn lemma_exports_seen(es: Seq<TensorExport>, i: int)
    requires
        0 <= i < es.len(),
    ensures
        export_views(es).len() == es.len(),
        export_views(es)[i].name == es[i].name@,
        export_views(es)[i].device_ptr == es[i].device_ptr,
        export_views(es)[i].dtype == es[i].dtype,
        export_views(es)[i].shape == es[i].shape@,
{
}

/// Recorded copies are seen one by one, with id, bytes and whether they stay.
pub proof fn lemma_timings_seen(timings: Seq<BlockTiming>, i: int)
    requires
        0 <= i < timings.len(),
    ensures
        timing_views(timings).len() == timings.len(),
        timing_views(timings)[i] == (timings[i].id@, timings[i].bytes, timings[i].resident),
{
}

} // verus!
