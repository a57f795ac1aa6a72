//! What holds of the engine as a whole: copies stay within their buffers, blocks
//! that stay are never streamed, and what is copied is the block's own data.

use vstd::prelude::*;

use crate::block;
use crate::block::{BlockView, ConfigView, UNASSIGNED};
use crate::block_laws;
use crate::descriptor::DescriptorView;
use crate::dlpack;
use crate::engine;
use crate::engine::{EngineView, Stats, Transfer};
use crate::engine_plan;
use crate::engine_plan::{BlockMetaView, EngineErrorView, TensorMetaView};
use crate::model;
use crate::model::ModelView;
use crate::model_laws;
use crate::residency;

verus! {

/// A copy reads within the pinned buffer and writes within its slot.
pub proof fn lemma_copy_within_buffers(e: EngineView, id: Seq<char>)
    requires
        e.wf(),
    ensures
        engine::issued(e, id) matches Ok((Transfer::Copy { slot, pinned_offset, bytes, .. }, _))
            ==> {
            &&& slot < e.slots.len()
            &&& pinned_offset + bytes <= e.stats.pinned_bytes
            &&& bytes <= e.slot_bytes
        },
{
    if e.blocks.contains_key(id) {
        let b = e.blocks[id];
        assert(engine::well_placed(b, e.stats.pinned_bytes));
        if b.tensors.len() > 0 {
            assert(b.tensors[0].pinned_offset + b.total_bytes <= e.stats.pinned_bytes);
        }
        if id != UNASSIGNED@ && !e.resident.contains_key(id) {
            assert(e.streamed(id));
        }
    }
}

/// The shared tensors are never copied to the ring and never in it.
pub proof fn lemma_shared_never_streamed(e: EngineView)
    requires
        e.wf(),
        e.blocks.contains_key(UNASSIGNED@),
    ensures
        engine::issued(e, UNASSIGNED@) == Ok::<_, EngineErrorView>(
            (Transfer::Shared, EngineView { pending: None, shared_fetched: true, ..e }),
        ),
        e.not_in_ring(UNASSIGNED@),
        !e.resident.contains_key(UNASSIGNED@),
        e.blocks[UNASSIGNED@].total_bytes == e.shared_bytes,
{
    assert forall|i: int| 0 <= i < e.slots.len() implies (#[trigger] e.slots[i]).occupant != Some(
        UNASSIGNED@,
    ) by {
        if e.slots[i].occupant == Some(UNASSIGNED@) {
            assert(e.streamed(UNASSIGNED@));
        }
    }
}

/// Whatever block was just fetched can be marked done, the shared tensors included.
/// The slot is the one that holds it; a block that stays has none.
pub proof fn lemma_fetched_can_be_marked(e: EngineView, id: Seq<char>)
    requires
        e.wf(),
        engine::issued(e, id) is Ok,
    ensures
        match engine::slot_in_use(served(e, id), id) {
            Ok(Some(slot)) => e.streamed(id) && 0 <= slot < e.slots.len() && served(
                e,
                id,
            ).slots[slot].occupant == Some(id),
            Ok(None) => e.resident.contains_key(id) || id == UNASSIGNED@,
            Err(_) => false,
        },
{
    let after = served(e, id);
    lemma_served_wf(e, id);
    engine::lemma_not_in_ring(e, id, 0);
    engine::lemma_not_in_ring(after, id, 0);
    match engine::issued(e, id) {
        Ok((Transfer::Copy { slot, .. }, _)) => {
            assert(after.slots[slot as int].occupant == Some(id));
        },
        Ok((Transfer::Cached { slot }, _)) => {
            engine::lemma_slot_of_same(e, after, id, 0);
        },
        _ => {},
    }
}

/// A block that does not stay and that no slot holds cannot be marked done, nor can
/// the shared tensors before they were asked for.
pub proof fn lemma_unfetched_cannot_be_marked(e: EngineView, id: Seq<char>)
    requires
        e.wf(),
        !e.resident.contains_key(id),
        e.not_in_ring(id),
        id == UNASSIGNED@ ==> !e.shared_fetched,
    ensures
        engine::slot_in_use(e, id) == Err::<Option<int>, _>(EngineErrorView::BlockNotResident(id)),
{
    engine::lemma_not_in_ring(e, id, 0);
}

/// A block that stays is never copied and never in the ring.
pub proof fn lemma_resident_never_streamed(e: EngineView, id: Seq<char>)
    requires
        e.wf(),
        e.resident.contains_key(id),
    ensures
        engine::issued(e, id) matches Ok((Transfer::Resident { at }, _)) && at
            < e.resident_ids.len() && e.resident_ids[at as int] == id,
        e.not_in_ring(id),
{
    assert forall|i: int| 0 <= i < e.slots.len() implies (#[trigger] e.slots[i]).occupant != Some(
        id,
    ) by {
        if e.slots[i].occupant == Some(id) {
            assert(e.streamed(id));
        }
    }
}

/// A block that was copied is found in its slot when it is asked for again.
pub proof fn lemma_copied_block_is_cached(e: EngineView, id: Seq<char>)
    requires
        e.wf(),
        engine::issued(e, id) matches Ok((Transfer::Copy { .. }, _)),
    ensures
        engine::issued(e, id) matches Ok((Transfer::Copy { slot, .. }, asked)) && (
        engine::issued(engine::completed(asked), id) matches Ok((t, _)) && t == (
        Transfer::Cached { slot })),
{
    let (t, asked) = engine::issued(e, id)->Ok_0;
    let slot = t->Copy_slot;
    let after = engine::completed(asked);
    engine::lemma_not_in_ring(e, id, 0);
    assert(after.slots[slot as int].occupant == Some(id));
    lemma_slot_found(after, id, 0, slot as int);
}

pub proof fn lemma_slot_found(e: EngineView, id: Seq<char>, from: int, slot: int)
    requires
        0 <= from <= slot < e.slots.len(),
        e.slots[slot].occupant == Some(id),
        forall|i: int|
            0 <= i < e.slots.len() && i != slot ==> (#[trigger] e.slots[i]).occupant != Some(id),
    ensures
        e.slot_of(id, from) == Some(slot),
    decreases slot - from,
{
    if from < slot {
        assert(e.slots[from].occupant != Some(id));
        lemma_slot_found(e, id, from + 1, slot);
    }
}

/// A copy changes the block of one slot, that whose turn it is, and no other.
pub proof fn lemma_copy_changes_one_slot(e: EngineView, id: Seq<char>, other: int)
    requires
        e.wf(),
        engine::issued(e, id) matches Ok((Transfer::Copy { .. }, _)),
        0 <= other < e.slots.len(),
        other != e.next_slot,
    ensures
        engine::issued(e, id) matches Ok((Transfer::Copy { slot, .. }, asked)) && slot
            == e.next_slot && engine::completed(asked).slots[other] == e.slots[other],
{
}

/// The slot whose turn it is after `k` copies.
pub open spec fn slot_after(first: int, k: nat, slots: int) -> int {
    (first + k) % slots
}

/// The ring takes its slots in turn: as many copies as there are slots go to
/// different slots, and the one after them goes to the first again.
pub proof fn lemma_ring_takes_turns(first: int, i: nat, j: nat, slots: int)
    requires
        0 <= first < slots,
        i < j < slots,
    ensures
        slot_after(first, i, slots) != slot_after(first, j, slots),
        slot_after(first, slots as nat, slots) == first,
        slot_after(first, i + 1, slots) == (slot_after(first, i, slots) + 1) % slots,
{
    let a = (first + i) % slots;
    let b = (first + j) % slots;
    if a == b {
        vstd::arithmetic::div_mod::lemma_mod_equivalence(first + j, first + i, slots);
        vstd::arithmetic::div_mod::lemma_small_mod((j - i) as nat, slots as nat);
    }
    vstd::arithmetic::div_mod::lemma_mod_add_multiples_vanish(first, slots);
    vstd::arithmetic::div_mod::lemma_small_mod(first as nat, slots as nat);
    vstd::arithmetic::div_mod::lemma_add_mod_noop(first + i, 1, slots);
    vstd::arithmetic::div_mod::lemma_add_mod_noop_right(1, first + i, slots);
}

/// An engine after a block was asked for and the copy, if one was needed, issued.
pub open spec fn served(e: EngineView, id: Seq<char>) -> EngineView {
    match engine::issued(e, id) {
        Ok((_, asked)) => engine::completed(asked),
        Err(_) => EngineView { pending: None, ..e },
    }
}

/// An engine after some blocks were asked for, one after the other.
pub open spec fn served_all(e: EngineView, ids: Seq<Seq<char>>) -> EngineView
    decreases ids.len(),
{
    if ids.len() == 0 {
        e
    } else {
        served(served_all(e, ids.drop_last()), ids.last())
    }
}

/// Serving a request leaves an engine in good order.
pub proof fn lemma_served_wf(e: EngineView, id: Seq<char>)
    requires
        e.wf(),
    ensures
        served(e, id).wf(),
{
    match engine::issued(e, id) {
        Ok((t, asked)) => {
            if t is Copy {
                engine::lemma_same_ring_wf(e, asked, id);
            }
            engine::lemma_completed_wf(asked);
        },
        Err(_) => {},
    }
}

/// The slot `k` places behind the one that follows `slot` in a ring.
spec fn place_behind(slot: int, k: int, slots: int) -> int {
    if slot + 1 + k < slots {
        slot + 1 + k
    } else {
        slot + 1 + k - slots
    }
}

proof fn lemma_recent_kept(e: EngineView, ids: Seq<Seq<char>>, slot: int, id: Seq<char>) -> (k: int)
    requires
        e.wf(),
        0 <= slot < e.slots.len(),
        ids.len() < e.slots.len(),
        e.slots[slot].occupant == Some(id),
        e.next_slot == place_behind(slot, 0, e.slots.len() as int),
    ensures
        0 <= k <= ids.len(),
        ({
            let after = served_all(e, ids);
            &&& after.wf()
            &&& after.slots.len() == e.slots.len()
            &&& after.slots[slot].occupant == Some(id)
            &&& after.next_slot == place_behind(slot, k, e.slots.len() as int)
        }),
    decreases ids.len(),
{
    if ids.len() == 0 {
        0
    } else {
        let k = lemma_recent_kept(e, ids.drop_last(), slot, id);
        let before = served_all(e, ids.drop_last());
        lemma_served_wf(before, ids.last());
        match engine::issued(before, ids.last()) {
            Ok((Transfer::Copy { slot: at, .. }, _)) => {
                engine::lemma_next_slot(at as int, before.slots.len() as int);
                k + 1
            },
            _ => k,
        }
    }
}

/// A block that was just copied to a ring of several slots stays where it is while
/// fewer blocks than there are slots are asked for behind it. So with two slots
/// the next block can be fetched while this one is in use.
pub proof fn lemma_recent_block_stays(e: EngineView, id: Seq<char>, ids: Seq<Seq<char>>)
    requires
        e.wf(),
        engine::issued(e, id) matches Ok((Transfer::Copy { .. }, _)),
        ids.len() < e.slots.len(),
    ensures
        engine::issued(e, id) matches Ok((Transfer::Copy { slot, .. }, _)) && {
            let after = served_all(served(e, id), ids);
            &&& after.wf()
            &&& after.slots[slot as int].occupant == Some(id)
            &&& after.slot_of(id, 0) == Some(slot as int)
        },
{
    let (t, _) = engine::issued(e, id)->Ok_0;
    let slot = t->Copy_slot as int;
    let now = served(e, id);
    lemma_served_wf(e, id);
    engine::lemma_next_slot(slot, e.slots.len() as int);
    let _k = lemma_recent_kept(now, ids, slot, id);
    let after = served_all(now, ids);
    assert forall|i: int| 0 <= i < after.slots.len() && i != slot implies (
    #[trigger] after.slots[i]).occupant != Some(id) by {
        if i < slot {
            assert(after.slots[i].occupant != after.slots[slot].occupant
                || after.slots[i].occupant is None);
        } else {
            assert(after.slots[slot].occupant != after.slots[i].occupant);
        }
    }
    lemma_slot_found(after, id, 0, slot);
}

/// A copy into a slot whose consumer was recorded as done waits for it.
pub proof fn lemma_copy_waits_for_consumer(e: EngineView, id: Seq<char>)
    requires
        e.wf(),
        engine::issued(e, id) matches Ok((Transfer::Copy { .. }, _)),
    ensures
        engine::issued(e, id) matches Ok((Transfer::Copy { slot, wait, .. }, asked)) && wait
            == e.slots[slot as int].freed && !asked.slots[slot as int].freed,
{
}

/// A request either fails, or counts as exactly one hit, or asks for one copy that
/// is counted with its bytes once it is issued, or is for the shared tensors and
/// counts as nothing.
pub proof fn lemma_requests_are_counted(e: EngineView, id: Seq<char>)
    requires
        e.wf(),
        e.stats.resident_hits < u64::MAX,
        e.stats.cache_hits < u64::MAX,
        e.stats.transfer_count < u64::MAX,
        e.blocks.contains_key(id) ==> e.stats.bytes_h2d + e.blocks[id].total_bytes <= u64::MAX,
    ensures
        match engine::issued(e, id) {
            Err(_) => true,
            Ok((t, asked)) => {
                let s = engine::completed(asked).stats;
                match t {
                    Transfer::Shared => s == e.stats,
                    Transfer::Resident { .. } => s == (Stats {
                        resident_hits: (e.stats.resident_hits + 1) as u64,
                        ..e.stats
                    }),
                    Transfer::Cached { .. } => s == (Stats {
                        cache_hits: (e.stats.cache_hits + 1) as u64,
                        ..e.stats
                    }),
                    Transfer::Copy { bytes, .. } => s == (Stats {
                        bytes_h2d: (e.stats.bytes_h2d + bytes) as u64,
                        transfer_count: (e.stats.transfer_count + 1) as u64,
                        ..e.stats
                    }) && bytes == e.blocks[id].total_bytes,
                }
            },
        },
{
}

/// From any block, the distances to all blocks are different, and that to itself
/// is zero.
pub proof fn lemma_distances_distinct(from: int, i: int, j: int, n: int)
    requires
        0 <= from < n,
        0 <= i < n,
        0 <= j < n,
        i != j,
    ensures
        engine::distance(from, i, n) != engine::distance(from, j, n),
        0 <= engine::distance(from, i, n) < n,
        engine::distance(from, from, n) == 0,
{
    engine::lemma_distance(from, i, n);
    engine::lemma_distance(from, j, n);
    engine::lemma_distance(from, from, n);
}

/// In the order of the plan no two blocks overlap in the pinned buffer, and the
/// last ends where the buffer does.
pub proof fn lemma_blocks_do_not_overlap(blocks: Seq<BlockView>, i: int, j: int)
    requires
        0 <= i < j < blocks.len(),
    ensures
        engine_plan::block_start(blocks, i) + model::total_bytes(blocks[i].tensors)
            <= engine_plan::block_start(blocks, j),
        engine_plan::block_start(blocks, blocks.len() as int) == engine_plan::blocks_total(blocks),
{
    assert(blocks.take(i + 1).drop_last() =~= blocks.take(i));
    let head = blocks.take(j);
    assert(head.take(i + 1) =~= blocks.take(i + 1));
    engine_plan::lemma_blocks_total_prefix(head, i + 1);
    assert(blocks.take(blocks.len() as int) =~= blocks);
}

proof fn lemma_block_data_in_place(m: ModelView, blocks: Seq<BlockView>, k: int, n: int)
    requires
        m.wf(),
        engine_plan::own_blocks(m, blocks),
        0 <= k < n <= blocks.len(),
    ensures
        ({
            let start = engine_plan::block_start(blocks, k) as int;
            let bytes = model::total_bytes(blocks[k].tensors) as int;
            &&& start + bytes <= engine_plan::blocks_data(m, blocks, n).len()
            &&& engine_plan::blocks_data(m, blocks, n).subrange(start, start + bytes)
                == model_laws::joined_data(m, blocks[k].tensors)
        }),
    decreases n,
{
    let start = engine_plan::block_start(blocks, k) as int;
    let bytes = model::total_bytes(blocks[k].tensors) as int;
    let all = engine_plan::blocks_data(m, blocks, n);
    engine_plan::lemma_blocks_data_len(m, blocks, n - 1);
    assert(blocks[n - 1].model_id == m.id);
    model_laws::lemma_joined_len(m, blocks[n - 1].tensors);
    if k == n - 1 {
        assert(all.subrange(start, start + bytes) =~= model_laws::joined_data(
            m,
            blocks[k].tensors,
        ));
    } else {
        lemma_block_data_in_place(m, blocks, k, n - 1);
        let before = engine_plan::blocks_data(m, blocks, n - 1);
        assert(all.subrange(start, start + bytes) =~= before.subrange(start, start + bytes));
    }
}

/// The pinned buffer holds each block's tensors, one behind the other, where the
/// block begins.
pub proof fn lemma_pinned_holds_blocks(
    m: ModelView,
    dest: Seq<u8>,
    blocks: Seq<BlockView>,
    k: int,
)
    requires
        m.wf(),
        engine_plan::own_blocks(m, blocks),
        dest.len() == engine_plan::blocks_total(blocks),
        0 <= k < blocks.len(),
    ensures
        ({
            let start = engine_plan::block_start(blocks, k) as int;
            let bytes = model::total_bytes(blocks[k].tensors) as int;
            &&& engine_plan::filled(m, dest, blocks, blocks.len() as int).len() == dest.len()
            &&& engine_plan::filled(m, dest, blocks, blocks.len() as int).subrange(
                start,
                start + bytes,
            ) == model_laws::joined_data(m, blocks[k].tensors)
        }),
{
    let n = blocks.len() as int;
    let start = engine_plan::block_start(blocks, k) as int;
    let bytes = model::total_bytes(blocks[k].tensors) as int;
    lemma_block_data_in_place(m, blocks, k, n);
    engine_plan::lemma_blocks_data_len(m, blocks, n);
    assert(blocks.take(n) =~= blocks);
    let all = engine_plan::filled(m, dest, blocks, n);
    assert(all.subrange(start, start + bytes) =~= engine_plan::blocks_data(m, blocks, n).subrange(
        start,
        start + bytes,
    ));
}

/// Every tensor of a block is exported within the block's bytes on the device.
pub proof fn lemma_exports_within_block(b: BlockMetaView, pinned_bytes: u64, slot_base: u64, i: int)
    requires
        engine::well_placed(b, pinned_bytes),
        slot_base + b.total_bytes <= u64::MAX,
        0 <= i < b.tensors.len(),
    ensures
        ({
            let x = engine::exports_of(b, slot_base)[i];
            &&& x.name == b.tensors[i].name
            &&& slot_base <= x.device_ptr
            &&& x.device_ptr + b.tensors[i].len <= slot_base + b.total_bytes
        }),
{
    assert forall|j: int| 0 <= j < b.tensors.len() implies b.tensors[0].pinned_offset <= (
    #[trigger] b.tensors[j]).pinned_offset by {}
    engine::lemma_least_offset(b.tensors);
    assert(b.tensors[0].pinned_offset <= b.tensors[i].pinned_offset);
}

proof fn lemma_everything_chosen(sizes: Seq<u64>, order: Seq<int>, budget: u64, n: int)
    requires
        0 <= n <= order.len(),
        residency::bytes_at(sizes, order) <= budget,
    ensures
        residency::chosen(sizes, order, budget, n).0 == order.take(n),
        residency::chosen(sizes, order, budget, n).1 == residency::bytes_at(sizes, order.take(n)),
    decreases n,
{
    if n > 0 {
        lemma_everything_chosen(sizes, order, budget, n - 1);
        assert(order.take(n).drop_last() =~= order.take(n - 1));
        lemma_bytes_at_prefix(sizes, order, n);
        assert(order.take(n) =~= order.take(n - 1).push(order[n - 1]));
    } else {
        assert(order.take(0) =~= Seq::<int>::empty());
    }
}

proof fn lemma_bytes_at_prefix(sizes: Seq<u64>, order: Seq<int>, k: int)
    requires
        0 <= k <= order.len(),
    ensures
        residency::bytes_at(sizes, order.take(k)) <= residency::bytes_at(sizes, order),
    decreases order.len(),
{
    if k == order.len() {
        assert(order.take(k) =~= order);
    } else {
        assert(order.drop_last().take(k) =~= order.take(k));
        lemma_bytes_at_prefix(sizes, order.drop_last(), k);
    }
}

/// A budget for all blocks keeps all of them.
pub proof fn lemma_full_budget_keeps_all(sizes: Seq<u64>, budget: u64)
    requires
        budget > 0,
        residency::bytes_at(sizes, residency::by_size(sizes)) <= budget,
    ensures
        residency::resident(sizes, budget).0 == residency::by_size(sizes),
        forall|p: int| 0 <= p < sizes.len() ==> #[trigger] residency::resident(
            sizes,
            budget,
        ).0.contains(p),
{
    residency::lemma_tried_in_order(sizes);
    let order = residency::by_size(sizes);
    lemma_everything_chosen(sizes, order, budget, sizes.len() as int);
    assert(order.take(sizes.len() as int) =~= order);
}

/// The ids of some blocks are different from each other.
pub open spec fn ids_distinct(blocks: Seq<BlockView>) -> bool {
    forall|i: int, j: int|
        0 <= i < j < blocks.len() ==> (#[trigger] blocks[i]).id != (#[trigger] blocks[j]).id
}

pub proof fn lemma_meta_of_block(blocks: Seq<BlockView>, k: int, n: int)
    requires
        ids_distinct(blocks),
        0 <= k < n <= blocks.len(),
    ensures
        engine_plan::meta_map(blocks, n).contains_key(blocks[k].id),
        engine_plan::meta_map(blocks, n)[blocks[k].id] == engine_plan::block_meta(
            blocks[k],
            engine_plan::block_start(blocks, k),
        ),
    decreases n,
{
    if k < n - 1 {
        lemma_meta_of_block(blocks, k, n - 1);
        assert(blocks[k].id != blocks[n - 1].id);
    }
}

/// What a copy of a block reads from the pinned buffer is the data of the block's
/// tensors, one behind the other.
pub proof fn lemma_copy_reads_block(
    m: ModelView,
    dest: Seq<u8>,
    blocks: Seq<BlockView>,
    k: int,
)
    requires
        m.wf(),
        engine_plan::own_blocks(m, blocks),
        ids_distinct(blocks),
        dest.len() == engine_plan::blocks_total(blocks),
        engine_plan::blocks_total(blocks) <= u64::MAX,
        0 <= k < blocks.len(),
        blocks[k].tensors.len() > 0,
    ensures
        ({
            let n = blocks.len() as int;
            let meta = engine_plan::meta_map(blocks, n)[blocks[k].id];
            let from = engine::source_offset(meta) as int;
            engine_plan::filled(m, dest, blocks, n).subrange(from, from + meta.total_bytes)
                == model_laws::joined_data(m, blocks[k].tensors)
        }),
{
    let n = blocks.len() as int;
    let ds = blocks[k].tensors;
    lemma_meta_of_block(blocks, k, n);
    lemma_pinned_holds_blocks(m, dest, blocks, k);
    engine_plan::lemma_blocks_total_prefix(blocks, k + 1);
    assert(blocks.take(k + 1).drop_last() =~= blocks.take(k));
    assert(ds.take(0).len() == 0);
    assert(model::total_bytes(ds.take(0)) == 0);
}

/// What is exported of a tensor shows the tensor's data: in a device buffer that
/// begins at `slot_base` and was filled with a copy of the block, the bytes from
/// the exported address on are those of the tensor.
pub proof fn lemma_export_shows_tensor(
    m: ModelView,
    dest: Seq<u8>,
    blocks: Seq<BlockView>,
    k: int,
    slot_base: u64,
    i: int,
)
    requires
        m.wf(),
        engine_plan::own_blocks(m, blocks),
        ids_distinct(blocks),
        dest.len() == engine_plan::blocks_total(blocks),
        engine_plan::blocks_total(blocks) <= u64::MAX,
        0 <= k < blocks.len(),
        0 <= i < blocks[k].tensors.len(),
        slot_base + model::total_bytes(blocks[k].tensors) <= u64::MAX,
    ensures
        ({
            let n = blocks.len() as int;
            let d = blocks[k].tensors[i];
            let meta = engine_plan::meta_map(blocks, n)[blocks[k].id];
            let from = engine::source_offset(meta) as int;
            let content = engine_plan::filled(m, dest, blocks, n).subrange(
                from,
                from + meta.total_bytes,
            );
            let x = engine::exports_of(meta, slot_base)[i];
            let at = x.device_ptr - slot_base;
            &&& x.name == d.name
            &&& x.shape == d.shape
            &&& 0 <= at <= at + d.byte_len <= content.len()
            &&& content.subrange(at, at + d.byte_len) == m.data(d.name)
        }),
{
    let n = blocks.len() as int;
    let ds = blocks[k].tensors;
    let start = engine_plan::block_start(blocks, k);
    let meta = engine_plan::meta_map(blocks, n)[blocks[k].id];
    let data = model_laws::joined_data(m, ds);
    lemma_copy_reads_block(m, dest, blocks, k);
    lemma_meta_of_block(blocks, k, n);
    engine_plan::lemma_blocks_total_prefix(blocks, k + 1);
    assert(blocks.take(k + 1).drop_last() =~= blocks.take(k));
    assert(ds.take(0).len() == 0);
    assert(model::total_bytes(ds.take(0)) == 0);
    assert forall|j: int| 0 <= j < meta.tensors.len() implies meta.tensors[0].pinned_offset <= (
    #[trigger] meta.tensors[j]).pinned_offset by {
        model::lemma_total_bytes_prefix(ds, j);
    }
    engine::lemma_least_offset(meta.tensors);
    model::lemma_total_bytes_prefix(ds, i);
    model_laws::lemma_joined_len(m, ds);
    model_laws::lemma_layout_locates(m, data, ds, i);
    model_laws::lemma_layout_entry(ds, i);
    model_laws::lemma_copy_is_concatenation(m, data, ds);
    assert(model::copied(m, data, ds) =~= data);
}

/// The blocks of a plan have different ids.
pub proof fn lemma_planned_ids_distinct(m: ModelView, config: ConfigView)
    ensures
        ids_distinct(engine_plan::planned_blocks(m, config)),
{
    let grouped = block::grouped(m.listed(), config);
    let stamped = grouped.map_values(|b: BlockView| model::stamped(b, m.id));
    assert(ids_distinct(stamped)) by {
        assert forall|i: int, j: int| 0 <= i < j < stamped.len() implies (
        #[trigger] stamped[i]).id != (#[trigger] stamped[j]).id by {
            block_laws::lemma_block_ids_distinct(m.listed(), config, i, j);
        }
    }
    engine_plan::lemma_shared_position(stamped, 0);
    match engine_plan::shared_position(stamped, 0) {
        None => {},
        Some(p) => {
            let rest = stamped.remove(p);
            let planned = rest.insert(0, stamped[p]);
            assert forall|i: int, j: int| 0 <= i < j < planned.len() implies (
            #[trigger] planned[i]).id != (#[trigger] planned[j]).id by {
                let b = if j - 1 < p {
                    j - 1
                } else {
                    j
                };
                assert(planned[j] == stamped[b]);
                if i == 0 {
                    assert(planned[i] == stamped[p]);
                    assert(b != p);
                    assert(stamped[p].id != stamped[b].id);
                } else {
                    let a = if i - 1 < p {
                        i - 1
                    } else {
                        i
                    };
                    assert(planned[i] == stamped[a]);
                    assert(stamped[a].id != stamped[b].id);
                }
            }
        },
    }
}

/// The block order of a plan: the ids of its blocks in the order of the plan, with
/// that of the shared tensors left out.
pub proof fn lemma_block_order_is_plan_order(blocks: Seq<BlockView>, n: int)
    requires
        0 <= n <= blocks.len(),
    ensures
        engine_plan::streamed_ids(blocks, n) == blocks.take(n).filter(
            |b: BlockView| b.id != "shared/unassigned"@,
        ).map_values(|b: BlockView| b.id),
    decreases n,
{
    let pred = |b: BlockView| b.id != "shared/unassigned"@;
    let name = |b: BlockView| b.id;
    reveal(Seq::filter);
    if n == 0 {
        assert(blocks.take(0) =~= Seq::<BlockView>::empty());
        assert(blocks.take(0).filter(pred).map_values(name) =~= Seq::<Seq<char>>::empty());
    } else {
        lemma_block_order_is_plan_order(blocks, n - 1);
        let before = blocks.take(n - 1).filter(pred);
        assert(blocks.take(n).drop_last() =~= blocks.take(n - 1));
        assert(before.push(blocks[n - 1]).map_values(name) =~= before.map_values(name).push(
            blocks[n - 1].id,
        ));
    }
}

/// Of two blocks of a plan, neither of them the shared tensors, the one that the plan
/// has first also stands first in the block order.
pub proof fn lemma_earlier_block_runs_earlier(blocks: Seq<BlockView>, i: int, j: int)
    requires
        0 <= i < j < blocks.len(),
        blocks[i].id != "shared/unassigned"@,
        blocks[j].id != "shared/unassigned"@,
    ensures
        ({
            let order = engine_plan::streamed_ids(blocks, blocks.len() as int);
            exists|a: int, b: int|
                0 <= a < b < order.len() && #[trigger] order[a] == blocks[i].id
                    && #[trigger] order[b] == blocks[j].id
        }),
{
    let n = blocks.len() as int;
    let order = engine_plan::streamed_ids(blocks, n);
    lemma_order_grows(blocks, i + 1, j);
    lemma_order_grows(blocks, j + 1, n);
    let a = engine_plan::streamed_ids(blocks, i + 1).len() - 1;
    let b = engine_plan::streamed_ids(blocks, j + 1).len() - 1;
    assert(order[b] == engine_plan::streamed_ids(blocks, j + 1)[b]);
    assert(engine_plan::streamed_ids(blocks, j + 1)[a] == engine_plan::streamed_ids(blocks, j)[a]);
    assert(order[a] == blocks[i].id && order[b] == blocks[j].id);
}

proof fn lemma_order_grows(blocks: Seq<BlockView>, k: int, n: int)
    requires
        0 <= k <= n <= blocks.len(),
    ensures
        engine_plan::streamed_ids(blocks, k).len() <= engine_plan::streamed_ids(blocks, n).len(),
        forall|x: int|
            0 <= x < engine_plan::streamed_ids(blocks, k).len() ==> #[trigger]
                engine_plan::streamed_ids(blocks, n)[x] == engine_plan::streamed_ids(blocks, k)[x],
    decreases n,
{
    if k < n {
        lemma_order_grows(blocks, k, n - 1);
    }
}

/// Putting the shared tensors in front moves them and nothing else.
#[verifier::spinoff_prover]
#[verifier::rlimit(40)]
pub proof fn lemma_shared_tensors_lead(blocks: Seq<BlockView>)
    requires
        ids_distinct(blocks),
    ensures
        engine_plan::shared_first(blocks) == blocks.filter(
            |b: BlockView| b.id == "shared/unassigned"@,
        ) + blocks.filter(|b: BlockView| b.id != "shared/unassigned"@),
{
    let shared = |b: BlockView| b.id == "shared/unassigned"@;
    let other = |b: BlockView| b.id != "shared/unassigned"@;
    let planned = engine_plan::shared_first(blocks);
    lemma_first_shared(blocks, 0);
    match engine_plan::shared_position(blocks, 0) {
        Some(p) => {
            assert forall|i: int| 0 <= i < blocks.len() && i != p implies !shared(
                #[trigger] blocks[i],
            ) by {
                if i < p {
                    assert(blocks[i].id != blocks[p].id);
                } else {
                    assert(blocks[p].id != blocks[i].id);
                }
            }
            assert(planned == blocks.remove(p).insert(0, blocks[p]));
            lemma_filtered_to_front(blocks, shared, other, p);
        },
        None => {
            assert(planned == blocks);
            block_laws::lemma_filter_keeps_all(blocks, other);
            block_laws::lemma_filter_keeps_none(blocks, shared);
            assert(Seq::<BlockView>::empty() + blocks =~= blocks);
        },
    }
}

proof fn lemma_filtered_to_front<A>(
    s: Seq<A>,
    yes: spec_fn(A) -> bool,
    no: spec_fn(A) -> bool,
    p: int,
)
    requires
        0 <= p < s.len(),
        yes(s[p]),
        forall|i: int| 0 <= i < s.len() && i != p ==> !yes(#[trigger] s[i]),
        forall|x: A| #[trigger] no(x) <==> !yes(x),
    ensures
        s.remove(p).insert(0, s[p]) == s.filter(yes) + s.filter(no),
{
    let lead = s.take(p);
    let own = seq![s[p]];
    let rest = s.skip(p + 1);
    assert(s =~= (lead + own) + rest);
    Seq::filter_distributes_over_add(lead + own, rest, yes);
    Seq::filter_distributes_over_add(lead, own, yes);
    Seq::filter_distributes_over_add(lead + own, rest, no);
    Seq::filter_distributes_over_add(lead, own, no);
    assert forall|i: int| 0 <= i < rest.len() implies !yes(#[trigger] rest[i]) && no(rest[i]) by {
        assert(rest[i] == s[p + 1 + i]);
        assert(!yes(s[p + 1 + i]));
    }
    assert forall|i: int| 0 <= i < lead.len() implies !yes(#[trigger] lead[i]) && no(lead[i]) by {
        assert(!yes(s[i]));
    }
    block_laws::lemma_filter_keeps_all(lead, no);
    block_laws::lemma_filter_keeps_all(rest, no);
    block_laws::lemma_filter_keeps_none(lead, yes);
    block_laws::lemma_filter_keeps_none(rest, yes);
    block_laws::lemma_filter_keeps_all(own, yes);
    block_laws::lemma_filter_keeps_none(own, no);
    assert(s.filter(yes) =~= own);
    assert(s.filter(no) =~= lead + rest);
    assert(s.remove(p).insert(0, s[p]) =~= own + (lead + rest));
}

proof fn lemma_first_shared(blocks: Seq<BlockView>, from: int)
    requires
        0 <= from,
    ensures
        match engine_plan::shared_position(blocks, from) {
            Some(p) => from <= p < blocks.len() && blocks[p].id == "shared/unassigned"@,
            None => forall|i: int|
                from <= i < blocks.len() ==> (#[trigger] blocks[i]).id != "shared/unassigned"@,
        },
    decreases blocks.len() - from,
{
    if from < blocks.len() && blocks[from].id != UNASSIGNED@ {
        lemma_first_shared(blocks, from + 1);
    }
}

/// The blocks of an engine run as they are grouped: the block order lists the ids of
/// the families' blocks in the order of the grouping. The plan has the tensors of no
/// family in front of them.
#[verifier::spinoff_prover]
#[verifier::rlimit(40)]
pub proof fn lemma_blocks_run_as_grouped(m: ModelView, config: ConfigView)
    ensures
        ({
            let grouped = block::grouped(m.listed(), config);
            let planned = engine_plan::planned_blocks(m, config);
            &&& engine_plan::streamed_ids(planned, planned.len() as int) == grouped.filter(
                |b: BlockView| b.index is Some,
            ).map_values(|b: BlockView| b.id)
            &&& planned.len() == grouped.len()
            &&& forall|i: int|
                0 < i < planned.len() ==> (#[trigger] planned[i]).id != "shared/unassigned"@
        }),
{
    let grouped = block::grouped(m.listed(), config);
    let stamped = grouped.map_values(|b: BlockView| model::stamped(b, m.id));
    let planned = engine_plan::planned_blocks(m, config);
    assert(engine_plan::streamed_ids(planned, planned.len() as int) == grouped.filter(
        |b: BlockView| b.index is Some,
    ).map_values(|b: BlockView| b.id)) by {
        lemma_stamped_blocks(m, config);
        lemma_shared_tensors_lead(stamped);
        assert forall|i: int| 0 <= i < grouped.len() implies grouped[i].id == (
        #[trigger] stamped[i]).id by {}
        lemma_run_order(grouped, stamped, planned);
    }
    assert(planned.len() == grouped.len()) by {
        engine_plan::lemma_shared_first_keeps(stamped);
    }
    assert(forall|i: int|
        0 < i < planned.len() ==> (#[trigger] planned[i]).id != "shared/unassigned"@) by {
        lemma_stamped_blocks(m, config);
        lemma_shared_stands_first(stamped);
    }
}

#[verifier::spinoff_prover]
#[verifier::rlimit(40)]
proof fn lemma_run_order(
    grouped: Seq<BlockView>,
    stamped: Seq<BlockView>,
    planned: Seq<BlockView>,
)
    requires
        grouped.len() == stamped.len(),
        forall|i: int| 0 <= i < grouped.len() ==> grouped[i].id == (#[trigger] stamped[i]).id,
        forall|i: int|
            0 <= i < grouped.len() ==> ((#[trigger] grouped[i]).index is Some <==> stamped[i].id
                != "shared/unassigned"@),
        planned == stamped.filter(|b: BlockView| b.id == "shared/unassigned"@) + stamped.filter(
            |b: BlockView| b.id != "shared/unassigned"@,
        ),
    ensures
        engine_plan::streamed_ids(planned, planned.len() as int) == grouped.filter(
            |b: BlockView| b.index is Some,
        ).map_values(|b: BlockView| b.id),
{
    lemma_order_skips_shared(stamped, planned);
    lemma_filter_in_step(
        grouped,
        stamped,
        |b: BlockView| b.index is Some,
        |b: BlockView| b.id != "shared/unassigned"@,
    );
}

proof fn lemma_shared_stands_first(blocks: Seq<BlockView>)
    requires
        ids_distinct(blocks),
    ensures
        forall|i: int|
            0 < i < engine_plan::shared_first(blocks).len() ==> (
            #[trigger] engine_plan::shared_first(blocks)[i]).id != "shared/unassigned"@,
{
    let planned = engine_plan::shared_first(blocks);
    lemma_first_shared(blocks, 0);
    assert forall|i: int| 0 < i < planned.len() implies (#[trigger] planned[i]).id
        != "shared/unassigned"@ by {
        match engine_plan::shared_position(blocks, 0) {
            Some(p) => {
                let k = if i - 1 < p {
                    i - 1
                } else {
                    i
                };
                assert(planned[i] == blocks[k]);
                if k < p {
                    assert(blocks[k].id != blocks[p].id);
                } else {
                    assert(blocks[p].id != blocks[k].id);
                }
            },
            None => {},
        }
    }
}

proof fn lemma_stamped_blocks(m: ModelView, config: ConfigView)
    ensures
        ({
            let grouped = block::grouped(m.listed(), config);
            let stamped = grouped.map_values(|b: BlockView| model::stamped(b, m.id));
            &&& ids_distinct(stamped)
            &&& forall|i: int|
                0 <= i < grouped.len() ==> ((#[trigger] grouped[i]).index is Some <==> stamped[i].id
                    != "shared/unassigned"@)
        }),
{
    let grouped = block::grouped(m.listed(), config);
    let stamped = grouped.map_values(|b: BlockView| model::stamped(b, m.id));
    assert forall|i: int, j: int| 0 <= i < j < stamped.len() implies (#[trigger] stamped[i]).id != (
    #[trigger] stamped[j]).id by {
        block_laws::lemma_block_ids_distinct(m.listed(), config, i, j);
    }
    assert forall|i: int| 0 <= i < grouped.len() implies ((#[trigger] grouped[i]).index is Some
        <==> stamped[i].id != "shared/unassigned"@) by {
        assert(grouped.contains(grouped[i]));
        block_laws::lemma_block_holds_its_tensors(m.listed(), config, grouped[i]);
        if grouped[i].index is Some {
            block::lemma_unassigned_id_reserved(grouped[i].family, grouped[i].index->0);
        }
    }
}

#[verifier::spinoff_prover]
#[verifier::rlimit(40)]
proof fn lemma_order_skips_shared(blocks: Seq<BlockView>, planned: Seq<BlockView>)
    requires
        planned == blocks.filter(|b: BlockView| b.id == "shared/unassigned"@) + blocks.filter(
            |b: BlockView| b.id != "shared/unassigned"@,
        ),
    ensures
        engine_plan::streamed_ids(planned, planned.len() as int) == blocks.filter(
            |b: BlockView| b.id != "shared/unassigned"@,
        ).map_values(|b: BlockView| b.id),
{
    let n = planned.len() as int;
    let order = engine_plan::streamed_ids(planned, n);
    let other = |b: BlockView| b.id != "shared/unassigned"@;
    assert(order == planned.take(n).filter(other).map_values(|b: BlockView| b.id)) by {
        lemma_block_order_is_plan_order(planned, n);
    }
    assert(planned.take(n) =~= planned);
    assert(planned.filter(other) == blocks.filter(other)) by {
        lemma_filter_again(blocks, |b: BlockView| b.id == "shared/unassigned"@, other);
    }
}

proof fn lemma_filter_again<A>(s: Seq<A>, p: spec_fn(A) -> bool, q: spec_fn(A) -> bool)
    requires
        forall|x: A| #[trigger] p(x) ==> !q(x),
    ensures
        (s.filter(p) + s.filter(q)).filter(q) == s.filter(q),
{
    let front = s.filter(p);
    let rest = s.filter(q);
    Seq::filter_distributes_over_add(front, rest, q);
    assert forall|i: int| 0 <= i < front.len() implies !q(#[trigger] front[i]) by {
        s.lemma_filter_pred(p, i);
    }
    assert forall|i: int| 0 <= i < rest.len() implies q(#[trigger] rest[i]) by {
        s.lemma_filter_pred(q, i);
    }
    block_laws::lemma_filter_keeps_none(front, q);
    block_laws::lemma_filter_keeps_all(rest, q);
    assert(Seq::<A>::empty() + rest =~= rest);
}

proof fn lemma_filter_in_step(
    a: Seq<BlockView>,
    b: Seq<BlockView>,
    p: spec_fn(BlockView) -> bool,
    q: spec_fn(BlockView) -> bool,
)
    requires
        a.len() == b.len(),
        forall|i: int| 0 <= i < a.len() ==> a[i].id == (#[trigger] b[i]).id,
        forall|i: int| 0 <= i < a.len() ==> (p(#[trigger] a[i]) <==> q(b[i])),
    ensures
        a.filter(p).map_values(|x: BlockView| x.id) == b.filter(q).map_values(
            |x: BlockView| x.id,
        ),
    decreases a.len(),
{
    reveal(Seq::filter);
    let name = |x: BlockView| x.id;
    if a.len() > 0 {
        let c = a.drop_last();
        let d = b.drop_last();
        assert forall|i: int| 0 <= i < c.len() implies c[i].id == (#[trigger] d[i]).id by {
            assert(a[i].id == b[i].id);
        }
        assert forall|i: int| 0 <= i < c.len() implies (p(#[trigger] c[i]) <==> q(d[i])) by {
            assert(p(a[i]) <==> q(b[i]));
        }
        lemma_filter_in_step(c, d, p, q);
        let k = a.len() - 1;
        assert(a[k].id == b[k].id);
        assert(p(a[k]) <==> q(b[k]));
        assert(c.filter(p).push(a[k]).map_values(name) =~= c.filter(p).map_values(name).push(
            a[k].id,
        ));
        assert(d.filter(q).push(b[k]).map_values(name) =~= d.filter(q).map_values(name).push(
            b[k].id,
        ));
    } else {
        assert(a.filter(p).map_values(name) =~= b.filter(q).map_values(name));
    }
}

/// Distances are counted from the block that was named. It is known exactly where it
/// is in the block order, and there it is found; going on from it by a block's
/// distance, and round from the last to the first, leads to that block.
pub proof fn lemma_distances_lead_to_blocks(order: Seq<Seq<char>>, id: Seq<char>, at: int)
    requires
        0 <= at < order.len(),
    ensures
        match engine::position_of(order, id, 0) {
            Some(from) => {
                let n = order.len() as int;
                &&& 0 <= from < n
                &&& order[from] == id
                &&& forall|i: int| 0 <= i < from ==> #[trigger] order[i] != id
                &&& 0 <= engine::distance(from, at, n) < n
                &&& (from + engine::distance(from, at, n)) % n == at
            },
            None => !order.contains(id),
        },
{
    let n = order.len() as int;
    lemma_position_found(order, id, 0);
    match engine::position_of(order, id, 0) {
        Some(from) => {
            engine::lemma_distance(from, at, n);
            let way = from + engine::distance(from, at, n);
            if way == at {
                vstd::arithmetic::div_mod::lemma_small_mod(at as nat, n as nat);
            } else {
                assert(way == at + n);
                vstd::arithmetic::div_mod::lemma_mod_add_multiples_vanish(at, n);
                vstd::arithmetic::div_mod::lemma_small_mod(at as nat, n as nat);
            }
        },
        None => {},
    }
}

proof fn lemma_position_found(order: Seq<Seq<char>>, id: Seq<char>, start: int)
    requires
        0 <= start <= order.len(),
    ensures
        match engine::position_of(order, id, start) {
            Some(from) => start <= from < order.len() && order[from] == id && forall|i: int|
                start <= i < from ==> #[trigger] order[i] != id,
            None => forall|i: int| start <= i < order.len() ==> #[trigger] order[i] != id,
        },
    decreases order.len() - start,
{
    if start < order.len() && order[start] != id {
        lemma_position_found(order, id, start + 1);
    }
}

/// How a request is answered. A block that is not known is refused, and nothing
/// changes but that no copy is awaited. One that is known is served: the shared
/// tensors from their buffer, a block that stays from its own, one that the ring holds
/// from the slot that holds it, and any other by a copy of all its bytes, from where
/// its first tensor lies, to the slot whose turn it is.
pub proof fn lemma_request_answered(e: EngineView, id: Seq<char>)
    requires
        e.wf(),
    ensures
        match engine::issued(e, id) {
            Err(x) => !e.blocks.contains_key(id) && x == EngineErrorView::UnknownBlock(id),
            Ok((Transfer::Shared, after)) => {
                &&& id == "shared/unassigned"@
                &&& e.blocks.contains_key(id)
                &&& after.slots == e.slots
                &&& after.stats == e.stats
            },
            Ok((Transfer::Resident { at }, after)) => {
                &&& at < e.resident_ids.len()
                &&& e.resident_ids[at as int] == id
                &&& after.slots == e.slots
            },
            Ok((Transfer::Cached { slot }, after)) => {
                &&& slot < e.slots.len()
                &&& e.slots[slot as int].occupant == Some(id)
                &&& after.slots == e.slots
            },
            Ok((Transfer::Copy { slot, wait, pinned_offset, bytes }, after)) => {
                &&& e.blocks.contains_key(id)
                &&& id != "shared/unassigned"@
                &&& !e.resident.contains_key(id)
                &&& forall|i: int|
                    0 <= i < e.slots.len() ==> (#[trigger] e.slots[i]).occupant != Some(id)
                &&& slot == e.next_slot
                &&& wait == e.slots[slot as int].freed
                &&& bytes == e.blocks[id].total_bytes
                &&& e.blocks[id].tensors.len() > 0 ==> pinned_offset
                    == e.blocks[id].tensors[0].pinned_offset
                &&& after.pending == Some((slot, id, bytes))
            },
        },
        e.blocks.contains_key(id) ==> engine::issued(e, id) is Ok,
{
    engine::lemma_not_in_ring(e, id, 0);
    match e.slot_of(id, 0) {
        Some(slot) => {
            assert(e.slots[slot].occupant == Some(id));
        },
        None => {},
    }
}

/// A slot of the ring is as large as the largest block that has to go through it,
/// and no larger.
pub proof fn lemma_slot_fits_largest(
    blocks: Map<Seq<char>, BlockMetaView>,
    order: Seq<Seq<char>>,
    shared_bytes: u64,
    pinned_bytes: u64,
    vram_slots: usize,
    budget: u64,
)
    ensures
        ({
            let e = engine::engine_of(
                blocks,
                order,
                shared_bytes,
                pinned_bytes,
                vram_slots,
                budget,
            );
            &&& forall|i: int|
                0 <= i < order.len() && !e.resident.contains_key(#[trigger] order[i])
                    ==> blocks[order[i]].total_bytes <= e.slot_bytes
            &&& e.slot_bytes > 0 ==> exists|i: int|
                0 <= i < order.len() && !e.resident.contains_key(#[trigger] order[i])
                    && blocks[order[i]].total_bytes == e.slot_bytes
        }),
{
    let e = engine::engine_of(blocks, order, shared_bytes, pinned_bytes, vram_slots, budget);
    let sizes = engine::sizes_of(order, blocks);
    lemma_largest_attained(order, sizes, e.resident, order.len() as int);
    assert forall|i: int|
        0 <= i < order.len() && !e.resident.contains_key(
            #[trigger] order[i],
        ) implies blocks[order[i]].total_bytes <= e.slot_bytes by {
        assert(sizes[i] == blocks[order[i]].total_bytes);
    }
    if e.slot_bytes > 0 {
        let i = choose|i: int|
            0 <= i < order.len() && !e.resident.contains_key(#[trigger] order[i]) && sizes[i]
                == e.slot_bytes;
        assert(sizes[i] == blocks[order[i]].total_bytes);
    }
}

proof fn lemma_largest_attained(
    ids: Seq<Seq<char>>,
    sizes: Seq<u64>,
    resident: Map<Seq<char>, usize>,
    n: int,
)
    requires
        0 <= n <= ids.len(),
    ensures
        ({
            let most = engine::largest_streamed(ids, sizes, resident, n);
            &&& forall|i: int|
                0 <= i < n && !resident.contains_key(#[trigger] ids[i]) ==> sizes[i] <= most
            &&& most > 0 ==> exists|i: int|
                0 <= i < n && !resident.contains_key(#[trigger] ids[i]) && sizes[i] == most
        }),
    decreases n,
{
    if n > 0 {
        lemma_largest_attained(ids, sizes, resident, n - 1);
        let most = engine::largest_streamed(ids, sizes, resident, n);
        if most > 0 {
            if !resident.contains_key(ids[n - 1]) && sizes[n - 1] == most {
            } else {
                let i = choose|i: int|
                    0 <= i < n - 1 && !resident.contains_key(#[trigger] ids[i]) && sizes[i]
                        == engine::largest_streamed(ids, sizes, resident, n - 1);
                assert(!resident.contains_key(ids[i]));
            }
        }
    }
}

/// What an engine takes of device memory: the shared tensors, the blocks that stay,
/// and for each slot of the ring the bytes of the largest other block, at least one.
/// There is at least one slot. This is what is asked for beforehand and what is
/// reported.
pub proof fn lemma_device_memory(
    blocks: Map<Seq<char>, BlockMetaView>,
    order: Seq<Seq<char>>,
    shared_bytes: u64,
    pinned_bytes: u64,
    vram_slots: usize,
    budget: u64,
)
    ensures
        ({
            let e = engine::engine_of(
                blocks,
                order,
                shared_bytes,
                pinned_bytes,
                vram_slots,
                budget,
            );
            let needed = engine::vram_needed(blocks, order, shared_bytes, vram_slots, budget);
            let slot = if e.slot_bytes == 0 {
                1
            } else {
                e.slot_bytes as int
            };
            &&& e.slots.len() == if vram_slots == 0 {
                1
            } else {
                vram_slots as int
            }
            &&& e.shared_bytes == shared_bytes
            &&& needed == shared_bytes + residency::resident(
                order.map_values(|id: Seq<char>| blocks[id].total_bytes),
                budget,
            ).1 + e.slots.len() * slot
            &&& needed <= u64::MAX ==> e.stats.vram_bytes == needed
            &&& e.stats.pinned_bytes == pinned_bytes
        }),
{
    let e = engine::engine_of(blocks, order, shared_bytes, pinned_bytes, vram_slots, budget);
    assert(engine::sizes_of(order, blocks) =~= order.map_values(
        |id: Seq<char>| blocks[id].total_bytes,
    ));
}

/// A block begins where the first of its tensors lies: none lies before it, and one
/// lies there.
pub proof fn lemma_block_begins_at_least_offset(ts: Seq<TensorMetaView>)
    requires
        ts.len() > 0,
    ensures
        forall|i: int|
            0 <= i < ts.len() ==> engine::least_offset(ts) <= (#[trigger] ts[i]).pinned_offset,
        exists|i: int|
            0 <= i < ts.len() && (#[trigger] ts[i]).pinned_offset == engine::least_offset(ts),
    decreases ts.len(),
{
    let k = ts.len() - 1;
    if k > 0 {
        let rest = ts.drop_last();
        lemma_block_begins_at_least_offset(rest);
        assert forall|i: int| 0 <= i < ts.len() implies engine::least_offset(ts) <= (
        #[trigger] ts[i]).pinned_offset by {
            if i < k {
                assert(rest[i] == ts[i]);
            }
        }
        let j = choose|j: int|
            0 <= j < rest.len() && (#[trigger] rest[j]).pinned_offset == engine::least_offset(rest);
        assert(ts[j] == rest[j]);
        assert(ts[k] == ts.last());
    } else {
        assert(ts[0] == ts.last());
    }
}

/// Tensor `i` of block `k` cannot be exported, and every tensor before it, from block
/// `from` on, can.
pub open spec fn first_stop(blocks: Seq<BlockView>, from: int, k: int, i: int) -> bool {
    &&& from <= k < blocks.len()
    &&& 0 <= i < blocks[k].tensors.len()
    &&& dlpack::exported(blocks[k].tensors[i].dtype) is None
    &&& forall|y: int|
        0 <= y < i ==> dlpack::exported((#[trigger] blocks[k].tensors[y]).dtype) is Some
    &&& forall|x: int| from <= x < k ==> all_exported(#[trigger] blocks[x])
}

/// Every tensor of a block can be exported.
pub open spec fn all_exported(b: BlockView) -> bool {
    forall|y: int|
        0 <= y < b.tensors.len() ==> dlpack::exported((#[trigger] b.tensors[y]).dtype) is Some
}

/// A plan cannot be filled exactly where some tensor cannot be exported. Then the
/// error names the first such tensor and its type, and the blocks up to the one that
/// has it have been copied.
pub proof fn lemma_export_error_names_first(blocks: Seq<BlockView>)
    ensures
        match engine_plan::export_error(blocks, 0) {
            None => {
                &&& forall|k: int| 0 <= k < blocks.len() ==> all_exported(#[trigger] blocks[k])
                &&& engine_plan::copied_blocks(blocks, 0) == blocks.len()
            },
            Some(e) => exists|k: int, i: int|
                {
                    &&& #[trigger] first_stop(blocks, 0, k, i)
                    &&& e == EngineErrorView::UnsupportedDtype {
                        name: blocks[k].tensors[i].name,
                        dtype: blocks[k].tensors[i].dtype,
                    }
                    &&& engine_plan::copied_blocks(blocks, 0) == k + 1
                },
        },
{
    lemma_export_error_from(blocks, 0);
}

proof fn lemma_first_unsupported_tensor(ds: Seq<DescriptorView>)
    ensures
        match engine_plan::first_unsupported(ds) {
            None => forall|i: int|
                0 <= i < ds.len() ==> dlpack::exported((#[trigger] ds[i]).dtype) is Some,
            Some(e) => exists|i: int|
                {
                    &&& 0 <= i < ds.len()
                    &&& dlpack::exported((#[trigger] ds[i]).dtype) is None
                    &&& e == EngineErrorView::UnsupportedDtype {
                        name: ds[i].name,
                        dtype: ds[i].dtype,
                    }
                    &&& forall|y: int|
                        0 <= y < i ==> dlpack::exported((#[trigger] ds[y]).dtype) is Some
                },
        },
    decreases ds.len(),
{
    if ds.len() > 0 {
        let rest = ds.drop_last();
        let k = ds.len() - 1;
        lemma_first_unsupported_tensor(rest);
        assert forall|i: int| 0 <= i < k implies #[trigger] ds[i] == rest[i] by {}
        match engine_plan::first_unsupported(rest) {
            None => {
                assert(ds[k] == ds.last());
                assert forall|i: int| 0 <= i < k implies dlpack::exported(
                    (#[trigger] ds[i]).dtype,
                ) is Some by {
                    assert(ds[i] == rest[i]);
                }
            },
            Some(e) => {
                let i = choose|i: int|
                    {
                        &&& 0 <= i < rest.len()
                        &&& dlpack::exported((#[trigger] rest[i]).dtype) is None
                        &&& e == EngineErrorView::UnsupportedDtype {
                            name: rest[i].name,
                            dtype: rest[i].dtype,
                        }
                        &&& forall|y: int|
                            0 <= y < i ==> dlpack::exported((#[trigger] rest[y]).dtype) is Some
                    };
                assert(ds[i] == rest[i]);
                assert forall|y: int| 0 <= y < i implies dlpack::exported(
                    (#[trigger] ds[y]).dtype,
                ) is Some by {
                    assert(ds[y] == rest[y]);
                }
            },
        }
    }
}

#[verifier::spinoff_prover]
#[verifier::rlimit(40)]
proof fn lemma_export_error_from(blocks: Seq<BlockView>, from: int)
    requires
        0 <= from <= blocks.len(),
    ensures
        match engine_plan::export_error(blocks, from) {
            None => {
                &&& forall|k: int| from <= k < blocks.len() ==> all_exported(#[trigger] blocks[k])
                &&& engine_plan::copied_blocks(blocks, from) == blocks.len()
            },
            Some(e) => exists|k: int, i: int|
                {
                    &&& #[trigger] first_stop(blocks, from, k, i)
                    &&& e == EngineErrorView::UnsupportedDtype {
                        name: blocks[k].tensors[i].name,
                        dtype: blocks[k].tensors[i].dtype,
                    }
                    &&& engine_plan::copied_blocks(blocks, from) == k + 1
                },
        },
    decreases blocks.len() - from,
{
    if from < blocks.len() {
        let ds = blocks[from].tensors;
        lemma_first_unsupported_tensor(ds);
        match engine_plan::first_unsupported(ds) {
            None => {
                assert(all_exported(blocks[from]));
                lemma_export_error_from(blocks, from + 1);
                match engine_plan::export_error(blocks, from + 1) {
                    None => {},
                    Some(e) => {
                        let (k, i) = choose|k: int, i: int|
                            {
                                &&& #[trigger] first_stop(blocks, from + 1, k, i)
                                &&& e == EngineErrorView::UnsupportedDtype {
                                    name: blocks[k].tensors[i].name,
                                    dtype: blocks[k].tensors[i].dtype,
                                }
                                &&& engine_plan::copied_blocks(blocks, from + 1) == k + 1
                            };
                        assert(first_stop(blocks, from, k, i));
                    },
                }
            },
            Some(e) => {
                let i = choose|i: int|
                    {
                        &&& 0 <= i < ds.len()
                        &&& dlpack::exported((#[trigger] ds[i]).dtype) is None
                        &&& e == EngineErrorView::UnsupportedDtype {
                            name: ds[i].name,
                            dtype: ds[i].dtype,
                        }
                        &&& forall|y: int|
                            0 <= y < i ==> dlpack::exported((#[trigger] ds[y]).dtype) is Some
                    };
                assert(first_stop(blocks, from, from, i));
            },
        }
    }
}

/// What an engine is made of stays what it was given: the blocks, their order, and
/// the shared tensors. The blocks that stay are those that were chosen by size from
/// the order, and are known under their place among them.
pub proof fn lemma_engine_keeps_layout(
    blocks: Map<Seq<char>, BlockMetaView>,
    order: Seq<Seq<char>>,
    shared_bytes: u64,
    pinned_bytes: u64,
    vram_slots: usize,
    budget: u64,
)
    ensures
        ({
            let e = engine::engine_of(
                blocks,
                order,
                shared_bytes,
                pinned_bytes,
                vram_slots,
                budget,
            );
            let sizes = order.map_values(|id: Seq<char>| blocks[id].total_bytes);
            let stay = residency::resident(sizes, budget).0;
            &&& e.blocks == blocks
            &&& e.block_order == order
            &&& e.shared_bytes == shared_bytes
            &&& e.resident_ids.len() == stay.len()
            &&& forall|i: int|
                0 <= i < stay.len() ==> #[trigger] e.resident_ids[i] == order[stay[i]]
            &&& residency::resident(sizes, budget).1 <= u64::MAX ==> e.stats.resident_bytes
                == residency::resident(sizes, budget).1
            &&& !e.shared_fetched
            &&& e.timings.len() == 0
            &&& e.pending is None
        }),
{
    assert(engine::sizes_of(order, blocks) =~= order.map_values(
        |id: Seq<char>| blocks[id].total_bytes,
    ));
}

/// Every copy is recorded with its block and its bytes, behind the earlier ones, and
/// nothing else is.
pub proof fn lemma_copies_are_recorded(e: EngineView, id: Seq<char>)
    requires
        e.wf(),
    ensures
        match engine::issued(e, id) {
            Ok((Transfer::Copy { bytes, .. }, _)) => served(e, id).timings == e.timings.push(
                (id, bytes, false),
            ),
            _ => served(e, id).timings == e.timings,
        },
{
}

/// After a copy its slot holds the block and awaits its consumer, and the next slot's
/// turn has come; the other slots are as they were.
pub proof fn lemma_copy_fills_slot(e: EngineView, id: Seq<char>, i: int)
    requires
        e.wf(),
        0 <= i < e.slots.len(),
        engine::issued(e, id) matches Ok((t, _)) && t is Copy,
    ensures
        ({
            let after = served(e, id);
            &&& after.slots.len() == e.slots.len()
            &&& i != e.next_slot ==> after.slots[i] == e.slots[i]
            &&& i == e.next_slot ==> after.slots[i].occupant == Some(id) && !after.slots[i].freed
            &&& after.next_slot == if e.next_slot + 1 == e.slots.len() {
                0
            } else {
                e.next_slot + 1
            }
            &&& after.pending is None
        }),
{
    engine::lemma_next_slot(e.next_slot as int, e.slots.len() as int);
}

/// Reporting a consumer done marks its slot and changes nothing else.
pub proof fn lemma_done_marks_one_slot(e: EngineView, slot: int, i: int)
    requires
        0 <= slot < e.slots.len(),
        0 <= i < e.slots.len(),
    ensures
        ({
            let after = engine::released(e, slot);
            &&& after.slots.len() == e.slots.len()
            &&& after.slots[i].occupant == e.slots[i].occupant
            &&& after.slots[i].freed == (i == slot || e.slots[i].freed)
            &&& after.stats == e.stats
            &&& after.next_slot == e.next_slot
            &&& after.pending == e.pending
            &&& after.timings == e.timings
            &&& after.blocks == e.blocks
            &&& after.block_order == e.block_order
            &&& after.resident == e.resident
            &&& after.shared_fetched == e.shared_fetched
        }),
{
}

/// The blocks of a plan are the grouped ones, each once and with the model's mark,
/// under the families that were asked for, or the two of the diffusion models.
pub proof fn lemma_plan_has_grouped_blocks(
    m: ModelView,
    labels: Option<Seq<Seq<char>>>,
    b: BlockView,
)
    ensures
        ({
            let families = match labels {
                Some(all) => all,
                None => seq!["transformer_blocks"@, "single_transformer_blocks"@],
            };
            let config = ConfigView { model_prefix: None, families };
            let grouped = block::grouped(m.listed(), config);
            let planned = engine_plan::planned_blocks(m, engine_plan::config_of(labels));
            &&& planned.len() == grouped.len()
            &&& grouped.contains(b) ==> planned.contains(BlockView { model_id: m.id, ..b })
            &&& planned.contains(b) ==> b.model_id == m.id && grouped.contains(
                BlockView { model_id: 0, ..b },
            )
        }),
{
    let config = engine_plan::config_of(labels);
    let grouped = block::grouped(m.listed(), config);
    let stamped = grouped.map_values(|x: BlockView| model::stamped(x, m.id));
    let planned = engine_plan::planned_blocks(m, config);
    engine_plan::lemma_shared_first_keeps(stamped);
    if grouped.contains(b) {
        let i = choose|i: int| 0 <= i < grouped.len() && grouped[i] == b;
        assert(stamped[i] == BlockView { model_id: m.id, ..b });
        assert(stamped.contains(stamped[i]));
    }
    if planned.contains(b) {
        assert(stamped.contains(b));
        let i = choose|i: int| 0 <= i < stamped.len() && stamped[i] == b;
        assert(grouped.contains(grouped[i]));
        block_laws::lemma_block_holds_its_tensors(m.listed(), config, grouped[i]);
        assert(grouped[i] == BlockView { model_id: 0, ..b });
    }
}

/// How many bytes the shared tensors of a plan have: those of the block with their
/// id, and none where there is no such block.
pub proof fn lemma_shared_size(blocks: Seq<BlockView>, n: int)
    requires
        ids_distinct(blocks),
        0 <= n <= blocks.len(),
    ensures
        forall|k: int|
            0 <= k < n && (#[trigger] blocks[k]).id == "shared/unassigned"@
                ==> engine_plan::shared_size(blocks, n) == model::total_bytes(blocks[k].tensors),
        (forall|k: int| 0 <= k < n ==> (#[trigger] blocks[k]).id != "shared/unassigned"@)
            ==> engine_plan::shared_size(blocks, n) == 0,
    decreases n,
{
    if n > 0 {
        lemma_shared_size(blocks, n - 1);
        assert forall|k: int|
            0 <= k < n && (#[trigger] blocks[k]).id
                == "shared/unassigned"@ implies engine_plan::shared_size(blocks, n)
            == model::total_bytes(blocks[k].tensors) by {
            if k < n - 1 {
                assert(blocks[k].id != blocks[n - 1].id);
            }
        }
    }
}

/// Where the layout of a plan says that a tensor lies in the pinned buffer, its data
/// lies, under its name and with its type and shape; the layout knows the plan's
/// blocks and no others, each with all its bytes. What lies behind the last block is
/// left as it was.
#[verifier::spinoff_prover]
#[verifier::rlimit(40)]
pub proof fn lemma_layout_leads_to_data(
    m: ModelView,
    dest: Seq<u8>,
    blocks: Seq<BlockView>,
    k: int,
    i: int,
)
    requires
        m.wf(),
        engine_plan::own_blocks(m, blocks),
        ids_distinct(blocks),
        engine_plan::blocks_total(blocks) <= dest.len() <= u64::MAX,
        0 <= k < blocks.len(),
        0 <= i < blocks[k].tensors.len(),
    ensures
        ({
            let n = blocks.len() as int;
            let all = engine_plan::meta_map(blocks, n);
            let d = blocks[k].tensors[i];
            let b = all[blocks[k].id];
            let t = b.tensors[i];
            let buffer = engine_plan::filled(m, dest, blocks, n);
            &&& all.contains_key(blocks[k].id)
            &&& b.id == blocks[k].id
            &&& b.tensors.len() == blocks[k].tensors.len()
            &&& b.total_bytes == model_laws::joined_data(m, blocks[k].tensors).len()
            &&& t.name == d.name
            &&& t.len == d.byte_len
            &&& t.dtype == d.dtype
            &&& t.shape == d.shape
            &&& t.pinned_offset + t.len <= buffer.len()
            &&& buffer.subrange(t.pinned_offset as int, t.pinned_offset + t.len) == m.data(d.name)
            &&& buffer.len() == dest.len()
            &&& buffer.skip(engine_plan::blocks_total(blocks) as int) == dest.skip(
                engine_plan::blocks_total(blocks) as int,
            )
            &&& forall|id: Seq<char>| #[trigger]
                all.contains_key(id) ==> exists|x: int|
                    0 <= x < blocks.len() && (#[trigger] blocks[x]).id == id
        }),
{
    let n = blocks.len() as int;
    let ds = blocks[k].tensors;
    let start = engine_plan::block_start(blocks, k);
    let buffer = engine_plan::filled(m, dest, blocks, n);
    let data = engine_plan::blocks_data(m, blocks, n);
    let own = model_laws::joined_data(m, ds);
    lemma_meta_of_block(blocks, k, n);
    lemma_layout_knows_plan(blocks, n);
    engine_plan::lemma_blocks_total_prefix(blocks, k + 1);
    assert(blocks.take(k + 1).drop_last() =~= blocks.take(k));
    assert(blocks.take(k + 1).last() == blocks[k]);
    model::lemma_total_bytes_prefix(ds, i + 1);
    assert(ds.take(i + 1).drop_last() =~= ds.take(i));
    assert(ds.take(i + 1).last() == ds[i]);
    lemma_block_data_in_place(m, blocks, k, n);
    engine_plan::lemma_blocks_data_len(m, blocks, n);
    assert(blocks.take(n) =~= blocks);
    model_laws::lemma_joined_len(m, ds);
    model_laws::lemma_layout_locates(m, own, ds, i);
    model_laws::lemma_layout_entry(ds, i);
    model_laws::lemma_copy_is_concatenation(m, own, ds);
    assert(model::copied(m, own, ds) =~= own);
    let at = model::total_bytes(ds.take(i)) as int;
    let len = ds[i].byte_len as int;
    assert(own.subrange(at, at + len) == m.data(ds[i].name));
    assert(buffer.subrange(start + at, start + at + len) =~= data.subrange(
        start as int,
        (start + own.len()) as int,
    ).subrange(at, at + len));
    let total = engine_plan::blocks_total(blocks) as int;
    assert(buffer.skip(total) =~= dest.skip(total));
}

proof fn lemma_layout_knows_plan(blocks: Seq<BlockView>, n: int)
    requires
        0 <= n <= blocks.len(),
    ensures
        forall|id: Seq<char>| #[trigger]
            engine_plan::meta_map(blocks, n).contains_key(id) ==> exists|x: int|
                0 <= x < n && (#[trigger] blocks[x]).id == id,
    decreases n,
{
    if n > 0 {
        lemma_layout_knows_plan(blocks, n - 1);
        assert forall|id: Seq<char>| #[trigger]
            engine_plan::meta_map(blocks, n).contains_key(id) implies exists|x: int|
            0 <= x < n && (#[trigger] blocks[x]).id == id by {
            if id == blocks[n - 1].id {
                assert(blocks[n - 1].id == id);
            } else {
                assert(engine_plan::meta_map(blocks, n - 1).contains_key(id));
            }
        }
    }
}

} // verus!
