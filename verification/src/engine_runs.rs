//! What holds of the engine over many requests: the ring fills and turns over in
//! order, the blocks that stay never change, and whatever was fetched before, a
//! block that is fetched shows its own data.

use vstd::prelude::*;

use crate::block::{BlockView, UNASSIGNED};
use crate::dlpack;
use crate::engine;
use crate::engine::{EngineView, Stats, Transfer};
use crate::engine_laws;
use crate::engine_plan;
use crate::engine_plan::BlockMetaView;
use crate::model;
use crate::model::ModelView;
use crate::residency;

verus! {

/// The ring is empty and its first slot comes next, as in an engine at its start.
pub open spec fn is_fresh(e: EngineView) -> bool {
    &&& e.next_slot == 0
    &&& forall|i: int| 0 <= i < e.slots.len() ==> (#[trigger] e.slots[i]).occupant is None
}

/// An engine at its start has as many slots as were asked for and at least one, an
/// empty ring, and has counted nothing.
pub proof fn lemma_new_engine_is_fresh(
    blocks: Map<Seq<char>, BlockMetaView>,
    order: Seq<Seq<char>>,
    shared_bytes: u64,
    pinned_bytes: u64,
    vram_slots: usize,
    budget: u64,
)
    ensures
        ({
            let e = engine::engine_of(
                blocks,
                order,
                shared_bytes,
                pinned_bytes,
                vram_slots,
                budget,
            );
            &&& is_fresh(e)
            &&& e.slots.len() == engine::max_of(vram_slots as int, 1)
            &&& e.stats.transfer_count == 0
            &&& e.stats.cache_hits == 0
            &&& e.stats.resident_hits == 0
            &&& e.stats.bytes_h2d == 0
        }),
{
}

/// What stays as it is whatever is asked for.
pub open spec fn same_blocks(a: EngineView, b: EngineView) -> bool {
    &&& a.blocks == b.blocks
    &&& a.block_order == b.block_order
    &&& a.shared_bytes == b.shared_bytes
    &&& a.resident_ids == b.resident_ids
    &&& a.resident == b.resident
    &&& a.slot_bytes == b.slot_bytes
    &&& a.slots.len() == b.slots.len()
    &&& a.stats.pinned_bytes == b.stats.pinned_bytes
    &&& a.stats.vram_bytes == b.stats.vram_bytes
    &&& a.stats.resident_bytes == b.stats.resident_bytes
}

proof fn lemma_served_same_blocks(e: EngineView, id: Seq<char>)
    requires
        e.wf(),
    ensures
        same_blocks(engine_laws::served(e, id), e),
{
}

/// The ring after the first `j` of some streamed blocks were asked for.
proof fn lemma_ring_fills(e: EngineView, ids: Seq<Seq<char>>, j: int)
    requires
        e.wf(),
        is_fresh(e),
        ids.no_duplicates(),
        forall|i: int| 0 <= i < ids.len() ==> e.streamed(#[trigger] ids[i]),
        0 <= j <= ids.len(),
        j <= e.slots.len(),
        e.stats.transfer_count + j <= u64::MAX,
    ensures
        ({
            let after = engine_laws::served_all(e, ids.take(j));
            &&& after.wf()
            &&& same_blocks(after, e)
            &&& after.next_slot == if j == e.slots.len() {
                0
            } else {
                j
            }
            &&& forall|i: int|
                0 <= i < e.slots.len() ==> (#[trigger] after.slots[i]).occupant == if i < j {
                    Some(ids[i])
                } else {
                    None
                }
            &&& after.stats.transfer_count == e.stats.transfer_count + j
            &&& after.stats.cache_hits == e.stats.cache_hits
            &&& after.stats.resident_hits == e.stats.resident_hits
        }),
    decreases j,
{
    if j > 0 {
        lemma_ring_fills(e, ids, j - 1);
        let before = engine_laws::served_all(e, ids.take(j - 1));
        let id = ids[j - 1];
        assert(ids.take(j).drop_last() =~= ids.take(j - 1));
        assert(ids.take(j).last() == id);
        engine_laws::lemma_served_wf(before, id);
        engine::lemma_not_in_ring(before, id, 0);
        engine::lemma_next_slot(j - 1, e.slots.len() as int);
        assert(e.streamed(id));
        assert(before.slot_of(id, 0) is None) by {
            if before.slot_of(id, 0) is Some {
                let slot = before.slot_of(id, 0)->0;
                assert(before.slots[slot].occupant == Some(id));
                assert(ids[slot] == ids[j - 1]);
            }
        }
    }
}

/// Blocks that the ring holds are asked for: only hits are counted.
pub proof fn lemma_all_hits(e: EngineView, ids: Seq<Seq<char>>)
    requires
        e.wf(),
        forall|i: int| 0 <= i < ids.len() ==> e.slot_of(#[trigger] ids[i], 0) is Some,
        e.stats.cache_hits + ids.len() <= u64::MAX,
    ensures
        ({
            let after = engine_laws::served_all(e, ids);
            &&& after.wf()
            &&& same_blocks(after, e)
            &&& after.slots == e.slots
            &&& after.next_slot == e.next_slot
            &&& after.stats == (Stats {
                cache_hits: (e.stats.cache_hits + ids.len()) as u64,
                ..e.stats
            })
        }),
    decreases ids.len(),
{
    if ids.len() > 0 {
        let rest = ids.drop_last();
        let id = ids.last();
        assert forall|i: int| 0 <= i < rest.len() implies e.slot_of(#[trigger] rest[i], 0)
            is Some by {
            assert(e.slot_of(ids[i], 0) is Some);
        }
        lemma_all_hits(e, rest);
        let before = engine_laws::served_all(e, rest);
        assert(e.slot_of(ids[ids.len() - 1], 0) is Some);
        engine::lemma_slot_of_same(e, before, id, 0);
        engine::lemma_not_in_ring(before, id, 0);
        assert(before.streamed(id));
        engine_laws::lemma_served_wf(before, id);
    }
}

/// What a ring of `k` slots does with `k + 1` streamed blocks. The first `k` of them
/// are copied, each to the next slot. Asking for these again, in any order and as
/// often as one likes, copies nothing and counts only hits. The one after them is
/// copied to the slot of the first: that one alone is gone and would have to be
/// copied again, and all others are hits.
pub proof fn lemma_ring_turns_over(e: EngineView, ids: Seq<Seq<char>>, again: Seq<Seq<char>>)
    requires
        e.wf(),
        is_fresh(e),
        ids.len() == e.slots.len() + 1,
        ids.no_duplicates(),
        forall|i: int| 0 <= i < ids.len() ==> e.streamed(#[trigger] ids[i]),
        forall|i: int|
            0 <= i < again.len() ==> ids.take(e.slots.len() as int).contains(#[trigger] again[i]),
        e.stats.transfer_count + ids.len() <= u64::MAX,
        e.stats.cache_hits + again.len() <= u64::MAX,
    ensures
        ({
            let k = e.slots.len() as int;
            let first = engine_laws::served_all(e, ids.take(k));
            let second = engine_laws::served_all(first, again);
            let last = engine_laws::served(second, ids[k]);
            &&& first.stats.transfer_count == e.stats.transfer_count + k
            &&& first.stats.cache_hits == e.stats.cache_hits
            &&& forall|i: int| 0 <= i < k ==> first.slot_of(#[trigger] ids[i], 0) == Some(i)
            &&& second.slots == first.slots
            &&& second.stats.transfer_count == e.stats.transfer_count + k
            &&& second.stats.cache_hits == e.stats.cache_hits + again.len()
            &&& last.stats.transfer_count == e.stats.transfer_count + k + 1
            &&& last.stats.cache_hits == second.stats.cache_hits
            &&& last.slot_of(ids[k], 0) == Some(0int)
            &&& forall|i: int| 0 < i < k ==> last.slot_of(#[trigger] ids[i], 0) == Some(i)
            &&& last.not_in_ring(ids[0])
            &&& engine::issued(last, ids[0]) matches Ok((Transfer::Copy { .. }, _))
        }),
{
    let k = e.slots.len() as int;
    let first = engine_laws::served_all(e, ids.take(k));
    lemma_ring_fills(e, ids, k);
    assert forall|i: int| 0 <= i < k implies first.slot_of(#[trigger] ids[i], 0) == Some(i) by {
        assert forall|j: int| 0 <= j < first.slots.len() && j != i implies (
        #[trigger] first.slots[j]).occupant != Some(ids[i]) by {}
        engine_laws::lemma_slot_found(first, ids[i], 0, i);
    }
    assert forall|i: int| 0 <= i < again.len() implies first.slot_of(#[trigger] again[i], 0)
        is Some by {
        assert(ids.take(k).contains(again[i]));
        let j = choose|j: int| 0 <= j < k && ids.take(k)[j] == again[i];
        assert(first.slot_of(ids[j], 0) == Some(j));
    }
    lemma_all_hits(first, again);
    let second = engine_laws::served_all(first, again);
    let last = engine_laws::served(second, ids[k]);
    engine::lemma_not_in_ring(second, ids[k], 0);
    assert(e.streamed(ids[k]) && e.streamed(ids[0]));
    assert(second.slot_of(ids[k], 0) is None) by {
        if second.slot_of(ids[k], 0) is Some {
            let slot = second.slot_of(ids[k], 0)->0;
            assert(first.slots[slot].occupant == Some(ids[slot]));
        }
    }
    engine_laws::lemma_served_wf(second, ids[k]);
    assert forall|i: int| 0 <= i < k implies (#[trigger] last.slots[i]).occupant == if i == 0 {
        Some(ids[k])
    } else {
        Some(ids[i])
    } by {
        assert(first.slots[i].occupant == Some(ids[i]));
    }
    engine_laws::lemma_slot_found(last, ids[k], 0, 0);
    assert forall|i: int| 0 < i < k implies last.slot_of(#[trigger] ids[i], 0) == Some(i) by {
        assert forall|j: int| 0 <= j < last.slots.len() && j != i implies (
        #[trigger] last.slots[j]).occupant != Some(ids[i]) by {}
        engine_laws::lemma_slot_found(last, ids[i], 0, i);
    }
    assert forall|i: int| 0 <= i < last.slots.len() implies (#[trigger] last.slots[i]).occupant
        != Some(ids[0]) by {}
    engine::lemma_not_in_ring(last, ids[0], 0);
}

/// Something that happens to an engine.
pub enum Event {
    /// A block is asked for, and the copy, if one is needed, issued.
    Asked(Seq<char>),
    /// The consumer of a slot is done.
    Done(int),
}

/// An engine after an event. A slot that is not there cannot be done.
pub open spec fn after_event(e: EngineView, event: Event) -> EngineView {
    match event {
        Event::Asked(id) => engine_laws::served(e, id),
        Event::Done(slot) => if 0 <= slot < e.slots.len() {
            engine::released(e, slot)
        } else {
            e
        },
    }
}

/// An engine after some events, one after the other.
pub open spec fn after_events(e: EngineView, events: Seq<Event>) -> EngineView
    decreases events.len(),
{
    if events.len() == 0 {
        e
    } else {
        after_event(after_events(e, events.drop_last()), events.last())
    }
}

/// Whatever happens, an engine stays in good order, and its blocks, those that stay
/// and the sizes of its buffers are what they were.
pub proof fn lemma_blocks_never_change(e: EngineView, events: Seq<Event>)
    requires
        e.wf(),
    ensures
        after_events(e, events).wf(),
        same_blocks(after_events(e, events), e),
    decreases events.len(),
{
    if events.len() > 0 {
        lemma_blocks_never_change(e, events.drop_last());
        let before = after_events(e, events.drop_last());
        match events.last() {
            Event::Asked(id) => {
                engine_laws::lemma_served_wf(before, id);
                lemma_served_same_blocks(before, id);
            },
            Event::Done(slot) => {
                if 0 <= slot < before.slots.len() {
                    engine::lemma_released_wf(before, slot);
                }
            },
        }
    }
}

/// How many bytes some blocks have together.
pub open spec fn bytes_of(ids: Seq<Seq<char>>, blocks: Map<Seq<char>, BlockMetaView>) -> nat
    decreases ids.len(),
{
    if ids.len() == 0 {
        0
    } else {
        bytes_of(ids.drop_last(), blocks) + blocks[ids.last()].total_bytes as nat
    }
}

proof fn lemma_bytes_of_positions(
    order: Seq<Seq<char>>,
    blocks: Map<Seq<char>, BlockMetaView>,
    positions: Seq<int>,
)
    requires
        forall|i: int| 0 <= i < positions.len() ==> 0 <= #[trigger] positions[i] < order.len(),
    ensures
        bytes_of(positions.map_values(|p: int| order[p]), blocks) == residency::bytes_at(
            engine::sizes_of(order, blocks),
            positions,
        ),
    decreases positions.len(),
{
    if positions.len() > 0 {
        let ids = positions.map_values(|p: int| order[p]);
        let rest = positions.drop_last();
        assert forall|i: int| 0 <= i < rest.len() implies 0 <= #[trigger] rest[i] < order.len() by {
            assert(rest[i] == positions[i]);
        }
        lemma_bytes_of_positions(order, blocks, rest);
        assert(ids.drop_last() =~= rest.map_values(|p: int| order[p]));
        assert(ids.last() == order[positions.last()]);
        assert(positions[positions.len() - 1] == positions.last());
    }
}

/// The blocks that stay, of an engine at its start: each once, all of them streamed blocks of the order and
/// none the shared tensors; together as many bytes as the counter says, within the
/// budget; and none that was left out would still fit beside them, unless there is
/// no budget and the block has no bytes. Without a budget there are none.
pub proof fn lemma_resident_set(
    blocks: Map<Seq<char>, BlockMetaView>,
    order: Seq<Seq<char>>,
    shared_bytes: u64,
    pinned_bytes: u64,
    vram_slots: usize,
    budget: u64,
)
    requires
        engine::layout_ok(blocks, order, shared_bytes, pinned_bytes),
        order.no_duplicates(),
        order.len() <= usize::MAX,
    ensures
        ({
            let e = engine::engine_of(
                blocks,
                order,
                shared_bytes,
                pinned_bytes,
                vram_slots,
                budget,
            );
            &&& e.wf()
            &&& e.resident_ids.no_duplicates()
            &&& forall|id: Seq<char>| #[trigger]
                e.resident.contains_key(id) <==> e.resident_ids.contains(id)
            &&& forall|id: Seq<char>| #[trigger]
                e.resident.contains_key(id) ==> order.contains(id) && id != UNASSIGNED@
            &&& e.stats.resident_bytes == bytes_of(e.resident_ids, blocks)
            &&& e.stats.resident_bytes <= budget
            &&& forall|id: Seq<char>| #[trigger]
                order.contains(id) && !e.resident.contains_key(id) && (budget > 0
                    || blocks[id].total_bytes > 0) ==> e.stats.resident_bytes
                    + blocks[id].total_bytes > budget
            &&& budget == 0 ==> e.resident_ids.len() == 0 && e.resident.dom() =~= Set::empty()
        }),
{
    let e = engine::engine_of(blocks, order, shared_bytes, pinned_bytes, vram_slots, budget);
    let sizes = engine::sizes_of(order, blocks);
    let (positions, total) = residency::resident(sizes, budget);
    let ids = e.resident_ids;
    residency::lemma_resident_within_budget(sizes, budget);
    assert forall|i: int| 0 <= i < positions.len() implies 0 <= #[trigger] positions[i]
        < order.len() by {
        assert(positions.contains(positions[i]));
    }
    lemma_bytes_of_positions(order, blocks, positions);
    assert(ids.no_duplicates()) by {
        assert forall|i: int, j: int|
            0 <= i < ids.len() && 0 <= j < ids.len() && i != j implies ids[i] != ids[j] by {
            assert(positions[i] != positions[j]);
        }
    }
    assert(positions.len() <= usize::MAX) by {
        positions.unique_seq_to_set();
        let range = vstd::set_lib::set_int_range(0, order.len() as int);
        vstd::set_lib::lemma_int_range(0, order.len() as int);
        vstd::set_lib::lemma_len_subset(positions.to_set(), range);
    }
    engine::lemma_resident_map(ids, ids.len() as int);
    engine::lemma_engine_starts_well(
        blocks,
        order,
        shared_bytes,
        pinned_bytes,
        vram_slots,
        budget,
    );
    assert forall|id: Seq<char>| #[trigger] e.resident.contains_key(id) <==> ids.contains(id) by {
        if e.resident.contains_key(id) {
            assert(ids[e.resident[id] as int] == id);
        }
        if ids.contains(id) {
            let i = choose|i: int| 0 <= i < ids.len() && ids[i] == id;
            assert(e.resident.contains_key(ids[i]));
        }
    }
    assert forall|id: Seq<char>| #[trigger] e.resident.contains_key(id) implies order.contains(id)
        && id != UNASSIGNED@ by {
        let i = choose|i: int| 0 <= i < ids.len() && ids[i] == id;
        assert(order[positions[i]] == id);
        assert(blocks.contains_key(order[positions[i]]));
    }
    assert forall|id: Seq<char>| #[trigger]
        order.contains(id) && !e.resident.contains_key(id) && (budget > 0
            || blocks[id].total_bytes > 0) implies e.stats.resident_bytes + blocks[id].total_bytes
        > budget by {
        let p = choose|p: int| 0 <= p < order.len() && order[p] == id;
        assert(sizes[p] == blocks[id].total_bytes);
        assert(!positions.contains(p)) by {
            if positions.contains(p) {
                let i = choose|i: int| 0 <= i < positions.len() && positions[i] == p;
                assert(ids[i] == id);
            }
        }
        residency::lemma_left_out_would_not_fit(sizes, budget, p);
    }
}

/// The streamed blocks of a plan whose ids are different, each once.
pub proof fn lemma_order_distinct(blocks: Seq<BlockView>, n: int)
    requires
        engine_laws::ids_distinct(blocks),
        0 <= n <= blocks.len(),
    ensures
        engine_plan::streamed_ids(blocks, n).no_duplicates(),
        engine_plan::streamed_ids(blocks, n).len() <= n,
        forall|i: int|
            0 <= i < engine_plan::streamed_ids(blocks, n).len() ==> exists|k: int|
                0 <= k < n && (#[trigger] blocks[k]).id == #[trigger] engine_plan::streamed_ids(
                    blocks,
                    n,
                )[i],
    decreases n,
{
    if n > 0 {
        lemma_order_distinct(blocks, n - 1);
        let before = engine_plan::streamed_ids(blocks, n - 1);
        let after = engine_plan::streamed_ids(blocks, n);
        assert forall|i: int| 0 <= i < after.len() implies exists|k: int|
            0 <= k < n && (#[trigger] blocks[k]).id == #[trigger] after[i] by {
            if i < before.len() {
                assert(after[i] == before[i]);
                let k = choose|k: int| 0 <= k < n - 1 && (#[trigger] blocks[k]).id == before[i];
                assert(blocks[k].id == after[i]);
            } else {
                assert(blocks[n - 1].id == after[i]);
            }
        }
        assert forall|i: int, j: int|
            0 <= i < after.len() && 0 <= j < after.len() && i != j implies after[i] != after[j] by {
            let low = if i < j {
                i
            } else {
                j
            };
            let high = if i < j {
                j
            } else {
                i
            };
            if high < before.len() {
                assert(before[low] != before[high]);
            } else {
                assert(after[low] == before[low]);
                let k = choose|k: int| 0 <= k < n - 1 && (#[trigger] blocks[k]).id == before[low];
                assert(blocks[k].id != blocks[n - 1].id);
            }
        }
    }
}

/// What [`lemma_resident_set`] says, of an engine made from a plan and whatever has
/// happened to it since: the blocks that stay are those that it began with.
pub proof fn lemma_planned_resident_set(
    blocks: Seq<BlockView>,
    pinned_bytes: u64,
    vram_slots: usize,
    budget: u64,
    events: Seq<Event>,
)
    requires
        engine_laws::ids_distinct(blocks),
        engine_plan::blocks_total(blocks) <= pinned_bytes,
        engine_plan::export_error(blocks, 0) is None,
        blocks.len() <= usize::MAX,
    ensures
        ({
            let n = blocks.len() as int;
            let metas = engine_plan::meta_map(blocks, n);
            let order = engine_plan::streamed_ids(blocks, n);
            let start = engine::engine_of(
                metas,
                order,
                engine_plan::shared_size(blocks, n) as u64,
                pinned_bytes,
                vram_slots,
                budget,
            );
            let e = after_events(start, events);
            &&& e.resident_ids == start.resident_ids
            &&& e.resident == start.resident
            &&& e.resident_ids.no_duplicates()
            &&& forall|id: Seq<char>| #[trigger]
                e.resident.contains_key(id) <==> e.resident_ids.contains(id)
            &&& forall|id: Seq<char>| #[trigger]
                e.resident.contains_key(id) ==> order.contains(id) && id != UNASSIGNED@
            &&& e.stats.resident_bytes == bytes_of(e.resident_ids, metas)
            &&& e.stats.resident_bytes <= budget
            &&& forall|id: Seq<char>| #[trigger]
                order.contains(id) && !e.resident.contains_key(id) && (budget > 0
                    || metas[id].total_bytes > 0) ==> e.stats.resident_bytes
                    + metas[id].total_bytes > budget
            &&& budget == 0 ==> e.resident_ids.len() == 0 && e.resident.dom() =~= Set::empty()
        }),
{
    let n = blocks.len() as int;
    engine::lemma_layout_ok(blocks, n, pinned_bytes);
    lemma_order_distinct(blocks, n);
    let metas = engine_plan::meta_map(blocks, n);
    let order = engine_plan::streamed_ids(blocks, n);
    let shared_bytes = engine_plan::shared_size(blocks, n) as u64;
    lemma_resident_set(metas, order, shared_bytes, pinned_bytes, vram_slots, budget);
    lemma_blocks_never_change(
        engine::engine_of(metas, order, shared_bytes, pinned_bytes, vram_slots, budget),
        events,
    );
}

/// The buffers of an engine on its device.
pub struct Device {
    /// One for each slot of the ring.
    pub ring: Seq<Seq<u8>>,
    /// One for each block that stays, in the order in which they were chosen.
    pub resident: Seq<Seq<u8>>,
    /// That of the shared tensors.
    pub shared: Seq<u8>,
}

/// The bytes of a block in the pinned buffer.
pub open spec fn stored(e: EngineView, pinned: Seq<u8>, id: Seq<char>) -> Seq<u8> {
    let b = e.blocks[id];
    let from = engine::least_offset(b.tensors) as int;
    pinned.subrange(from, from + b.total_bytes)
}

/// The buffers are large enough, those that are filled once hold their block, and
/// those of the ring begin with the block that the slot names.
pub open spec fn holds(e: EngineView, d: Device, pinned: Seq<u8>) -> bool {
    &&& d.ring.len() == e.slots.len()
    &&& forall|i: int| 0 <= i < d.ring.len() ==> (#[trigger] d.ring[i]).len() >= e.slot_bytes
    &&& forall|i: int|
        0 <= i < e.slots.len() ==> match (#[trigger] e.slots[i]).occupant {
            Some(id) => d.ring[i].take(e.blocks[id].total_bytes as int) == stored(e, pinned, id),
            None => true,
        }
    &&& d.resident.len() == e.resident_ids.len()
    &&& forall|i: int|
        0 <= i < d.resident.len() ==> #[trigger] d.resident[i] == stored(
            e,
            pinned,
            e.resident_ids[i],
        )
    &&& e.blocks.contains_key(UNASSIGNED@) ==> d.shared == stored(e, pinned, UNASSIGNED@)
}

/// A buffer after some bytes were copied to its start.
pub open spec fn written(buffer: Seq<u8>, data: Seq<u8>) -> Seq<u8> {
    data + buffer.skip(data.len() as int)
}

/// The buffers after an event: a copy that is asked for is performed.
pub open spec fn device_after(e: EngineView, d: Device, pinned: Seq<u8>, event: Event) -> Device {
    match event {
        Event::Asked(id) => match engine::issued(e, id) {
            Ok((Transfer::Copy { slot, pinned_offset, bytes, .. }, _)) => Device {
                ring: d.ring.update(
                    slot as int,
                    written(
                        d.ring[slot as int],
                        pinned.subrange(pinned_offset as int, pinned_offset + bytes),
                    ),
                ),
                ..d
            },
            _ => d,
        },
        Event::Done(_) => d,
    }
}

/// The buffers after some events, one after the other.
pub open spec fn device_after_all(
    e: EngineView,
    d: Device,
    pinned: Seq<u8>,
    events: Seq<Event>,
) -> Device
    decreases events.len(),
{
    if events.len() == 0 {
        d
    } else {
        let rest = events.drop_last();
        device_after(
            after_events(e, rest),
            device_after_all(e, d, pinned, rest),
            pinned,
            events.last(),
        )
    }
}

/// The buffer that an answer to a request points to.
pub open spec fn pointed_to(d: Device, t: Transfer) -> Seq<u8> {
    match t {
        Transfer::Shared => d.shared,
        Transfer::Resident { at } => d.resident[at as int],
        Transfer::Cached { slot } => d.ring[slot as int],
        Transfer::Copy { slot, .. } => d.ring[slot as int],
    }
}

/// Where a copy of a block begins is where the block does.
proof fn lemma_source_is_start(b: BlockMetaView, pinned_bytes: u64)
    requires
        engine::well_placed(b, pinned_bytes),
    ensures
        engine::source_offset(b) == engine::least_offset(b.tensors),
        b.tensors.len() > 0 ==> engine::source_offset(b) + b.total_bytes <= pinned_bytes,
        b.tensors.len() == 0 ==> b.total_bytes == 0,
{
    if b.tensors.len() > 0 {
        assert forall|i: int| 0 <= i < b.tensors.len() implies b.tensors[0].pinned_offset <= (
        #[trigger] b.tensors[i]).pinned_offset by {}
        engine::lemma_least_offset(b.tensors);
        assert(b.tensors[0].pinned_offset + b.total_bytes <= pinned_bytes);
    }
}

proof fn lemma_event_keeps_contents(e: EngineView, d: Device, pinned: Seq<u8>, event: Event)
    requires
        e.wf(),
        holds(e, d, pinned),
        pinned.len() == e.stats.pinned_bytes,
    ensures
        holds(after_event(e, event), device_after(e, d, pinned, event), pinned),
{
    let after = after_event(e, event);
    let device = device_after(e, d, pinned, event);
    match event {
        Event::Asked(id) => {
            lemma_served_same_blocks(e, id);
            match engine::issued(e, id) {
                Ok((Transfer::Copy { slot, pinned_offset, bytes, .. }, _)) => {
                    assert(e.streamed(id));
                    lemma_source_is_start(e.blocks[id], e.stats.pinned_bytes);
                    let data = pinned.subrange(pinned_offset as int, pinned_offset + bytes);
                    let buffer = written(d.ring[slot as int], data);
                    assert(data == stored(e, pinned, id));
                    assert(d.ring[slot as int].len() >= e.slot_bytes);
                    assert(buffer.take(bytes as int) =~= data);
                    assert forall|i: int| 0 <= i < after.slots.len() implies match (
                    #[trigger] after.slots[i]).occupant {
                        Some(x) => device.ring[i].take(after.blocks[x].total_bytes as int)
                            == stored(after, pinned, x),
                        None => true,
                    } by {
                        if i != slot {
                            assert(after.slots[i] == e.slots[i]);
                        }
                    }
                },
                _ => {},
            }
        },
        Event::Done(slot) => {
            if 0 <= slot < e.slots.len() {
                assert forall|i: int| 0 <= i < after.slots.len() implies (
                #[trigger] after.slots[i]).occupant == e.slots[i].occupant by {}
            }
        },
    }
}

/// Whatever happens, every slot of the ring holds the data of the block that it
/// names, and the other buffers hold theirs.
pub proof fn lemma_contents_kept(e: EngineView, d: Device, pinned: Seq<u8>, events: Seq<Event>)
    requires
        e.wf(),
        holds(e, d, pinned),
        pinned.len() == e.stats.pinned_bytes,
    ensures
        holds(after_events(e, events), device_after_all(e, d, pinned, events), pinned),
    decreases events.len(),
{
    if events.len() > 0 {
        let rest = events.drop_last();
        lemma_contents_kept(e, d, pinned, rest);
        lemma_blocks_never_change(e, rest);
        lemma_event_keeps_contents(
            after_events(e, rest),
            device_after_all(e, d, pinned, rest),
            pinned,
            events.last(),
        );
    }
}

/// Whatever was asked for before, a known block that is asked for is found on the
/// device, and the buffer that the answer points to begins with the bytes that the
/// block has in the pinned buffer. So a block that left the ring and came back shows
/// the same bytes.
pub proof fn lemma_request_shows_block(
    e: EngineView,
    d: Device,
    pinned: Seq<u8>,
    events: Seq<Event>,
    id: Seq<char>,
)
    requires
        e.wf(),
        holds(e, d, pinned),
        pinned.len() == e.stats.pinned_bytes,
        e.blocks.contains_key(id),
    ensures
        ({
            let now = after_events(e, events);
            let device = device_after_all(e, d, pinned, events.push(Event::Asked(id)));
            engine::issued(now, id) matches Ok((t, _)) && pointed_to(device, t).len()
                >= e.blocks[id].total_bytes && pointed_to(device, t).take(
                e.blocks[id].total_bytes as int,
            ) == stored(e, pinned, id)
        }),
{
    let now = after_events(e, events);
    let all = events.push(Event::Asked(id));
    let device = device_after_all(e, d, pinned, all);
    assert(all.drop_last() =~= events);
    lemma_blocks_never_change(e, events);
    lemma_contents_kept(e, d, pinned, all);
    let after = after_events(e, all);
    lemma_blocks_never_change(e, all);
    let data = stored(e, pinned, id);
    assert(engine::well_placed(now.blocks[id], now.stats.pinned_bytes));
    lemma_source_is_start(now.blocks[id], now.stats.pinned_bytes);
    assert(data.take(data.len() as int) =~= data);
    engine::lemma_not_in_ring(now, id, 0);
    match engine::issued(now, id) {
        Ok((t, _)) => match t {
            Transfer::Shared => {},
            Transfer::Resident { at } => {
                assert(now.resident.contains_key(id));
                assert(device.resident[at as int] == stored(after, pinned, id));
            },
            Transfer::Cached { slot } => {
                assert(after.slots[slot as int].occupant == Some(id));
                assert(now.streamed(id));
                assert(device.ring[slot as int].len() >= now.slot_bytes);
            },
            Transfer::Copy { slot, .. } => {
                assert(after.slots[slot as int].occupant == Some(id));
                assert(now.streamed(id));
                assert(device.ring[slot as int].len() >= now.slot_bytes);
            },
        },
        Err(_) => {},
    }
}

/// What is exported of a fetched block are its tensors: as many, under their names
/// and with their types and shapes; and in the buffer that the answer points to,
/// which begins at `base` on the device, the bytes from the exported address on are
/// those that reading the tensor from the model gives, whatever was fetched before.
pub proof fn lemma_fetched_tensor_is_read(
    m: ModelView,
    dest: Seq<u8>,
    blocks: Seq<BlockView>,
    e: EngineView,
    d: Device,
    events: Seq<Event>,
    k: int,
    base: u64,
    i: int,
)
    requires
        m.wf(),
        engine_plan::own_blocks(m, blocks),
        engine_laws::ids_distinct(blocks),
        dest.len() == engine_plan::blocks_total(blocks),
        engine_plan::blocks_total(blocks) <= u64::MAX,
        e.wf(),
        e.blocks == engine_plan::meta_map(blocks, blocks.len() as int),
        e.stats.pinned_bytes == dest.len(),
        holds(e, d, engine_plan::filled(m, dest, blocks, blocks.len() as int)),
        0 <= k < blocks.len(),
        0 <= i < blocks[k].tensors.len(),
        base + model::total_bytes(blocks[k].tensors) <= u64::MAX,
    ensures
        ({
            let pinned = engine_plan::filled(m, dest, blocks, blocks.len() as int);
            let id = blocks[k].id;
            let t = blocks[k].tensors[i];
            let now = after_events(e, events);
            let device = device_after_all(e, d, pinned, events.push(Event::Asked(id)));
            let exports = engine::exports_of(now.blocks[id], base);
            let at = exports[i].device_ptr - base;
            &&& exports.len() == blocks[k].tensors.len()
            &&& exports[i].name == t.name
            &&& exports[i].shape == t.shape
            &&& exports[i].dtype == dlpack::exported(t.dtype)->0
            &&& engine::issued(now, id) matches Ok((answer, _)) && 0 <= at <= at + t.byte_len
                <= pointed_to(device, answer).len() && pointed_to(device, answer).subrange(
                at,
                at + t.byte_len,
            ) == m.data(t.name)
        }),
{
    let n = blocks.len() as int;
    let pinned = engine_plan::filled(m, dest, blocks, n);
    let id = blocks[k].id;
    let t = blocks[k].tensors[i];
    engine_laws::lemma_meta_of_block(blocks, k, n);
    engine_laws::lemma_pinned_holds_blocks(m, dest, blocks, k);
    lemma_request_shows_block(e, d, pinned, events, id);
    lemma_blocks_never_change(e, events);
    engine_laws::lemma_export_shows_tensor(m, dest, blocks, k, base, i);
    assert(engine::well_placed(e.blocks[id], e.stats.pinned_bytes));
    lemma_source_is_start(e.blocks[id], e.stats.pinned_bytes);
    let now = after_events(e, events);
    let device = device_after_all(e, d, pinned, events.push(Event::Asked(id)));
    let answer = (engine::issued(now, id)->Ok_0).0;
    let buffer = pointed_to(device, answer);
    let total = e.blocks[id].total_bytes as int;
    let at = engine::exports_of(now.blocks[id], base)[i].device_ptr - base;
    assert(buffer.subrange(at, at + t.byte_len) =~= buffer.take(total).subrange(
        at,
        at + t.byte_len,
    ));
}

} // verus!
