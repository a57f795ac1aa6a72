//! What holds between the operations of a model: it reads what the headers of
//! its files declare, its own blocks and no others, and a copied block is its
//! tensors one behind the other.

use vstd::prelude::*;

use crate::block;
use crate::block::{BlockView, ConfigView};
use crate::block_laws;
use crate::checksum;
use crate::checksum::ChecksumView;
use crate::cli;
use crate::descriptor::DescriptorView;
use crate::error::ErrorView;
use crate::header;
use crate::model;
use crate::model::{LayoutView, ModelView};
use crate::name_map;
use crate::shard;
use crate::text;

verus! {

/// The descriptors are those that the model has under these names.
pub open spec fn consistent(m: ModelView, ds: Seq<DescriptorView>) -> bool {
    forall|i: int|
        0 <= i < ds.len() ==> m.has((#[trigger] ds[i]).name) && m.catalog.tensors[ds[i].name]
            == ds[i]
}

proof fn lemma_listed_consistent(m: ModelView)
    requires
        m.wf(),
    ensures
        consistent(m, m.listed()),
        forall|name: Seq<char>| #[trigger]
            m.has(name) ==> m.listed().contains(m.catalog.tensors[name]),
{
    let names = name_map::ordered(m.catalog.tensors.dom());
    name_map::lemma_ordered_exists(m.catalog.tensors.dom());
    assert forall|i: int| 0 <= i < m.listed().len() implies m.has((#[trigger] m.listed()[i]).name)
        && m.catalog.tensors[m.listed()[i].name] == m.listed()[i] by {
        assert(names.contains(names[i]));
        assert(m.has(names[i]));
    }
    assert forall|name: Seq<char>| #[trigger] m.has(name) implies m.listed().contains(
        m.catalog.tensors[name],
    ) by {
        assert(names.contains(name));
        let i = choose|i: int| 0 <= i < names.len() && names[i] == name;
        assert(m.listed()[i] == m.catalog.tensors[name]);
    }
}

/// The tensors of a model's own blocks are the model's tensors.
pub proof fn lemma_own_block_consistent(m: ModelView, config: ConfigView, b: BlockView)
    requires
        m.wf(),
        block::grouped(m.listed(), config).contains(b),
    ensures
        consistent(m, b.tensors),
{
    let ds = m.listed();
    lemma_listed_consistent(m);
    block::lemma_grouped_contents(ds, config);
    assert forall|i: int| 0 <= i < b.tensors.len() implies m.has((#[trigger] b.tensors[i]).name)
        && m.catalog.tensors[b.tensors[i].name] == b.tensors[i] by {
        let d = b.tensors[i];
        assert(b.tensors.contains(d));
        if block::is_family_block(ds, config, config.families.len() as int, b) {
            let (f, index) = choose|f: int, index: u64|
                0 <= f < config.families.len() && b == #[trigger] block::family_block(
                    ds,
                    config,
                    config.families[f],
                    index,
                );
            let label = config.families[f];
            ds.lemma_filter_contains_rev(
                |d: DescriptorView| block::matched(config, d.name) == Some((label, index)),
                d,
            );
        } else {
            ds.lemma_filter_contains_rev(
                |d: DescriptorView| block::matched(config, d.name) is None,
                d,
            );
        }
        assert(ds.contains(d));
        let j = choose|j: int| 0 <= j < ds.len() && ds[j] == d;
        assert(m.has(ds[j].name));
    }
}

pub proof fn lemma_nothing_missing(m: ModelView, ds: Seq<DescriptorView>)
    requires
        consistent(m, ds),
    ensures
        m.first_missing(ds) is None,
    decreases ds.len(),
{
    if ds.len() > 0 {
        assert(m.has(ds[ds.len() - 1].name));
        assert(consistent(m, ds.drop_last())) by {
            assert forall|i: int| 0 <= i < ds.len() - 1 implies m.has(
                (#[trigger] ds.drop_last()[i]).name,
            ) && m.catalog.tensors[ds.drop_last()[i].name] == ds.drop_last()[i] by {
                assert(m.has(ds[i].name));
            }
        }
        lemma_nothing_missing(m, ds.drop_last());
    }
}

/// A model reads every block that it handed out.
pub proof fn lemma_own_block_readable(m: ModelView, config: ConfigView, b: BlockView)
    requires
        m.wf(),
        block::grouped(m.listed(), config).contains(b),
    ensures
        m.block_error(model::stamped(b, m.id)) is None,
{
    lemma_own_block_consistent(m, config, b);
    lemma_nothing_missing(m, b.tensors);
}

/// A model refuses every block of a model with another id, whatever the block
/// holds.
pub proof fn lemma_foreign_block_refused(m: ModelView, other: ModelView, b: BlockView)
    requires
        m.id != other.id,
    ensures
        m.block_error(model::stamped(b, other.id)) == Some(
            ErrorView::BlockFromDifferentModel { block_id: b.id },
        ),
{
}

/// A block that no model has stamped is refused by every model.
pub proof fn lemma_unstamped_block_refused(
    m: ModelView,
    ds: Seq<DescriptorView>,
    config: ConfigView,
    b: BlockView,
)
    requires
        m.wf(),
        block::grouped(ds, config).contains(b),
    ensures
        m.block_error(b) == Some(ErrorView::BlockFromDifferentModel { block_id: b.id }),
{
    block::lemma_grouped_contents(ds, config);
}

/// A block is refused as another model's exactly where it does not carry the id of
/// this model, whether it is to be viewed, checked or copied, and whatever the size
/// of the buffer that it is to be copied into.
pub proof fn lemma_provenance_decides(m: ModelView, b: BlockView, room: int)
    ensures
        ({
            let refused = Some(ErrorView::BlockFromDifferentModel { block_id: b.id });
            &&& m.block_error(b) == refused <==> b.model_id != m.id
            &&& m.copy_error(b, room) == refused <==> b.model_id != m.id
        }),
{
}

/// The descriptor of a tensor is valid: its shard is there, its bytes lie behind
/// the header and within the file, they are as many as its elements need, and
/// reading it gives that many.
pub proof fn lemma_descriptor_valid(m: ModelView, name: Seq<char>)
    requires
        m.wf(),
        m.has(name),
    ensures
        ({
            let d = m.catalog.tensors[name];
            let s = m.catalog.shards[d.shard_id as int];
            &&& d.name == name
            &&& d.shard_id < m.catalog.shards.len()
            &&& 8 + header::declared_len(s.bytes) <= d.file_offset
            &&& d.file_offset + d.byte_len <= s.bytes.len()
            &&& 8 * d.byte_len == header::element_count(d.shape) * d.dtype.spec_bitsize()
            &&& m.data(name).len() == d.byte_len
        }),
{
    let d = m.catalog.tensors[name];
    assert(m.catalog.declared(name));
    assert(shard::framed(m.catalog.shards[d.shard_id as int]));
}

/// The bytes of two tensors of one shard do not overlap.
pub proof fn lemma_tensors_do_not_overlap(m: ModelView, a: Seq<char>, b: Seq<char>)
    requires
        m.wf(),
        m.has(a),
        m.has(b),
        a != b,
        m.catalog.tensors[a].shard_id == m.catalog.tensors[b].shard_id,
    ensures
        ({
            let x = m.catalog.tensors[a];
            let y = m.catalog.tensors[b];
            x.file_offset + x.byte_len <= y.file_offset || y.file_offset + y.byte_len
                <= x.file_offset
        }),
{
    let s = m.catalog.shards[m.catalog.tensors[a].shard_id as int];
    let found = header::tensors_of(s.bytes);
    assert(m.catalog.declared(a) && m.catalog.declared(b));
    assert(shard::framed(s));
    assert(found.contains_key(a) && found.contains_key(b));
    assert(header::ranges_apart(found[a].data_offsets, found[b].data_offsets));
}

/// Reading a tensor gives the bytes that the header of its shard declares for it,
/// and its type and shape are those that the header declares.
pub proof fn lemma_read_is_declared(m: ModelView, name: Seq<char>)
    requires
        m.wf(),
        m.has(name),
    ensures
        ({
            let d = m.catalog.tensors[name];
            let bytes = m.catalog.shards[d.shard_id as int].bytes;
            let info = header::tensors_of(bytes)[name];
            let start = 8 + header::declared_len(bytes) as int;
            &&& header::tensors_of(bytes).contains_key(name)
            &&& d.dtype == info.dtype
            &&& d.shape == info.shape
            &&& m.data(name) == bytes.subrange(
                start + info.data_offsets.0,
                start + info.data_offsets.1,
            )
        }),
{
    let d = m.catalog.tensors[name];
    assert(m.catalog.declared(name));
    assert(shard::framed(m.catalog.shards[d.shard_id as int]));
}

/// Every tensor that the header of a shard declares can be read from the model,
/// and no other shard declares a tensor of its name.
pub proof fn lemma_declared_is_read(m: ModelView, i: int, name: Seq<char>)
    requires
        m.wf(),
        0 <= i < m.catalog.shards.len(),
        header::tensors_of(m.catalog.shards[i].bytes).contains_key(name),
    ensures
        m.has(name),
        m.catalog.tensors[name].shard_id == i,
        forall|j: int|
            0 <= j < m.catalog.shards.len() && j != i ==> !header::tensors_of(
                (#[trigger] m.catalog.shards[j]).bytes,
            ).contains_key(name),
{
}

/// The bytes of some tensors, one behind the other.
pub open spec fn joined_data(m: ModelView, ds: Seq<DescriptorView>) -> Seq<u8>
    decreases ds.len(),
{
    if ds.len() == 0 {
        Seq::empty()
    } else {
        joined_data(m, ds.drop_last()) + m.data(ds.last().name)
    }
}

proof fn lemma_consistent_prefix(m: ModelView, ds: Seq<DescriptorView>, k: int)
    requires
        consistent(m, ds),
        0 <= k <= ds.len(),
    ensures
        consistent(m, ds.take(k)),
{
    assert forall|i: int| 0 <= i < k implies m.has((#[trigger] ds.take(k)[i]).name)
        && m.catalog.tensors[ds.take(k)[i].name] == ds.take(k)[i] by {
        assert(m.has(ds[i].name));
    }
}

/// The bytes of a tensor are as many as its descriptor says.
pub proof fn lemma_data_len(m: ModelView, name: Seq<char>)
    requires
        m.wf(),
        m.has(name),
    ensures
        m.data(name).len() == m.catalog.tensors[name].byte_len,
{
}

pub proof fn lemma_joined_len(m: ModelView, ds: Seq<DescriptorView>)
    requires
        m.wf(),
        consistent(m, ds),
    ensures
        joined_data(m, ds).len() == model::total_bytes(ds),
    decreases ds.len(),
{
    if ds.len() > 0 {
        assert(ds.drop_last() =~= ds.take(ds.len() - 1));
        lemma_consistent_prefix(m, ds, ds.len() - 1);
        lemma_joined_len(m, ds.drop_last());
        assert(m.has(ds[ds.len() - 1].name));
        lemma_data_len(m, ds.last().name);
    }
}

pub proof fn lemma_room(m: ModelView, ds: Seq<DescriptorView>, room: int)
    requires
        m.wf(),
        consistent(m, ds),
        model::total_bytes(ds) <= room,
    ensures
        model::has_room(m, ds, room),
    decreases ds.len(),
{
    if ds.len() > 0 {
        assert(ds.drop_last() =~= ds.take(ds.len() - 1));
        lemma_consistent_prefix(m, ds, ds.len() - 1);
        lemma_room(m, ds.drop_last(), room);
        assert(m.has(ds[ds.len() - 1].name));
        lemma_data_len(m, ds.last().name);
    }
}

/// A model's own block can be copied into any buffer: the copy succeeds or the
/// buffer is reported as too small.
pub proof fn lemma_own_block_copyable(m: ModelView, config: ConfigView, b: BlockView, room: int)
    requires
        m.wf(),
        block::grouped(m.listed(), config).contains(b),
        model::total_bytes(b.tensors) <= u64::MAX,
    ensures
        model::copyable(m, model::stamped(b, m.id), room),
{
    lemma_own_block_consistent(m, config, b);
    if model::total_bytes(b.tensors) <= room {
        lemma_room(m, b.tensors, room);
    }
}

/// Copying a block puts its tensors one behind the other at the start of the
/// buffer and leaves the rest of the buffer as it was.
pub proof fn lemma_copy_is_concatenation(m: ModelView, dest: Seq<u8>, ds: Seq<DescriptorView>)
    requires
        m.wf(),
        consistent(m, ds),
        model::total_bytes(ds) <= dest.len(),
    ensures
        model::copied(m, dest, ds) == joined_data(m, ds) + dest.skip(
            model::total_bytes(ds) as int,
        ),
    decreases ds.len(),
{
    if ds.len() == 0 {
        assert(dest.skip(0) =~= dest);
        assert(joined_data(m, ds) + dest.skip(0) =~= dest);
    } else {
        let rest = ds.drop_last();
        let name = ds.last().name;
        assert(rest =~= ds.take(ds.len() - 1));
        lemma_consistent_prefix(m, ds, ds.len() - 1);
        lemma_copy_is_concatenation(m, dest, rest);
        lemma_joined_len(m, rest);
        assert(m.has(ds[ds.len() - 1].name));
        lemma_data_len(m, name);
        let at = model::total_bytes(rest) as int;
        let before = joined_data(m, rest) + dest.skip(at);
        assert(before.take(at) =~= joined_data(m, rest));
        assert(before.skip(at + m.data(name).len()) =~= dest.skip(at + m.data(name).len()));
        assert(model::copied(m, dest, ds) =~= joined_data(m, ds) + dest.skip(
            model::total_bytes(ds) as int,
        ));
    }
}

/// The layout of a copied block says where each tensor's bytes are.
pub proof fn lemma_layout_locates(
    m: ModelView,
    dest: Seq<u8>,
    ds: Seq<DescriptorView>,
    i: int,
)
    requires
        m.wf(),
        consistent(m, ds),
        model::total_bytes(ds) <= dest.len(),
        model::total_bytes(ds) <= u64::MAX,
        0 <= i < ds.len(),
    ensures
        model::layout_of(ds).len() == ds.len(),
        ({
            let l = model::layout_of(ds)[i];
            &&& l.name == ds[i].name
            &&& l.offset + l.len <= model::total_bytes(ds)
            &&& model::copied(m, dest, ds).subrange(l.offset as int, l.offset + l.len) == m.data(
                ds[i].name,
            )
        }),
    decreases ds.len(),
{
    let rest = ds.drop_last();
    assert(rest =~= ds.take(ds.len() - 1));
    lemma_consistent_prefix(m, ds, ds.len() - 1);
    lemma_layout_len(rest);
    lemma_copy_is_concatenation(m, dest, ds);
    lemma_copy_is_concatenation(m, dest, rest);
    lemma_joined_len(m, rest);
    lemma_joined_len(m, ds);
    assert(m.has(ds[ds.len() - 1].name));
    lemma_data_len(m, ds.last().name);
    let l = model::layout_of(ds)[i];
    let whole = model::copied(m, dest, ds);
    if i == ds.len() - 1 {
        assert(whole.subrange(l.offset as int, l.offset + l.len) =~= m.data(ds[i].name));
    } else {
        lemma_layout_locates(m, dest, rest, i);
        assert(model::layout_of(rest)[i] == l);
        assert(whole.subrange(l.offset as int, l.offset + l.len) =~= model::copied(
            m,
            dest,
            rest,
        ).subrange(l.offset as int, l.offset + l.len));
    }
}

proof fn lemma_layout_len(ds: Seq<DescriptorView>)
    ensures
        model::layout_of(ds).len() == ds.len(),
    decreases ds.len(),
{
    if ds.len() > 0 {
        lemma_layout_len(ds.drop_last());
    }
}

/// Each tensor of a layout begins where its predecessors end.
pub proof fn lemma_layout_entry(ds: Seq<DescriptorView>, i: int)
    requires
        0 <= i < ds.len(),
    ensures
        model::layout_of(ds).len() == ds.len(),
        model::layout_of(ds)[i] == (LayoutView {
            name: ds[i].name,
            offset: model::total_bytes(ds.take(i)) as u64,
            len: ds[i].byte_len,
        }),
    decreases ds.len(),
{
    lemma_layout_len(ds.drop_last());
    if i < ds.len() - 1 {
        lemma_layout_entry(ds.drop_last(), i);
        assert(ds.drop_last().take(i) =~= ds.take(i));
    } else {
        assert(ds.drop_last() =~= ds.take(i));
    }
}

/// A block copied into a caller's buffer has the bytes that the block copied
/// into a buffer of its own has.
pub proof fn lemma_copies_agree(
    m: ModelView,
    dest: Seq<u8>,
    fresh: Seq<u8>,
    ds: Seq<DescriptorView>,
)
    requires
        m.wf(),
        consistent(m, ds),
        model::total_bytes(ds) <= dest.len(),
        fresh.len() == model::total_bytes(ds),
    ensures
        model::copied(m, dest, ds).take(model::total_bytes(ds) as int) == model::copied(
            m,
            fresh,
            ds,
        ),
{
    lemma_copy_is_concatenation(m, dest, ds);
    lemma_copy_is_concatenation(m, fresh, ds);
    lemma_joined_len(m, ds);
    assert(model::copied(m, dest, ds).take(model::total_bytes(ds) as int) =~= model::copied(
        m,
        fresh,
        ds,
    ));
}

/// Entry `i` of a layout is that of tensor `i`, and its bytes in the buffer are the
/// tensor's.
pub open spec fn entry_locates(m: ModelView, buffer: Seq<u8>, ds: Seq<DescriptorView>, i: int) -> bool {
    let l = model::layout_of(ds)[i];
    &&& l.name == ds[i].name
    &&& l.len == ds[i].byte_len
    &&& l.offset == model::total_bytes(ds.take(i))
    &&& l.offset + l.len == model::total_bytes(ds.take(i + 1))
    &&& buffer.subrange(l.offset as int, l.offset + l.len) == m.data(ds[i].name)
}

/// Copying a model's own block into a buffer that is large enough succeeds. The
/// layout has an entry for each tensor in the block's order; the entries follow one
/// another from the start of the buffer to the size of the block without gap or
/// overlap; each shows its tensor's bytes; the rest of the buffer is untouched; and
/// what was written is what a copy into a buffer of its own holds.
pub proof fn lemma_copy_into_is_exact(
    m: ModelView,
    config: ConfigView,
    b: BlockView,
    dest: Seq<u8>,
)
    requires
        m.wf(),
        block::grouped(m.listed(), config).contains(b),
        model::total_bytes(b.tensors) <= dest.len() <= u64::MAX,
    ensures
        ({
            let own = model::stamped(b, m.id);
            let ds = b.tensors;
            let total = model::total_bytes(ds) as int;
            let layout = model::layout_of(ds);
            let after = model::copied(m, dest, ds);
            &&& model::copyable(m, own, dest.len() as int)
            &&& m.copy_error(own, dest.len() as int) is None
            &&& layout.len() == ds.len()
            &&& forall|i: int| 0 <= i < ds.len() ==> #[trigger] entry_locates(m, after, ds, i)
            &&& ds.len() > 0 ==> layout[0].offset == 0
            &&& ds.len() > 0 ==> layout.last().offset + layout.last().len == total
            &&& after.len() == dest.len()
            &&& after.skip(total) == dest.skip(total)
            &&& after.take(total) == model::copied(m, Seq::new(total as nat, |i: int| 0u8), ds)
        }),
{
    let ds = b.tensors;
    let total = model::total_bytes(ds) as int;
    let layout = model::layout_of(ds);
    let after = model::copied(m, dest, ds);
    lemma_own_block_consistent(m, config, b);
    lemma_own_block_readable(m, config, b);
    lemma_own_block_copyable(m, config, b, dest.len() as int);
    lemma_layout_len(ds);
    lemma_joined_len(m, ds);
    lemma_copy_is_concatenation(m, dest, ds);
    lemma_copies_agree(m, dest, Seq::new(total as nat, |i: int| 0u8), ds);
    assert(after.skip(total) =~= dest.skip(total));
    assert forall|i: int| 0 <= i < ds.len() implies #[trigger] entry_locates(m, after, ds, i) by {
        lemma_layout_entry(ds, i);
        lemma_layout_locates(m, dest, ds, i);
        model::lemma_total_bytes_prefix(ds, i);
        assert(ds.take(i + 1).drop_last() =~= ds.take(i));
    }
    if ds.len() > 0 {
        let last = ds.len() - 1;
        assert(ds.take(0) =~= Seq::<DescriptorView>::empty());
        assert(ds.take(last + 1) =~= ds);
        assert(entry_locates(m, after, ds, 0) && entry_locates(m, after, ds, last));
    }
}

/// Every tensor of a model is in exactly one block.
pub proof fn lemma_blocks_cover_model(m: ModelView, config: ConfigView, name: Seq<char>)
    requires
        m.wf(),
        m.has(name),
    ensures
        block_laws::all_tensors(block::grouped(m.listed(), config)).to_multiset().count(
            m.catalog.tensors[name],
        ) == 1,
{
    block_laws::lemma_blocks_partition(m.listed(), config);
    lemma_listed_consistent(m);
    let names = name_map::ordered(m.catalog.tensors.dom());
    name_map::lemma_ordered_exists(m.catalog.tensors.dom());
    assert(m.listed().no_duplicates()) by {
        assert forall|i: int, j: int|
            0 <= i < m.listed().len() && 0 <= j < m.listed().len() && i != j implies m.listed()[i]
            != m.listed()[j] by {
            assert(names.contains(names[i]) && names.contains(names[j]));
            assert(m.has(names[i]) && m.has(names[j]));
            assert(m.listed()[i].name == names[i] && m.listed()[j].name == names[j]);
            name_map::lemma_ascending_distinct(
                names,
                if i < j { i } else { j },
                if i < j { j } else { i },
            );
        }
    }
    m.listed().lemma_multiset_has_no_duplicates();
    m.listed().to_multiset_ensures();
    assert(m.listed().contains(m.catalog.tensors[name]));
}

/// The bytes of some tensors and some more are the bytes of both together.
pub proof fn lemma_bytes_add_up(a: Seq<DescriptorView>, b: Seq<DescriptorView>)
    ensures
        model::total_bytes(a + b) == model::total_bytes(a) + model::total_bytes(b),
    decreases b.len(),
{
    if b.len() == 0 {
        assert(a + b =~= a);
    } else {
        assert((a + b).drop_last() =~= a + b.drop_last());
        assert((a + b).last() == b.last());
        lemma_bytes_add_up(a, b.drop_last());
    }
}

/// One tensor counts with its own bytes.
pub proof fn lemma_bytes_of_one(d: DescriptorView)
    ensures
        model::total_bytes(seq![d]) == d.byte_len,
{
    assert(seq![d].drop_last() =~= Seq::<DescriptorView>::empty());
    assert(model::total_bytes(Seq::<DescriptorView>::empty()) == 0);
}

/// The data of some tensors is followed by that of the next ones, and the data of one
/// tensor is what reading it gives.
pub proof fn lemma_data_joins(
    m: ModelView,
    a: Seq<DescriptorView>,
    b: Seq<DescriptorView>,
    d: DescriptorView,
)
    ensures
        joined_data(m, a + b) == joined_data(m, a) + joined_data(m, b),
        joined_data(m, seq![d]) == m.data(d.name),
    decreases b.len(),
{
    assert(seq![d].drop_last() =~= Seq::<DescriptorView>::empty());
    assert(joined_data(m, Seq::<DescriptorView>::empty()) =~= Seq::<u8>::empty());
    assert(joined_data(m, seq![d]) =~= m.data(d.name));
    if b.len() == 0 {
        assert(a + b =~= a);
        assert(joined_data(m, a) + joined_data(m, b) =~= joined_data(m, a));
    } else {
        assert((a + b).drop_last() =~= a + b.drop_last());
        assert((a + b).last() == b.last());
        lemma_data_joins(m, a, b.drop_last(), d);
        assert(joined_data(m, a + b) =~= joined_data(m, a) + joined_data(m, b));
    }
}

/// The tensor that is reported missing is the first of those asked for that the model
/// does not have, and none is reported exactly where it has all. What can be read of
/// them are those before it.
pub proof fn lemma_first_missing_is_reported(m: ModelView, ds: Seq<DescriptorView>)
    ensures
        match m.first_missing(ds) {
            None => {
                &&& forall|i: int| 0 <= i < ds.len() ==> m.has((#[trigger] ds[i]).name)
                &&& m.readable(ds) == ds
            },
            Some(name) => exists|k: int|
                {
                    &&& 0 <= k < ds.len()
                    &&& (#[trigger] ds[k]).name == name
                    &&& !m.has(name)
                    &&& forall|i: int| 0 <= i < k ==> m.has((#[trigger] ds[i]).name)
                    &&& m.readable(ds) == ds.take(k)
                },
        },
    decreases ds.len(),
{
    if ds.len() > 0 {
        let rest = ds.drop_last();
        let last = ds.len() - 1;
        lemma_first_missing_is_reported(m, rest);
        match m.first_missing(rest) {
            None => {
                assert forall|i: int| 0 <= i < last implies m.has((#[trigger] ds[i]).name) by {
                    assert(ds[i] == rest[i]);
                }
                assert(rest =~= ds.take(last));
                assert(ds[last] == ds.last());
            },
            Some(name) => {
                let k = choose|k: int|
                    {
                        &&& 0 <= k < rest.len()
                        &&& (#[trigger] rest[k]).name == name
                        &&& !m.has(name)
                        &&& forall|i: int| 0 <= i < k ==> m.has((#[trigger] rest[i]).name)
                        &&& m.readable(rest) == rest.take(k)
                    };
                assert(ds[k] == rest[k]);
                assert forall|i: int| 0 <= i < k implies m.has((#[trigger] ds[i]).name) by {
                    assert(ds[i] == rest[i]);
                }
                assert(rest.take(k) =~= ds.take(k));
            },
        }
    }
}

/// Why a block cannot be copied: it is another model's; else the buffer has less room
/// than the block has bytes; else the model lacks one of its tensors. A block that can
/// be viewed differs from one that can be copied in the room alone.
pub proof fn lemma_copy_refused_in_order(m: ModelView, b: BlockView, room: int)
    requires
        0 <= room <= u64::MAX,
        model::total_bytes(b.tensors) <= u64::MAX,
    ensures
        m.copy_error(b, room) == if b.model_id != m.id {
            Some(ErrorView::BlockFromDifferentModel { block_id: b.id })
        } else if model::total_bytes(b.tensors) > room {
            Some(
                ErrorView::DestinationTooSmall {
                    needed: model::total_bytes(b.tensors) as u64,
                    got: room as u64,
                },
            )
        } else {
            match m.first_missing(b.tensors) {
                Some(name) => Some(ErrorView::TensorNotFound(name)),
                None => None,
            }
        },
        model::total_bytes(b.tensors) <= room ==> m.block_error(b) == m.copy_error(b, room),
{
}

/// A model lists each of its tensors once, by name in order, with its descriptor.
pub proof fn lemma_tensors_listed_by_name(m: ModelView)
    requires
        m.wf(),
    ensures
        forall|i: int, j: int|
            0 <= i < j < m.listed().len() ==> text::text_before(
                (#[trigger] m.listed()[i]).name,
                (#[trigger] m.listed()[j]).name,
            ),
        forall|i: int|
            0 <= i < m.listed().len() ==> m.has((#[trigger] m.listed()[i]).name)
                && m.catalog.tensors[m.listed()[i].name] == m.listed()[i],
        forall|name: Seq<char>| #[trigger]
            m.has(name) ==> m.listed().contains(m.catalog.tensors[name]),
{
    lemma_listed_consistent(m);
    let names = name_map::ordered(m.catalog.tensors.dom());
    name_map::lemma_ordered_exists(m.catalog.tensors.dom());
    assert forall|i: int, j: int| 0 <= i < j < m.listed().len() implies text::text_before(
        (#[trigger] m.listed()[i]).name,
        (#[trigger] m.listed()[j]).name,
    ) by {
        assert(names.contains(names[i]) && names.contains(names[j]));
        assert(m.has(names[i]) && m.has(names[j]));
        assert(text::text_before(names[i], names[j]));
    }
}

/// What is reported of a tensor leads to its data: the path is that of its shard, and
/// in that file the bytes from the offset on, as many as are reported, are what
/// reading the tensor gives. Type and shape are the tensor's own.
pub proof fn lemma_record_leads_to_data(m: ModelView, name: Seq<char>)
    requires
        m.wf(),
        m.has(name),
    ensures
        ({
            let r = cli::record_of(m, m.catalog.tensors[name]);
            let s = m.catalog.shards[r.shard_id as int];
            &&& r.name == name
            &&& r.dtype == header::tensors_of(s.bytes)[name].dtype
            &&& r.shape == header::tensors_of(s.bytes)[name].shape
            &&& r.shard_id < m.catalog.shards.len()
            &&& r.shard_path == Some(s.path)
            &&& r.file_offset + r.byte_len <= s.bytes.len()
            &&& s.bytes.subrange(r.file_offset as int, r.file_offset + r.byte_len) == m.data(name)
            &&& m.data(name).len() == r.byte_len
        }),
{
    lemma_descriptor_valid(m, name);
    lemma_read_is_declared(m, name);
}

/// The checksums of a block are those of its tensors, one for each and in their order:
/// under the tensor's name, with as many bytes as the tensor has, and of the bytes
/// that reading it gives.
pub proof fn lemma_checksums_follow_tensors(
    m: ModelView,
    config: ConfigView,
    b: BlockView,
    i: int,
)
    requires
        m.wf(),
        block::grouped(m.listed(), config).contains(b),
        0 <= i < b.tensors.len(),
    ensures
        ({
            let c = cli::block_checksums(m, b)[i];
            &&& cli::block_checksums(m, b).len() == b.tensors.len()
            &&& c.name == b.tensors[i].name
            &&& c.bytes == b.tensors[i].byte_len
            &&& c.bytes == m.data(b.tensors[i].name).len()
            &&& c.hex == checksum::hex(checksum::blake3_digest(m.data(b.tensors[i].name)))
            &&& c.algorithm == "blake3"@
        }),
{
    lemma_own_block_consistent(m, config, b);
    lemma_data_len(m, b.tensors[i].name);
}

/// The bytes of some checksums and some more are the bytes of both together, and one
/// counts with its own.
pub proof fn lemma_checked_bytes_add_up(
    a: Seq<ChecksumView>,
    b: Seq<ChecksumView>,
    c: ChecksumView,
)
    ensures
        cli::checked_bytes(a + b) == cli::checked_bytes(a) + cli::checked_bytes(b),
        cli::checked_bytes(seq![c]) == c.bytes,
    decreases b.len(),
{
    assert(seq![c].drop_last() =~= Seq::<ChecksumView>::empty());
    assert(cli::checked_bytes(Seq::<ChecksumView>::empty()) == 0);
    if b.len() == 0 {
        assert(a + b =~= a);
    } else {
        assert((a + b).drop_last() =~= a + b.drop_last());
        assert((a + b).last() == b.last());
        lemma_checked_bytes_add_up(a, b.drop_last(), c);
    }
}

proof fn lemma_checked_in_step(m: ModelView, ds: Seq<DescriptorView>)
    requires
        m.wf(),
        consistent(m, ds),
    ensures
        cli::checked_bytes(
            ds.map_values(|d: DescriptorView| checksum::checksum_of(d.name, m.data(d.name))),
        ) == model::total_bytes(ds),
    decreases ds.len(),
{
    let f = |d: DescriptorView| checksum::checksum_of(d.name, m.data(d.name));
    if ds.len() > 0 {
        let rest = ds.drop_last();
        lemma_consistent_prefix(m, ds, ds.len() - 1);
        assert(rest =~= ds.take(ds.len() - 1));
        lemma_checked_in_step(m, rest);
        assert(ds.map_values(f).drop_last() =~= rest.map_values(f));
        assert(ds[ds.len() - 1] == ds.last());
        lemma_data_len(m, ds.last().name);
    }
}

/// What is reported as checked of a block are all bytes of its tensors: as many as
/// their descriptors say together, and as many as their data has one behind the other.
pub proof fn lemma_checked_bytes_are_block_bytes(m: ModelView, config: ConfigView, b: BlockView)
    requires
        m.wf(),
        block::grouped(m.listed(), config).contains(b),
    ensures
        cli::checked_bytes(cli::block_checksums(m, b)) == model::total_bytes(b.tensors),
        cli::checked_bytes(cli::block_checksums(m, b)) == joined_data(m, b.tensors).len(),
{
    lemma_own_block_consistent(m, config, b);
    lemma_checked_in_step(m, b.tensors);
    lemma_joined_len(m, b.tensors);
}

/// A digest is written byte by byte, two digits for each, the higher one first; the
/// digits are those from zero to nine and the letters from `a` to `f`.
pub proof fn lemma_hex_byte_by_byte(a: Seq<u8>, b: Seq<u8>, x: u8)
    ensures
        checksum::hex(a + b) == checksum::hex(a) + checksum::hex(b),
        checksum::hex(a).len() == 2 * a.len(),
        ({
            let h = checksum::hex(seq![x]);
            let high = x as int / 16;
            let low = x as int % 16;
            &&& h.len() == 2
            &&& h[0] as u32 == if high < 10 {
                48 + high
            } else {
                87 + high
            }
            &&& h[1] as u32 == if low < 10 {
                48 + low
            } else {
                87 + low
            }
        }),
    decreases a.len() + b.len(),
{
    assert(seq![x].drop_last() =~= Seq::<u8>::empty());
    assert(checksum::hex(Seq::<u8>::empty()) =~= Seq::<char>::empty());
    if a.len() > 0 {
        lemma_hex_byte_by_byte(a.drop_last(), Seq::empty(), x);
    }
    if b.len() == 0 {
        assert(a + b =~= a);
        assert(checksum::hex(a) + checksum::hex(b) =~= checksum::hex(a));
    } else {
        assert((a + b).drop_last() =~= a + b.drop_last());
        assert((a + b).last() == b.last());
        lemma_hex_byte_by_byte(a, b.drop_last(), x);
        assert(checksum::hex(a + b) =~= checksum::hex(a) + checksum::hex(b));
    }
}

/// The presets: both have the two families of the diffusion models first, and the
/// general one has two more behind them.
pub proof fn lemma_presets(preset: cli::Preset)
    ensures
        cli::preset_families(preset).take(2) == seq![
            "transformer_blocks"@,
            "single_transformer_blocks"@,
        ],
        cli::preset_families(preset).skip(2) == match preset {
            cli::Preset::Flux => Seq::<Seq<char>>::empty(),
            cli::Preset::Generic => seq!["blocks"@, "layers"@],
        },
{
    assert(cli::preset_families(preset).take(2) =~= seq![
        "transformer_blocks"@,
        "single_transformer_blocks"@,
    ]);
    match preset {
        cli::Preset::Flux => {
            assert(cli::preset_families(preset).skip(2) =~= Seq::<Seq<char>>::empty());
        },
        cli::Preset::Generic => {
            assert(cli::preset_families(preset).skip(2) =~= seq!["blocks"@, "layers"@]);
        },
    }
}

/// Marking a block as a model's own changes its mark and nothing else.
pub proof fn lemma_mark_changes_nothing_else(b: BlockView, id: u64)
    ensures
        model::stamped(b, id).model_id == id,
        model::stamped(b, id).id == b.id,
        model::stamped(b, id).family == b.family,
        model::stamped(b, id).index == b.index,
        model::stamped(b, id).tensors == b.tensors,
{
}

} // verus!
