//! What holds of block grouping as a whole: it loses and repeats no tensor, ids
//! tell blocks apart, and a shared prefix changes nothing but the names.

use vstd::prelude::*;

use crate::block;
use crate::block::{BlockView, ConfigView};
use crate::descriptor::DescriptorView;
use crate::text;

verus! {

/// The tensors of all blocks, block after block.
pub open spec fn all_tensors(blocks: Seq<BlockView>) -> Seq<DescriptorView>
    decreases blocks.len(),
{
    if blocks.len() == 0 {
        Seq::empty()
    } else {
        all_tensors(blocks.drop_last()) + blocks.last().tensors
    }
}

proof fn lemma_all_tensors_add(a: Seq<BlockView>, b: Seq<BlockView>)
    ensures
        all_tensors(a + b) == all_tensors(a) + all_tensors(b),
    decreases b.len(),
{
    if b.len() == 0 {
        assert(a + b =~= a);
        assert(all_tensors(a) + all_tensors(b) =~= all_tensors(a));
    } else {
        lemma_all_tensors_add(a, b.drop_last());
        assert((a + b).drop_last() =~= a + b.drop_last());
        assert(all_tensors(a + b) =~= all_tensors(a) + all_tensors(b));
    }
}

proof fn lemma_filter_count(
    ds: Seq<DescriptorView>,
    pred: spec_fn(DescriptorView) -> bool,
    d: DescriptorView,
)
    ensures
        ds.filter(pred).to_multiset().count(d) == if pred(d) {
            ds.to_multiset().count(d)
        } else {
            0
        },
    decreases ds.len(),
{
    reveal(Seq::filter);
    if ds.len() > 0 {
        let rest = ds.drop_last();
        lemma_filter_count(rest, pred, d);
        assert(ds =~= rest.push(ds.last()));
        rest.to_multiset_ensures();
        rest.filter(pred).to_multiset_ensures();
    } else {
        ds.to_multiset_ensures();
        ds.filter(pred).to_multiset_ensures();
        assert(!ds.contains(d) && !ds.filter(pred).contains(d));
    }
}

/// How often a tensor occurs in the blocks of one family.
proof fn lemma_family_count(
    ds: Seq<DescriptorView>,
    config: ConfigView,
    label: Seq<char>,
    indices: Seq<u64>,
    d: DescriptorView,
)
    requires
        block::strictly_increasing(indices),
    ensures
        ({
            let blocks = indices.map_values(
                |index: u64| block::family_block(ds, config, label, index),
            );
            all_tensors(blocks).to_multiset().count(d) == match block::matched(config, d.name) {
                Some((l, index)) if l == label && indices.contains(index) => ds.to_multiset().count(
                    d,
                ),
                _ => 0,
            }
        }),
    decreases indices.len(),
{
    let make = |index: u64| block::family_block(ds, config, label, index);
    let blocks = indices.map_values(make);
    if indices.len() == 0 {
        assert(all_tensors(blocks) =~= Seq::empty());
        all_tensors(blocks).to_multiset_ensures();
        assert(!all_tensors(blocks).contains(d));
    } else {
        let rest = indices.drop_last();
        let last = indices.last();
        lemma_family_count(ds, config, label, rest, d);
        assert(blocks.drop_last() =~= rest.map_values(make));
        let own = block::members(ds, config, label, last);
        assert(blocks.last().tensors == own);
        vstd::seq_lib::lemma_multiset_commutative(all_tensors(rest.map_values(make)), own);
        lemma_filter_count(
            ds,
            |d: DescriptorView| block::matched(config, d.name) == Some((label, last)),
            d,
        );
        assert(indices.contains(last));
        match block::matched(config, d.name) {
            Some((l, index)) if l == label => {
                if rest.contains(index) {
                    let j = choose|j: int| 0 <= j < rest.len() && rest[j] == index;
                    assert(indices[j] == index && indices[j] < last);
                    assert(indices.contains(index));
                } else if indices.contains(index) {
                    let j = choose|j: int| 0 <= j < indices.len() && indices[j] == index;
                    if j < rest.len() {
                        assert(rest[j] == index);
                    }
                }
            },
            _ => {},
        }
    }
}

/// A family that a name matches is one of the configured ones.
pub proof fn lemma_matched_family(families: Seq<Seq<char>>, name: Seq<char>, from: int)
    requires
        0 <= from,
    ensures
        match block::first_match(families, name, from) {
            Some((at, index)) => from <= at < families.len() && block::family_index(
                families[at],
                name,
            ) == Some(index) && forall|g: int|
                from <= g < at ==> block::family_index(#[trigger] families[g], name) is None,
            None => forall|g: int|
                from <= g < families.len() ==> block::family_index(#[trigger] families[g], name)
                    is None,
        },
    decreases families.len() - from,
{
    if from < families.len() && block::family_index(families[from], name) is None {
        lemma_matched_family(families, name, from + 1);
    }
}

proof fn lemma_leading_count(
    ds: Seq<DescriptorView>,
    config: ConfigView,
    n: int,
    d: DescriptorView,
)
    requires
        0 <= n <= config.families.len(),
    ensures
        all_tensors(block::leading_blocks(ds, config, n)).to_multiset().count(d)
            == match block::matched(config, d.name) {
            Some((l, _)) if config.families.take(n).contains(l) => ds.to_multiset().count(d),
            _ => 0,
        },
    decreases n,
{
    let blocks = block::leading_blocks(ds, config, n);
    let known = config.families.take(n);
    if n == 0 {
        assert(all_tensors(blocks) =~= Seq::empty());
        all_tensors(blocks).to_multiset_ensures();
        assert(!all_tensors(blocks).contains(d));
    } else {
        let label = config.families[n - 1];
        let before = block::leading_blocks(ds, config, n - 1);
        let own = block::family_blocks(ds, config, label);
        let indices = block::family_indices(ds, config, label);
        let earlier = config.families.take(n - 1);
        let repeated = block::repeats(config.families, n - 1);
        lemma_leading_count(ds, config, n - 1, d);
        lemma_all_tensors_add(before, own);
        vstd::seq_lib::lemma_multiset_commutative(all_tensors(before), all_tensors(own));
        block::lemma_indices_exist(ds, config, label);
        lemma_family_count(ds, config, label, indices, d);
        assert(known =~= earlier.push(label));
        ds.to_multiset_ensures();
        match block::matched(config, d.name) {
            Some((l, index)) => {
                if l == label {
                    assert(known[n - 1] == l);
                    assert(repeated == earlier.contains(l));
                    if !indices.contains(index) {
                        // Without the index no tensor can be a member.
                        if ds.to_multiset().count(d) > 0 {
                            assert(ds.contains(d));
                            ds.lemma_filter_contains_rev(
                                |d: DescriptorView|
                                    block::matched(config, d.name) == Some((label, index)),
                                d,
                            );
                            assert(block::members(ds, config, label, index).contains(d));
                            assert(block::members(ds, config, label, index).len() > 0);
                        }
                    }
                } else if earlier.contains(l) {
                    let j = choose|j: int| 0 <= j < earlier.len() && earlier[j] == l;
                    assert(known[j] == l);
                } else if known.contains(l) {
                    let j = choose|j: int| 0 <= j < known.len() && known[j] == l;
                    assert(j < n - 1 && earlier[j] == l);
                }
            },
            None => {},
        }
    }
}

/// Grouping neither loses nor repeats a tensor: the blocks together hold
/// exactly the tensors that were grouped, each as often as it was given.
pub proof fn lemma_blocks_partition(ds: Seq<DescriptorView>, config: ConfigView)
    ensures
        all_tensors(block::grouped(ds, config)).to_multiset() == ds.to_multiset(),
{
    let n = config.families.len() as int;
    let leading = block::leading_blocks(ds, config, n);
    let grouped = block::grouped(ds, config);
    let rest = block::unassigned(ds, config);
    assert(config.families.take(n) =~= config.families);
    assert forall|d: DescriptorView|
        all_tensors(grouped).to_multiset().count(d) == ds.to_multiset().count(d) by {
        lemma_leading_count(ds, config, n, d);
        lemma_filter_count(
            ds,
            |d: DescriptorView| block::matched(config, d.name) is None,
            d,
        );
        lemma_matched_family(
            config.families,
            block::candidate(config.model_prefix, d.name),
            0,
        );
        vstd::seq_lib::lemma_multiset_commutative(all_tensors(leading), rest);
        if rest.len() > 0 {
            assert(grouped.drop_last() =~= leading);
            assert(grouped.last().tensors == rest);
        } else {
            rest.to_multiset_ensures();
            assert(!rest.contains(d));
        }
    }
    assert(all_tensors(grouped).to_multiset() =~= ds.to_multiset());
}

/// A tensor that stands in a block matched that block's family and index, or
/// nothing in case of the unassigned block.
proof fn lemma_tensor_of_block(
    ds: Seq<DescriptorView>,
    config: ConfigView,
    b: BlockView,
    d: DescriptorView,
)
    requires
        block::grouped(ds, config).contains(b),
        b.tensors.contains(d),
    ensures
        match block::matched(config, d.name) {
            Some((label, index)) => b == block::family_block(ds, config, label, index),
            None => b == block::unassigned_block(ds, config),
        },
{
    block::lemma_grouped_contents(ds, config);
    let j = choose|j: int| 0 <= j < b.tensors.len() && b.tensors[j] == d;
    if block::is_family_block(ds, config, config.families.len() as int, b) {
        let (f, index) = choose|f: int, index: u64|
            0 <= f < config.families.len() && b == #[trigger] block::family_block(
                ds,
                config,
                config.families[f],
                index,
            );
        let label = config.families[f];
        ds.lemma_filter_pred(
            |d: DescriptorView| block::matched(config, d.name) == Some((label, index)),
            j,
        );
    } else {
        ds.lemma_filter_pred(|d: DescriptorView| block::matched(config, d.name) is None, j);
    }
}

/// Blocks with different ids have no tensor in common.
pub proof fn lemma_blocks_disjoint(
    ds: Seq<DescriptorView>,
    config: ConfigView,
    a: BlockView,
    b: BlockView,
)
    requires
        block::grouped(ds, config).contains(a),
        block::grouped(ds, config).contains(b),
        a.id != b.id,
    ensures
        forall|d: DescriptorView| #[trigger] a.tensors.contains(d) ==> !b.tensors.contains(d),
{
    assert forall|d: DescriptorView| #[trigger] a.tensors.contains(d) implies !b.tensors.contains(
        d,
    ) by {
        if b.tensors.contains(d) {
            lemma_tensor_of_block(ds, config, a, d);
            lemma_tensor_of_block(ds, config, b, d);
        }
    }
}

/// A block is determined by its id.
pub proof fn lemma_block_determined_by_id(
    ds: Seq<DescriptorView>,
    config: ConfigView,
    a: BlockView,
    b: BlockView,
)
    requires
        block::grouped(ds, config).contains(a),
        block::grouped(ds, config).contains(b),
        a.id == b.id,
    ensures
        a == b,
{
    block::lemma_grouped_contents(ds, config);
    let n = config.families.len() as int;
    if block::is_family_block(ds, config, n, a) {
        let (f, i) = choose|f: int, index: u64|
            0 <= f < n && a == #[trigger] block::family_block(ds, config, config.families[f], index);
        block::lemma_unassigned_id_reserved(config.families[f], i);
        if block::is_family_block(ds, config, n, b) {
            let (g, j) = choose|f: int, index: u64|
                0 <= f < n && b == #[trigger] block::family_block(
                    ds,
                    config,
                    config.families[f],
                    index,
                );
            block::lemma_block_id_injective(config.families[f], i, config.families[g], j);
        }
    } else if block::is_family_block(ds, config, n, b) {
        let (g, j) = choose|f: int, index: u64|
            0 <= f < n && b == #[trigger] block::family_block(ds, config, config.families[f], index);
        block::lemma_unassigned_id_reserved(config.families[g], j);
    }
}

/// Within a family the indices of the blocks stand in numeric order, so that
/// block 2 comes before block 10.
pub proof fn lemma_family_blocks_ascend(
    ds: Seq<DescriptorView>,
    config: ConfigView,
    label: Seq<char>,
    i: int,
    j: int,
)
    requires
        0 <= i < j < block::family_blocks(ds, config, label).len(),
    ensures
        block::family_blocks(ds, config, label)[i].index->0 < block::family_blocks(
            ds,
            config,
            label,
        )[j].index->0,
{
    block::lemma_indices_exist(ds, config, label);
}

/// Every block has tensors.
pub proof fn lemma_blocks_nonempty(ds: Seq<DescriptorView>, config: ConfigView, b: BlockView)
    requires
        block::grouped(ds, config).contains(b),
    ensures
        b.tensors.len() > 0,
{
    block::lemma_grouped_contents(ds, config);
}

/// A name behind the shared prefix is matched as it would be without prefix,
/// and gets the same label and index.
pub proof fn lemma_prefix_stripped(families: Seq<Seq<char>>, prefix: Seq<char>, name: Seq<char>)
    ensures
        block::matched(
            ConfigView { model_prefix: Some(prefix), families },
            prefix.push('.') + name,
        ) == block::matched(ConfigView { model_prefix: None, families }, name),
{
    let whole = prefix.push('.') + name;
    assert(whole.subrange(0, prefix.len() as int + 1) =~= prefix.push('.'));
    assert(whole.skip(prefix.len() as int + 1) =~= name);
}

/// A name that does not start with the whole prefix and a dot is matched as
/// if no prefix were configured.
pub proof fn lemma_prefix_absent(families: Seq<Seq<char>>, prefix: Seq<char>, name: Seq<char>)
    requires
        !prefix.push('.').is_prefix_of(name),
    ensures
        block::matched(ConfigView { model_prefix: Some(prefix), families }, name)
            == block::matched(ConfigView { model_prefix: None, families }, name),
{
}

proof fn lemma_split_nonempty<T>(s: Seq<T>, sep: T)
    ensures
        text::split(s, sep).len() > 0,
    decreases s.len(),
{
    if s.len() > 0 {
        lemma_split_nonempty(s.drop_last(), sep);
    }
}

proof fn lemma_split_joined<T>(a: Seq<T>, b: Seq<T>, sep: T)
    ensures
        text::split(a.push(sep) + b, sep) == text::split(a, sep) + text::split(b, sep),
    decreases b.len(),
{
    let whole = a.push(sep) + b;
    lemma_split_nonempty(b, sep);
    if b.len() == 0 {
        assert(whole =~= a.push(sep));
        assert(whole.drop_last() =~= a);
        assert(text::split(whole, sep) =~= text::split(a, sep) + text::split(b, sep));
    } else {
        lemma_split_joined(a, b.drop_last(), sep);
        lemma_split_nonempty(b.drop_last(), sep);
        assert(whole.drop_last() =~= a.push(sep) + b.drop_last());
        assert(whole.last() == b.last());
        assert(text::split(whole, sep) =~= text::split(a, sep) + text::split(b, sep));
    }
}

proof fn lemma_split_injective<T>(a: Seq<T>, b: Seq<T>, sep: T)
    requires
        text::split(a, sep) == text::split(b, sep),
    ensures
        a == b,
    decreases a.len(),
{
    let x = text::split(a, sep);
    if a.len() > 0 {
        lemma_split_nonempty(a.drop_last(), sep);
    }
    if b.len() > 0 {
        lemma_split_nonempty(b.drop_last(), sep);
    }
    if a.len() == 0 || b.len() == 0 {
        assert(x.len() == 1 && x.last().len() == 0);
        assert(a =~= b);
    } else {
        let p = text::split(a.drop_last(), sep);
        let q = text::split(b.drop_last(), sep);
        if a.last() == sep {
            assert(x.last().len() == 0);
            assert(b.last() == sep);
            assert(p =~= x.drop_last() && q =~= x.drop_last());
        } else {
            assert(x.last().len() > 0);
            assert(b.last() != sep);
            assert(x.last() == p.last().push(a.last()) && x.last() == q.last().push(b.last()));
            assert(a.last() == x.last().last() && b.last() == x.last().last());
            assert(p.last() =~= x.last().drop_last() && q.last() =~= x.last().drop_last());
            assert(p.drop_last() =~= x.drop_last() && q.drop_last() =~= x.drop_last());
            assert(p =~= p.drop_last().push(p.last()) && q =~= q.drop_last().push(q.last()));
        }
        lemma_split_injective(a.drop_last(), b.drop_last(), sep);
        assert(a =~= a.drop_last().push(a.last()) && b =~= b.drop_last().push(b.last()));
    }
}

proof fn lemma_split_prefix<T>(label: Seq<T>, name: Seq<T>, sep: T)
    requires
        text::split(label, sep).len() < text::split(name, sep).len(),
        text::split(name, sep).take(text::split(label, sep).len() as int) == text::split(
            label,
            sep,
        ),
    ensures
        label.push(sep).is_prefix_of(name),
    decreases name.len(),
{
    let parts = text::split(name, sep);
    let own = text::split(label, sep);
    let n = own.len() as int;
    lemma_split_nonempty(label, sep);
    if name.len() > 0 {
        let rest = name.drop_last();
        let before = text::split(rest, sep);
        lemma_split_nonempty(rest, sep);
        if name.last() == sep && before.len() == n {
            assert(before =~= parts.take(n));
            lemma_split_injective(rest, label, sep);
            assert(name =~= label.push(sep));
            assert(name.subrange(0, name.len() as int) =~= name);
        } else {
            assert(before.take(n) =~= parts.take(n));
            lemma_split_prefix(label, rest, sep);
            assert(name.subrange(0, label.len() as int + 1) =~= rest.subrange(
                0,
                label.len() as int + 1,
            ));
        }
    }
}

proof fn lemma_segment_end_push(s: Seq<char>, c: char, from: int)
    requires
        0 <= from <= s.len(),
    ensures
        block::segment_end(s.push(c), from) == if block::segment_end(s, from) < s.len() || c
            == '.' {
            block::segment_end(s, from)
        } else {
            s.len() as int + 1
        },
    decreases s.len() - from,
{
    let t = s.push(c);
    block::lemma_segment_end(s, from);
    if from < s.len() {
        assert(t[from] == s[from]);
        if s[from] != '.' {
            lemma_segment_end_push(s, c, from + 1);
        }
    } else {
        assert(t[from] == c);
        if c != '.' {
            assert(block::segment_end(t, from + 1) == from + 1);
        }
    }
}

proof fn lemma_first_part(s: Seq<char>)
    ensures
        text::split(s, '.')[0] == s.take(block::segment_end(s, 0)),
        text::split(s, '.').len() == 1 <==> block::segment_end(s, 0) == s.len(),
    decreases s.len(),
{
    block::lemma_segment_end(s, 0);
    if s.len() == 0 {
        assert(s.take(0) =~= Seq::empty());
    } else {
        let rest = s.drop_last();
        let before = text::split(rest, '.');
        lemma_split_nonempty(rest, '.');
        lemma_first_part(rest);
        block::lemma_segment_end(rest, 0);
        assert(s =~= rest.push(s.last()));
        lemma_segment_end_push(rest, s.last(), 0);
        let end = block::segment_end(rest, 0);
        if end < rest.len() || s.last() == '.' {
            assert(s.take(end) =~= rest.take(end));
        } else {
            assert(rest.take(end) =~= rest);
            assert(s.take(s.len() as int) =~= rest.push(s.last()));
        }
    }
}

proof fn lemma_segment_end_shift(lead: Seq<char>, rest: Seq<char>, from: int)
    requires
        0 <= from <= rest.len(),
    ensures
        block::segment_end(lead + rest, lead.len() + from) == lead.len() + block::segment_end(
            rest,
            from,
        ),
    decreases rest.len() - from,
{
    if from < rest.len() {
        assert((lead + rest)[lead.len() + from] == rest[from]);
        if rest[from] != '.' {
            lemma_segment_end_shift(lead, rest, from + 1);
        }
    }
}

/// Families are matched by whole dotted segments: the segments of the label
/// have to lead those of the name, and the segment behind them is the index.
pub proof fn lemma_matched_by_segments(label: Seq<char>, name: Seq<char>)
    ensures
        block::family_index(label, name) == ({
            let parts = text::split(name, '.');
            let own = text::split(label, '.');
            if own.len() < parts.len() && parts.take(own.len() as int) == own {
                block::segment_number(parts[own.len() as int])
            } else {
                None
            }
        }),
{
    let parts = text::split(name, '.');
    let own = text::split(label, '.');
    let lead = label.push('.');
    if lead.is_prefix_of(name) {
        let rest = name.skip(lead.len() as int);
        assert(name =~= lead + rest);
        lemma_split_joined(label, rest, '.');
        lemma_split_nonempty(rest, '.');
        lemma_first_part(rest);
        block::lemma_segment_end(rest, 0);
        lemma_segment_end_shift(lead, rest, 0);
        assert(parts.take(own.len() as int) =~= own);
        assert(parts[own.len() as int] == text::split(rest, '.')[0]);
        let end = block::segment_end(name, lead.len() as int);
        assert(name.subrange(lead.len() as int, end) =~= rest.take(block::segment_end(rest, 0)));
    } else if own.len() < parts.len() && parts.take(own.len() as int) == own {
        lemma_split_prefix(label, name, '.');
    }
}

/// The id is that of a block of one of the first `n` families.
pub open spec fn is_family_id(config: ConfigView, n: int, id: Seq<char>) -> bool {
    exists|f: int, index: u64|
        0 <= f < n && id == #[trigger] block::spec_block_id(config.families[f], index)
}

proof fn lemma_leading_ids_distinct(ds: Seq<DescriptorView>, config: ConfigView, n: int)
    requires
        0 <= n <= config.families.len(),
    ensures
        forall|i: int, j: int|
            0 <= i < j < block::leading_blocks(ds, config, n).len() ==> (
            #[trigger] block::leading_blocks(ds, config, n)[i]).id != (
            #[trigger] block::leading_blocks(ds, config, n)[j]).id,
        forall|i: int|
            0 <= i < block::leading_blocks(ds, config, n).len() ==> is_family_id(
                config,
                n,
                (#[trigger] block::leading_blocks(ds, config, n)[i]).id,
            ),
    decreases n,
{
    if n > 0 {
        lemma_leading_ids_distinct(ds, config, n - 1);
        let before = block::leading_blocks(ds, config, n - 1);
        let label = config.families[n - 1];
        let indices = block::family_indices(ds, config, label);
        let own = block::family_blocks(ds, config, label);
        let all = block::leading_blocks(ds, config, n);
        block::lemma_indices_exist(ds, config, label);
        assert forall|i: int| 0 <= i < all.len() implies is_family_id(
            config,
            n,
            (#[trigger] all[i]).id,
        ) by {
            if i < before.len() {
                assert(is_family_id(config, n - 1, before[i].id));
                let (f, index) = choose|f: int, index: u64|
                    0 <= f < n - 1 && before[i].id == #[trigger] block::spec_block_id(
                        config.families[f],
                        index,
                    );
                assert(all[i].id == block::spec_block_id(config.families[f], index));
            } else {
                let index = indices[i - before.len()];
                assert(all[i] == own[i - before.len()]);
                assert(all[i].id == block::spec_block_id(config.families[n - 1], index));
            }
        }
        assert forall|i: int, j: int| 0 <= i < j < all.len() implies (#[trigger] all[i]).id != (
        #[trigger] all[j]).id by {
            if j < before.len() {
                assert(all[i] == before[i] && all[j] == before[j]);
            } else {
                let y = indices[j - before.len()];
                assert(all[j] == own[j - before.len()]);
                assert(all[j].id == block::spec_block_id(label, y));
                if i < before.len() {
                    assert(is_family_id(config, n - 1, before[i].id));
                    let (f, x) = choose|f: int, index: u64|
                        0 <= f < n - 1 && before[i].id == #[trigger] block::spec_block_id(
                            config.families[f],
                            index,
                        );
                    if all[i].id == all[j].id {
                        block::lemma_block_id_injective(config.families[f], x, label, y);
                        assert(config.families.take(n - 1)[f] == label);
                    }
                } else {
                    let x = indices[i - before.len()];
                    assert(all[i] == own[i - before.len()]);
                    assert(all[i].id == block::spec_block_id(label, x));
                    if all[i].id == all[j].id {
                        block::lemma_block_id_injective(label, x, label, y);
                    }
                }
            }
        }
    }
}

/// No two blocks have the same id.
pub proof fn lemma_block_ids_distinct(ds: Seq<DescriptorView>, config: ConfigView, i: int, j: int)
    requires
        0 <= i < j < block::grouped(ds, config).len(),
    ensures
        block::grouped(ds, config)[i].id != block::grouped(ds, config)[j].id,
{
    let n = config.families.len() as int;
    let leading = block::leading_blocks(ds, config, n);
    lemma_leading_ids_distinct(ds, config, n);
    if j < leading.len() {
        assert(leading[i].id != leading[j].id);
    } else {
        assert(is_family_id(config, n, leading[i].id));
        let (f, x) = choose|f: int, index: u64|
            0 <= f < n && leading[i].id == #[trigger] block::spec_block_id(
                config.families[f],
                index,
            );
        block::lemma_unassigned_id_reserved(config.families[f], x);
    }
}

/// Splitting takes a sequence apart at its separators and nowhere else: what has
/// none is one part, and at a separator the parts in front are followed by those
/// behind.
pub proof fn lemma_split_at_separators<T>(a: Seq<T>, b: Seq<T>, sep: T)
    ensures
        !a.contains(sep) ==> text::split(a, sep) == seq![a],
        text::split(a.push(sep) + b, sep) == text::split(a, sep) + text::split(b, sep),
    decreases a.len(),
{
    lemma_split_joined(a, b, sep);
    if !a.contains(sep) {
        if a.len() == 0 {
            assert(a =~= Seq::empty());
            assert(text::split(a, sep) =~= seq![a]);
        } else {
            let rest = a.drop_last();
            assert(!rest.contains(sep)) by {
                if rest.contains(sep) {
                    let j = choose|j: int| 0 <= j < rest.len() && rest[j] == sep;
                    assert(a[j] == sep);
                }
            }
            assert(a.last() == a[a.len() - 1]);
            lemma_split_at_separators(rest, b, sep);
            assert(rest.push(a.last()) =~= a);
            assert(text::split(a, sep) =~= seq![a]);
        }
    }
}

/// The index that a name has in a family, for a name of any form. Behind the label
/// and a dot stands the segment up to the next dot or the end; the index is the
/// number that it denotes, if it has digits only and at least one, and if a `u64`
/// holds the number. A name that does not begin with the label and a dot has none.
pub proof fn lemma_index_is_written_number(
    label: Seq<char>,
    segment: Seq<char>,
    rest: Seq<char>,
    other: Seq<char>,
)
    requires
        !segment.contains('.'),
        rest.len() > 0 ==> rest[0] == '.',
        !label.push('.').is_prefix_of(other),
    ensures
        block::family_index(label, label.push('.') + segment + rest) == if segment.len() > 0 && (
        forall|i: int| 0 <= i < segment.len() ==> '0' <= #[trigger] segment[i] <= '9')
            && text::digits_value(segment) <= u64::MAX {
            Some(text::digits_value(segment) as u64)
        } else {
            None
        },
        block::family_index(label, other) is None,
{
    let lead = label.push('.');
    let name = lead + segment + rest;
    let from = lead.len() as int;
    let end = block::segment_end(name, from);
    assert(name.subrange(0, from) =~= lead);
    block::lemma_segment_end(name, from);
    if end < from + segment.len() {
        assert(name[end] == segment[end - from]);
        assert(segment.contains(segment[end - from]));
    }
    if end > from + segment.len() {
        assert(name[from + segment.len()] == rest[0]);
    }
    assert(name.subrange(from, end) =~= segment);
    if text::all_digits(segment) {
        assert forall|i: int| 0 <= i < segment.len() implies '0' <= #[trigger] segment[i]
            <= '9' by {
            assert(text::is_digit(segment[i]));
        }
    }
}

/// A name that is made of a label, a number in decimal and anything behind a dot has
/// exactly that number as its index in the family.
pub proof fn lemma_index_of_written_name(label: Seq<char>, index: u64, rest: Seq<char>)
    requires
        rest.len() > 0 ==> rest[0] == '.',
    ensures
        block::family_index(label, label.push('.') + text::decimal(index as int) + rest) == Some(
            index,
        ),
{
    let segment = text::decimal(index as int);
    text::lemma_decimal_is_canonical(index as int);
    assert(!segment.contains('.'));
    assert(!label.push('.').is_prefix_of(Seq::<char>::empty()));
    lemma_index_is_written_number(label, segment, rest, Seq::empty());
}

/// Names whose index segments denote different numbers never have the same index,
/// and those whose segments denote the same number always do.
pub proof fn lemma_index_tells_numbers_apart(
    label: Seq<char>,
    x: Seq<char>,
    y: Seq<char>,
    a: Seq<char>,
    b: Seq<char>,
)
    requires
        x.len() > 0 && y.len() > 0,
        forall|i: int| 0 <= i < x.len() ==> '0' <= #[trigger] x[i] <= '9',
        forall|i: int| 0 <= i < y.len() ==> '0' <= #[trigger] y[i] <= '9',
        text::digits_value(x) <= u64::MAX,
        text::digits_value(y) <= u64::MAX,
        a.len() > 0 ==> a[0] == '.',
        b.len() > 0 ==> b[0] == '.',
    ensures
        block::family_index(label, label.push('.') + x + a) == block::family_index(
            label,
            label.push('.') + y + b,
        ) <==> text::digits_value(x) == text::digits_value(y),
{
    assert(!x.contains('.') && !y.contains('.'));
    assert(!label.push('.').is_prefix_of(Seq::<char>::empty()));
    lemma_digits_not_negative(x);
    lemma_digits_not_negative(y);
    lemma_index_is_written_number(label, x, a, Seq::empty());
    lemma_index_is_written_number(label, y, b, Seq::empty());
}

proof fn lemma_digits_not_negative(s: Seq<char>)
    requires
        forall|i: int| 0 <= i < s.len() ==> '0' <= #[trigger] s[i] <= '9',
    ensures
        text::digits_value(s) >= 0,
    decreases s.len(),
{
    if s.len() > 0 {
        let rest = s.drop_last();
        assert forall|i: int| 0 <= i < rest.len() implies '0' <= #[trigger] rest[i] <= '9' by {
            assert(rest[i] == s[i]);
        }
        assert('0' <= s[s.len() - 1] <= '9');
        lemma_digits_not_negative(rest);
    }
}

/// Of the families in which a name has an index, the one that was configured first
/// gets it, with the index that it has there; a name that has an index in none gets
/// none.
pub proof fn lemma_first_family_wins(families: Seq<Seq<char>>, name: Seq<char>)
    ensures
        match block::matched(ConfigView { model_prefix: None, families }, name) {
            Some((label, index)) => exists|at: int|
                0 <= at < families.len() && #[trigger] families[at] == label && block::family_index(
                    label,
                    name,
                ) == Some(index) && forall|g: int|
                    0 <= g < at ==> block::family_index(#[trigger] families[g], name) is None,
            None => forall|g: int|
                0 <= g < families.len() ==> block::family_index(#[trigger] families[g], name)
                    is None,
        },
{
    lemma_matched_family(families, name, 0);
}

/// What a block holds: the tensors whose names belong to it, in the order in which
/// they were given. A family's block is named after the label and the number; the
/// others are together in one block with a name of its own.
pub proof fn lemma_block_holds_its_tensors(
    ds: Seq<DescriptorView>,
    config: ConfigView,
    b: BlockView,
)
    requires
        block::grouped(ds, config).contains(b),
    ensures
        b.model_id == 0,
        match b.index {
            Some(index) => {
                &&& config.families.contains(b.family)
                &&& b.id == b.family.push('.') + text::decimal(index as int)
                &&& b.tensors == ds.filter(
                    |d: DescriptorView| block::matched(config, d.name) == Some((b.family, index)),
                )
            },
            None => {
                &&& b.family == "shared/unassigned"@
                &&& b.id == "shared/unassigned"@
                &&& b.tensors == ds.filter(
                    |d: DescriptorView| block::matched(config, d.name) is None,
                )
            },
        },
{
    block::lemma_grouped_contents(ds, config);
    if block::is_family_block(ds, config, config.families.len() as int, b) {
        let (f, index) = choose|f: int, index: u64|
            0 <= f < config.families.len() && b == #[trigger] block::family_block(
                ds,
                config,
                config.families[f],
                index,
            ) && block::members(ds, config, config.families[f], index).len() > 0;
        assert(config.families.contains(config.families[f]));
        assert(b.index == Some(index));
    }
}

/// A tensor that was given is found in the block that its name belongs to, and that
/// block is there.
pub proof fn lemma_tensor_finds_its_block(
    ds: Seq<DescriptorView>,
    config: ConfigView,
    d: DescriptorView,
)
    requires
        ds.contains(d),
    ensures
        exists|b: BlockView|
            #![trigger block::grouped(ds, config).contains(b)]
            block::grouped(ds, config).contains(b) && b.tensors.contains(d) && match block::matched(
                config,
                d.name,
            ) {
                Some((label, index)) => b.family == label && b.index == Some(index),
                None => b.index is None,
            },
{
    block::lemma_grouped_contents(ds, config);
    let k = choose|k: int| 0 <= k < ds.len() && ds[k] == d;
    match block::matched(config, d.name) {
        Some((label, index)) => {
            lemma_matched_family(
                config.families,
                block::candidate(config.model_prefix, d.name),
                0,
            );
            let (at, _) = block::first_match(
                config.families,
                block::candidate(config.model_prefix, d.name),
                0,
            )->0;
            let b = block::family_block(ds, config, config.families[at], index);
            let pred = |x: DescriptorView| block::matched(config, x.name) == Some((label, index));
            assert(pred(ds[k]));
            ds.lemma_filter_contains(pred, k);
            assert(b.tensors.contains(d));
            assert(block::grouped(ds, config).contains(b));
        },
        None => {
            let b = block::unassigned_block(ds, config);
            let pred = |x: DescriptorView| block::matched(config, x.name) is None;
            assert(pred(ds[k]));
            ds.lemma_filter_contains(pred, k);
            assert(b.tensors.contains(d));
            assert(block::grouped(ds, config).contains(b));
        },
    }
}

/// The label at position `at` stands nowhere before it.
pub open spec fn first_at(families: Seq<Seq<char>>, label: Seq<char>, at: int) -> bool {
    &&& 0 <= at < families.len()
    &&& families[at] == label
    &&& forall|g: int| 0 <= g < at ==> #[trigger] families[g] != label
}

#[verifier::spinoff_prover]
#[verifier::rlimit(40)]
proof fn lemma_leading_in_order(ds: Seq<DescriptorView>, config: ConfigView, n: int)
    requires
        0 <= n <= config.families.len(),
    ensures
        forall|i: int|
            #![trigger block::leading_blocks(ds, config, n)[i]]
            0 <= i < block::leading_blocks(ds, config, n).len() ==> {
                let b = block::leading_blocks(ds, config, n)[i];
                b.index is Some && exists|p: int| p < n && #[trigger] first_at(
                    config.families,
                    b.family,
                    p,
                )
            },
        forall|i: int, j: int|
            #![trigger block::leading_blocks(ds, config, n)[i], block::leading_blocks(ds, config, n)[j]]
            0 <= i < j < block::leading_blocks(ds, config, n).len() ==> {
                let a = block::leading_blocks(ds, config, n)[i];
                let b = block::leading_blocks(ds, config, n)[j];
                ||| a.family == b.family && a.index->0 < b.index->0
                ||| exists|p: int, q: int|
                    p < q && #[trigger] first_at(config.families, a.family, p)
                        && #[trigger] first_at(config.families, b.family, q)
            },
    decreases n,
{
    if n > 0 {
        lemma_leading_in_order(ds, config, n - 1);
        let before = block::leading_blocks(ds, config, n - 1);
        let all = block::leading_blocks(ds, config, n);
        let label = config.families[n - 1];
        if block::repeats(config.families, n - 1) {
            assert(all == before);
        } else {
            let own = block::family_blocks(ds, config, label);
            block::lemma_indices_exist(ds, config, label);
            assert(first_at(config.families, label, n - 1)) by {
                assert forall|g: int| 0 <= g < n - 1 implies #[trigger] config.families[g]
                    != label by {
                    assert(config.families.take(n - 1)[g] == config.families[g]);
                }
            }
            assert forall|i: int| 0 <= i < all.len() implies (#[trigger] all[i]).index is Some
                && exists|p: int|
                p < n && #[trigger] first_at(config.families, all[i].family, p) by {
                if i < before.len() {
                    assert(all[i] == before[i]);
                } else {
                    assert(all[i] == own[i - before.len()]);
                    assert(first_at(config.families, all[i].family, n - 1));
                }
            }
            assert forall|i: int, j: int|
                #![trigger all[i], all[j]]
                0 <= i < j < all.len() implies {
                ||| all[i].family == all[j].family && all[i].index->0 < all[j].index->0
                ||| exists|p: int, q: int|
                    p < q && #[trigger] first_at(config.families, all[i].family, p)
                        && #[trigger] first_at(config.families, all[j].family, q)
            } by {
                if j < before.len() {
                    assert(all[i] == before[i] && all[j] == before[j]);
                } else if i < before.len() {
                    assert(all[i] == before[i] && all[j] == own[j - before.len()]);
                    let p = choose|p: int|
                        p < n - 1 && #[trigger] first_at(config.families, before[i].family, p);
                    assert(p < n - 1 && first_at(config.families, all[i].family, p));
                    assert(first_at(config.families, all[j].family, n - 1));
                } else {
                    assert(all[i] == own[i - before.len()] && all[j] == own[j - before.len()]);
                    lemma_family_blocks_ascend(
                        ds,
                        config,
                        label,
                        i - before.len(),
                        j - before.len(),
                    );
                }
            }
        }
    }
}

/// The order of the blocks. Those of one family go by their number; families go by
/// the place at which they are first configured; and the tensors of no family come
/// last of all.
pub proof fn lemma_blocks_in_order(ds: Seq<DescriptorView>, config: ConfigView, i: int, j: int)
    requires
        0 <= i < j < block::grouped(ds, config).len(),
    ensures
        ({
            let a = block::grouped(ds, config)[i];
            let b = block::grouped(ds, config)[j];
            &&& a.index is Some
            &&& match b.index {
                Some(index) => {
                    ||| a.family == b.family && a.index->0 < index
                    ||| exists|p: int, q: int|
                        p < q && #[trigger] first_at(config.families, a.family, p)
                            && #[trigger] first_at(config.families, b.family, q)
                },
                None => j == block::grouped(ds, config).len() - 1,
            }
        }),
{
    let n = config.families.len() as int;
    let leading = block::leading_blocks(ds, config, n);
    lemma_leading_in_order(ds, config, n);
    assert(block::grouped(ds, config)[i] == leading[i]);
    if j < leading.len() {
        assert(block::grouped(ds, config)[j] == leading[j]);
    }
}

/// A filter that every item passes keeps them all.
pub proof fn lemma_filter_keeps_all<A>(s: Seq<A>, pred: spec_fn(A) -> bool)
    requires
        forall|i: int| 0 <= i < s.len() ==> pred(#[trigger] s[i]),
    ensures
        s.filter(pred) == s,
    decreases s.len(),
{
    reveal(Seq::filter);
    if s.len() > 0 {
        let rest = s.drop_last();
        assert forall|i: int| 0 <= i < rest.len() implies pred(#[trigger] rest[i]) by {
            assert(pred(s[i]));
        }
        assert(pred(s[s.len() - 1]));
        lemma_filter_keeps_all(rest, pred);
        assert(rest.push(s.last()) =~= s);
    } else {
        assert(s.filter(pred) =~= s);
    }
}

/// A filter that no item passes keeps none.
pub proof fn lemma_filter_keeps_none<A>(s: Seq<A>, pred: spec_fn(A) -> bool)
    requires
        forall|i: int| 0 <= i < s.len() ==> !pred(#[trigger] s[i]),
    ensures
        s.filter(pred) == Seq::<A>::empty(),
    decreases s.len(),
{
    reveal(Seq::filter);
    if s.len() > 0 {
        let rest = s.drop_last();
        assert forall|i: int| 0 <= i < rest.len() implies !pred(#[trigger] rest[i]) by {
            assert(!pred(s[i]));
        }
        assert(!pred(s[s.len() - 1]));
        lemma_filter_keeps_none(rest, pred);
    } else {
        assert(s.filter(pred) =~= Seq::<A>::empty());
    }
}

} // verus!
