//! Which blocks stay on the GPU: the largest that fit in a budget, first come
//! first served among those of the same size, and none without a budget.

use vstd::prelude::*;

use crate::block_laws;

verus! {

/// Position `i` is tried before position `j`: it is larger, or as large and
/// stands earlier.
pub open spec fn tried_before(sizes: Seq<u64>, i: int, j: int) -> bool {
    sizes[i] > sizes[j] || (sizes[i] == sizes[j] && i < j)
}

/// `order` holds the positions of all sizes, each once, in the order in which
/// they are tried.
pub open spec fn orders(order: Seq<int>, sizes: Seq<u64>) -> bool {
    &&& forall|i: int, j: int|
        0 <= i < j < order.len() ==> #[trigger] tried_before(sizes, order[i], order[j])
    &&& forall|p: int| #[trigger] order.contains(p) <==> 0 <= p < sizes.len()
}

/// The positions of some sizes, largest size first, equal sizes in their order.
pub open spec fn by_size(sizes: Seq<u64>) -> Seq<int> {
    choose|order: Seq<int>| orders(order, sizes)
}

proof fn lemma_order_unique(a: Seq<int>, b: Seq<int>, sizes: Seq<u64>)
    requires
        forall|i: int, j: int|
            0 <= i < j < a.len() ==> #[trigger] tried_before(sizes, a[i], a[j]),
        forall|i: int, j: int|
            0 <= i < j < b.len() ==> #[trigger] tried_before(sizes, b[i], b[j]),
        forall|p: int| #[trigger] a.contains(p) <==> b.contains(p),
    ensures
        a == b,
    decreases a.len(),
{
    if a.len() == 0 {
        if b.len() > 0 {
            assert(a.contains(b[0]) <==> b.contains(b[0]));
        }
        assert(a =~= b);
    } else {
        assert(a.contains(a.last()));
        let j = choose|j: int| 0 <= j < b.len() && b[j] == a.last();
        assert(a.contains(b.last()) <==> b.contains(b.last()));
        let i = choose|i: int| 0 <= i < a.len() && a[i] == b.last();
        if a.last() != b.last() {
            assert(tried_before(sizes, b[j], b[b.len() - 1]));
            assert(tried_before(sizes, a[i], a[a.len() - 1]));
        }
        let x = a.drop_last();
        let y = b.drop_last();
        assert forall|m: int, n: int| 0 <= m < n < x.len() implies #[trigger] tried_before(
            sizes,
            x[m],
            x[n],
        ) by {
            assert(tried_before(sizes, a[m], a[n]));
        }
        assert forall|m: int, n: int| 0 <= m < n < y.len() implies #[trigger] tried_before(
            sizes,
            y[m],
            y[n],
        ) by {
            assert(tried_before(sizes, b[m], b[n]));
        }
        assert forall|p: int| #[trigger] x.contains(p) <==> y.contains(p) by {
            assert(a.contains(p) <==> b.contains(p));
            if x.contains(p) {
                let m = choose|m: int| 0 <= m < x.len() && x[m] == p;
                assert(a[m] == p);
                assert(tried_before(sizes, a[m], a[a.len() - 1]));
                let n = choose|n: int| 0 <= n < b.len() && b[n] == p;
                assert(y[n] == p);
            }
            if y.contains(p) {
                let m = choose|m: int| 0 <= m < y.len() && y[m] == p;
                assert(b[m] == p);
                assert(tried_before(sizes, b[m], b[b.len() - 1]));
                let n = choose|n: int| 0 <= n < a.len() && a[n] == p;
                assert(x[n] == p);
            }
        }
        lemma_order_unique(x, y, sizes);
        assert(a =~= x.push(a.last()));
        assert(b =~= y.push(b.last()));
    }
}

proof fn lemma_by_size(order: Seq<int>, sizes: Seq<u64>)
    requires
        orders(order, sizes),
    ensures
        by_size(sizes) == order,
{
    let t = by_size(sizes);
    assert(orders(t, sizes));
    assert forall|p: int| #[trigger] order.contains(p) <==> t.contains(p) by {
        assert(order.contains(p) <==> 0 <= p < sizes.len());
        assert(t.contains(p) <==> 0 <= p < sizes.len());
    }
    lemma_order_unique(order, t, sizes);
}

/// The positions of a list as mathematical integers.
pub open spec fn as_positions(s: Seq<usize>) -> Seq<int> {
    s.map_values(|p: usize| p as int)
}

/// Puts positions in order, largest size first, equal sizes in their order.
pub fn positions_by_size(sizes: &Vec<u64>) -> (r: Vec<usize>)
    ensures
        as_positions(r@) == by_size(sizes@),
        orders(as_positions(r@), sizes@),
{
    let mut order: Vec<usize> = Vec::new();
    let mut i: usize = 0;
    while i < sizes.len()
        invariant
            i <= sizes@.len(),
            order@.len() == i,
            forall|a: int, b: int|
                0 <= a < b < order@.len() ==> #[trigger] tried_before(
                    sizes@,
                    order@[a] as int,
                    order@[b] as int,
                ),
            forall|a: int| 0 <= a < order@.len() ==> #[trigger] order@[a] < i,
            forall|p: int| 0 <= p < i ==> #[trigger] as_positions(order@).contains(p),
        decreases sizes@.len() - i,
    {
        let size: u64 = sizes[i];
        let mut at: usize = order.len();
        while at > 0 && sizes[order[at - 1]] < size
            invariant
                at <= order@.len(),
                i < sizes@.len(),
                size == sizes@[i as int],
                forall|a: int| 0 <= a < order@.len() ==> #[trigger] order@[a] < i,
                forall|a: int| at <= a < order@.len() ==> sizes@[#[trigger] order@[a] as int] < size,
            decreases at,
        {
            at = at - 1;
        }
        let ghost before = order@;
        order.insert(at, i);
        proof {
            assert forall|a: int, b: int|
                0 <= a < b < order@.len() implies #[trigger] tried_before(
                sizes@,
                order@[a] as int,
                order@[b] as int,
            ) by {
                if b < at {
                    assert(tried_before(sizes@, before[a] as int, before[b] as int));
                } else if b == at {
                    if a < at - 1 {
                        assert(tried_before(sizes@, before[a] as int, before[at - 1] as int));
                    }
                    assert(before[a] < i);
                } else if a < at {
                    assert(tried_before(sizes@, before[a] as int, before[b - 1] as int));
                } else if a == at {
                    assert(sizes@[before[b - 1] as int] < size);
                } else {
                    assert(tried_before(sizes@, before[a - 1] as int, before[b - 1] as int));
                }
            }
            assert forall|p: int| 0 <= p < i + 1 implies #[trigger] as_positions(
                order@,
            ).contains(p) by {
                let s = as_positions(before);
                let t = as_positions(order@);
                if p < i {
                    assert(s.contains(p));
                    let a = choose|a: int| 0 <= a < s.len() && s[a] == p;
                    if a < at {
                        assert(t[a] == p);
                    } else {
                        assert(t[a + 1] == p);
                    }
                } else {
                    assert(t[at as int] == p);
                }
            }
        }
        i = i + 1;
    }
    proof {
        let s = as_positions(order@);
        assert forall|a: int, b: int| 0 <= a < b < s.len() implies #[trigger] tried_before(
            sizes@,
            s[a],
            s[b],
        ) by {
            assert(tried_before(sizes@, order@[a] as int, order@[b] as int));
        }
        assert forall|p: int| #[trigger] s.contains(p) <==> 0 <= p < sizes@.len() by {
            if s.contains(p) {
                let a = choose|a: int| 0 <= a < s.len() && s[a] == p;
                assert(order@[a] < i);
            }
        }
        lemma_by_size(s, sizes@);
    }
    order
}

/// Of the first `n` positions tried, those that still fit in the budget, and how
/// many bytes they take together.
pub open spec fn chosen(sizes: Seq<u64>, order: Seq<int>, budget: u64, n: int) -> (Seq<int>, nat)
    decreases n,
{
    if n <= 0 {
        (Seq::empty(), 0)
    } else {
        let (before, total) = chosen(sizes, order, budget, n - 1);
        let p = order[n - 1];
        if total + sizes[p] <= budget {
            (before.push(p), total + sizes[p] as nat)
        } else {
            (before, total)
        }
    }
}

/// The positions of the blocks that stay, in the order in which they were
/// chosen, and how many bytes they take together. Without a budget none stays, not
/// even a block without bytes.
pub open spec fn resident(sizes: Seq<u64>, budget: u64) -> (Seq<int>, nat) {
    if budget == 0 {
        (Seq::empty(), 0)
    } else {
        chosen(sizes, by_size(sizes), budget, sizes.len() as int)
    }
}

/// Chooses the blocks that stay.
pub fn choose_resident(sizes: &Vec<u64>, budget: u64) -> (r: (Vec<usize>, u64))
    ensures
        as_positions(r.0@) == resident(sizes@, budget).0,
        r.1 == resident(sizes@, budget).1,
        r.1 <= budget,
        budget == 0 ==> r.0@.len() == 0,
        forall|i: int| 0 <= i < r.0@.len() ==> #[trigger] r.0@[i] < sizes@.len(),
{
    let mut picked: Vec<usize> = Vec::new();
    assert(as_positions(picked@) =~= Seq::<int>::empty());
    if budget == 0 {
        return (picked, 0);
    }
    let order = positions_by_size(sizes);
    let ghost all = by_size(sizes@);
    let mut total: u64 = 0;
    let mut n: usize = 0;
    proof {
        lemma_order_len(all, sizes@);
    }
    while n < order.len()
        invariant
            n <= order@.len(),
            all == by_size(sizes@),
            all == as_positions(order@),
            orders(all, sizes@),
            as_positions(picked@) == chosen(sizes@, all, budget, n as int).0,
            total == chosen(sizes@, all, budget, n as int).1,
            total <= budget,
            forall|i: int| 0 <= i < picked@.len() ==> #[trigger] picked@[i] < sizes@.len(),
        decreases order@.len() - n,
    {
        let p = order[n];
        proof {
            assert(all[n as int] == p);
            assert(all.contains(all[n as int]));
        }
        let size: u64 = sizes[p];
        if size <= budget - total {
            let ghost before = as_positions(picked@);
            picked.push(p);
            assert(as_positions(picked@) =~= before.push(p as int));
            total = total + size;
        }
        n = n + 1;
    }
    (picked, total)
}

/// An order of all positions has as many entries as there are sizes.
proof fn lemma_order_len(order: Seq<int>, sizes: Seq<u64>)
    requires
        orders(order, sizes),
    ensures
        order.len() == sizes.len(),
        order.no_duplicates(),
{
    assert forall|i: int, j: int|
        0 <= i < order.len() && 0 <= j < order.len() && i != j implies order[i] != order[j] by {
        if i < j {
            assert(tried_before(sizes, order[i], order[j]));
        } else {
            assert(tried_before(sizes, order[j], order[i]));
        }
    }
    order.unique_seq_to_set();
    let n = sizes.len() as int;
    assert(order.to_set() =~= vstd::set_lib::set_int_range(0, n));
    vstd::set_lib::lemma_int_range(0, n);
}

/// Where position `k` goes among the positions before it.
proof fn lemma_place(s: Seq<int>, sizes: Seq<u64>, k: int, from: int) -> (at: int)
    requires
        forall|i: int, j: int|
            0 <= i < j < s.len() ==> #[trigger] tried_before(sizes, s[i], s[j]),
        forall|i: int| 0 <= i < s.len() ==> #[trigger] s[i] < k,
        0 <= from <= s.len(),
        forall|j: int| from <= j < s.len() ==> sizes[#[trigger] s[j]] < sizes[k],
    ensures
        0 <= at <= s.len(),
        forall|i: int, j: int|
            0 <= i < j < s.insert(at, k).len() ==> #[trigger] tried_before(
                sizes,
                s.insert(at, k)[i],
                s.insert(at, k)[j],
            ),
    decreases from,
{
    if from > 0 && sizes[s[from - 1]] < sizes[k] {
        lemma_place(s, sizes, k, from - 1)
    } else {
        let t = s.insert(from, k);
        assert forall|i: int, j: int| 0 <= i < j < t.len() implies #[trigger] tried_before(
            sizes,
            t[i],
            t[j],
        ) by {
            if j < from {
                assert(tried_before(sizes, s[i], s[j]));
            } else if j == from {
                if i < from - 1 {
                    assert(tried_before(sizes, s[i], s[from - 1]));
                }
                assert(s[i] < k);
            } else if i < from {
                assert(tried_before(sizes, s[i], s[j - 1]));
            } else if i == from {
                assert(sizes[s[j - 1]] < sizes[k]);
            } else {
                assert(tried_before(sizes, s[i - 1], s[j - 1]));
            }
        }
        from
    }
}

proof fn lemma_order_exists(sizes: Seq<u64>, k: int) -> (s: Seq<int>)
    requires
        0 <= k <= sizes.len(),
    ensures
        forall|i: int, j: int|
            0 <= i < j < s.len() ==> #[trigger] tried_before(sizes, s[i], s[j]),
        forall|p: int| #[trigger] s.contains(p) <==> 0 <= p < k,
    decreases k,
{
    if k == 0 {
        Seq::empty()
    } else {
        let s = lemma_order_exists(sizes, k - 1);
        assert forall|i: int| 0 <= i < s.len() implies #[trigger] s[i] < k - 1 by {
            assert(s.contains(s[i]));
        }
        let at = lemma_place(s, sizes, k - 1, s.len() as int);
        let t = s.insert(at, k - 1);
        assert forall|p: int| #[trigger] t.contains(p) <==> 0 <= p < k by {
            assert(t[at] == k - 1);
            if 0 <= p < k - 1 {
                assert(s.contains(p));
                let j = choose|j: int| 0 <= j < s.len() && s[j] == p;
                if j < at {
                    assert(t[j] == p);
                } else {
                    assert(t[j + 1] == p);
                }
            }
            if t.contains(p) {
                let j = choose|j: int| 0 <= j < t.len() && t[j] == p;
                if j < at {
                    assert(s.contains(s[j]));
                } else if j > at {
                    assert(s.contains(s[j - 1]));
                }
            }
        }
        t
    }
}

/// Blocks are tried from the largest to the smallest, each once, and those of the
/// same size in their order.
pub proof fn lemma_tried_in_order(sizes: Seq<u64>)
    ensures
        orders(by_size(sizes), sizes),
        by_size(sizes).len() == sizes.len(),
        by_size(sizes).no_duplicates(),
{
    let s = lemma_order_exists(sizes, sizes.len() as int);
    assert(orders(s, sizes));
    lemma_order_len(by_size(sizes), sizes);
}

/// How many bytes the blocks at some positions have together.
pub open spec fn bytes_at(sizes: Seq<u64>, positions: Seq<int>) -> nat
    decreases positions.len(),
{
    if positions.len() == 0 {
        0
    } else {
        bytes_at(sizes, positions.drop_last()) + sizes[positions.last()] as nat
    }
}

proof fn lemma_chosen(sizes: Seq<u64>, order: Seq<int>, budget: u64, n: int)
    requires
        orders(order, sizes),
        0 <= n <= order.len(),
    ensures
        chosen(sizes, order, budget, n).1 <= budget,
        chosen(sizes, order, budget, n).1 == bytes_at(sizes, chosen(sizes, order, budget, n).0),
        chosen(sizes, order, budget, n).0.no_duplicates(),
        forall|p: int| #[trigger]
            chosen(sizes, order, budget, n).0.contains(p) ==> order.take(n).contains(p),
    decreases n,
{
    if n > 0 {
        lemma_chosen(sizes, order, budget, n - 1);
        let (before, total) = chosen(sizes, order, budget, n - 1);
        let (after, _) = chosen(sizes, order, budget, n);
        let p = order[n - 1];
        let earlier = order.take(n - 1);
        lemma_order_len(order, sizes);
        assert(order.take(n) =~= earlier.push(p));
        assert(order.take(n)[n - 1] == p);
        assert forall|q: int| #[trigger] after.contains(q) implies order.take(n).contains(q) by {
            if before.contains(q) {
                let j = choose|j: int| 0 <= j < earlier.len() && earlier[j] == q;
                assert(order.take(n)[j] == q);
            } else {
                let j = choose|j: int| 0 <= j < after.len() && after[j] == q;
                if j < before.len() {
                    assert(before[j] == q);
                }
            }
        }
        if total + sizes[p] <= budget {
            assert(after.drop_last() =~= before);
            assert(!before.contains(p)) by {
                if before.contains(p) {
                    let j = choose|j: int| 0 <= j < earlier.len() && earlier[j] == p;
                    assert(order[j] == order[n - 1]);
                }
            }
            assert forall|i: int, j: int|
                0 <= i < after.len() && 0 <= j < after.len() && i != j implies after[i]
                != after[j] by {
                if i < before.len() && j < before.len() {
                } else if i < before.len() {
                    assert(before.contains(before[i]));
                } else {
                    assert(before.contains(before[j]));
                }
            }
        }
    }
}

/// The blocks that stay are different from each other and fit in the budget
/// together.
pub proof fn lemma_resident_within_budget(sizes: Seq<u64>, budget: u64)
    ensures
        resident(sizes, budget).1 <= budget,
        resident(sizes, budget).1 == bytes_at(sizes, resident(sizes, budget).0),
        resident(sizes, budget).0.no_duplicates(),
        forall|p: int| #[trigger]
            resident(sizes, budget).0.contains(p) ==> 0 <= p < sizes.len(),
{
    lemma_tried_in_order(sizes);
    let order = by_size(sizes);
    let n = sizes.len() as int;
    lemma_chosen(sizes, order, budget, n);
    assert(order.take(n) =~= order);
}

proof fn lemma_chosen_grows(sizes: Seq<u64>, order: Seq<int>, budget: u64, k: int, n: int)
    requires
        0 <= k <= n,
    ensures
        forall|p: int| #[trigger]
            chosen(sizes, order, budget, k).0.contains(p) ==> chosen(
                sizes,
                order,
                budget,
                n,
            ).0.contains(p),
    decreases n,
{
    if k < n {
        lemma_chosen_grows(sizes, order, budget, k, n - 1);
        let before = chosen(sizes, order, budget, n - 1).0;
        let after = chosen(sizes, order, budget, n).0;
        assert forall|p: int| #[trigger] before.contains(p) implies after.contains(p) by {
            let j = choose|j: int| 0 <= j < before.len() && before[j] == p;
            assert(after[j] == p);
        }
    }
}

/// A block that does not stay did not fit when its turn came. A block without
/// bytes always fits, and does not stay where there is no budget.
pub proof fn lemma_passed_over_did_not_fit(sizes: Seq<u64>, budget: u64, k: int)
    requires
        0 <= k < sizes.len(),
        !resident(sizes, budget).0.contains(by_size(sizes)[k]),
        budget > 0 || sizes[by_size(sizes)[k]] > 0,
    ensures
        chosen(sizes, by_size(sizes), budget, k).1 + sizes[by_size(sizes)[k]] > budget,
{
    let order = by_size(sizes);
    let n = sizes.len() as int;
    let p = order[k];
    if budget > 0 && chosen(sizes, order, budget, k).1 + sizes[p] <= budget {
        let after = chosen(sizes, order, budget, k + 1).0;
        assert(after[after.len() - 1] == p);
        assert(after.contains(p));
        lemma_chosen_grows(sizes, order, budget, k + 1, n);
    }
}

/// No block that was left out would still fit beside those that stay.
pub proof fn lemma_left_out_would_not_fit(sizes: Seq<u64>, budget: u64, p: int)
    requires
        0 <= p < sizes.len(),
        !resident(sizes, budget).0.contains(p),
        budget > 0 || sizes[p] > 0,
    ensures
        resident(sizes, budget).1 + sizes[p] > budget,
{
    let order = by_size(sizes);
    lemma_tried_in_order(sizes);
    assert(order.contains(p));
    let k = choose|k: int| 0 <= k < order.len() && order[k] == p;
    if budget > 0 {
        lemma_passed_over_did_not_fit(sizes, budget, k);
        lemma_chosen_total_grows(sizes, order, budget, k, sizes.len() as int);
    }
}

proof fn lemma_chosen_total_grows(sizes: Seq<u64>, order: Seq<int>, budget: u64, k: int, n: int)
    requires
        0 <= k <= n,
    ensures
        chosen(sizes, order, budget, k).1 <= chosen(sizes, order, budget, n).1,
    decreases n,
{
    if k < n {
        lemma_chosen_total_grows(sizes, order, budget, k, n - 1);
    }
}

/// Without a budget no block stays.
pub proof fn lemma_no_budget_no_residents(sizes: Seq<u64>)
    ensures
        resident(sizes, 0).0.len() == 0,
        resident(sizes, 0).1 == 0,
{
}

/// The bytes at some positions and some more are the bytes at both together, and one
/// position counts with its own.
pub proof fn lemma_bytes_at_add_up(sizes: Seq<u64>, a: Seq<int>, b: Seq<int>, p: int)
    ensures
        bytes_at(sizes, a + b) == bytes_at(sizes, a) + bytes_at(sizes, b),
        bytes_at(sizes, seq![p]) == sizes[p],
    decreases b.len(),
{
    assert(seq![p].drop_last() =~= Seq::<int>::empty());
    assert(bytes_at(sizes, Seq::<int>::empty()) == 0);
    if b.len() == 0 {
        assert(a + b =~= a);
    } else {
        assert((a + b).drop_last() =~= a + b.drop_last());
        assert((a + b).last() == b.last());
        lemma_bytes_at_add_up(sizes, a, b.drop_last(), p);
    }
}

proof fn lemma_chosen_before(sizes: Seq<u64>, order: Seq<int>, budget: u64, k: int, n: int)
    requires
        orders(order, sizes),
        0 <= k < order.len(),
        k <= n <= order.len(),
    ensures
        ({
            let p = order[k];
            chosen(sizes, order, budget, n).0.filter(
                |q: int| sizes[q] > sizes[p] || (sizes[q] == sizes[p] && q < p),
            ) == chosen(sizes, order, budget, k).0
        }),
    decreases n - k,
{
    let p = order[k];
    let pred = |q: int| sizes[q] > sizes[p] || (sizes[q] == sizes[p] && q < p);
    reveal(Seq::filter);
    if n == k {
        lemma_chosen(sizes, order, budget, k);
        let s = chosen(sizes, order, budget, k).0;
        assert forall|i: int| 0 <= i < s.len() implies pred(#[trigger] s[i]) by {
            assert(s.contains(s[i]));
            let j = choose|j: int| 0 <= j < k && order.take(k)[j] == s[i];
            assert(tried_before(sizes, order[j], order[k]));
        }
        block_laws::lemma_filter_keeps_all(s, pred);
    } else {
        lemma_chosen_before(sizes, order, budget, k, n - 1);
        let q = order[n - 1];
        if n - 1 > k {
            assert(tried_before(sizes, order[k], order[n - 1]));
        }
        assert(!pred(q));
        let before = chosen(sizes, order, budget, n - 1).0;
        assert(before.push(q).drop_last() =~= before);
    }
}

proof fn lemma_never_chosen_later(sizes: Seq<u64>, order: Seq<int>, budget: u64, k: int, n: int)
    requires
        orders(order, sizes),
        0 <= k < n <= order.len(),
        !chosen(sizes, order, budget, k + 1).0.contains(order[k]),
    ensures
        !chosen(sizes, order, budget, n).0.contains(order[k]),
    decreases n - k,
{
    if n > k + 1 {
        lemma_never_chosen_later(sizes, order, budget, k, n - 1);
        assert(tried_before(sizes, order[k], order[n - 1]));
        let before = chosen(sizes, order, budget, n - 1).0;
        let after = chosen(sizes, order, budget, n).0;
        if after.contains(order[k]) {
            let j = choose|j: int| 0 <= j < after.len() && after[j] == order[k];
            if j < before.len() {
                assert(before[j] == order[k]);
            }
        }
    }
}

proof fn lemma_chosen_in_order(sizes: Seq<u64>, order: Seq<int>, budget: u64, n: int)
    requires
        orders(order, sizes),
        0 <= n <= order.len(),
    ensures
        forall|i: int, j: int|
            0 <= i < j < chosen(sizes, order, budget, n).0.len() ==> #[trigger] tried_before(
                sizes,
                chosen(sizes, order, budget, n).0[i],
                chosen(sizes, order, budget, n).0[j],
            ),
    decreases n,
{
    if n > 0 {
        lemma_chosen_in_order(sizes, order, budget, n - 1);
        lemma_chosen(sizes, order, budget, n - 1);
        let before = chosen(sizes, order, budget, n - 1).0;
        let after = chosen(sizes, order, budget, n).0;
        assert forall|i: int, j: int| 0 <= i < j < after.len() implies #[trigger] tried_before(
            sizes,
            after[i],
            after[j],
        ) by {
            if j < before.len() {
                assert(tried_before(sizes, before[i], before[j]));
            } else {
                assert(before.contains(before[i]));
                let head = order.take(n - 1);
                assert(head.contains(before[i]));
                let k = choose|k: int| 0 <= k < head.len() && head[k] == before[i];
                assert(tried_before(sizes, order[k], order[n - 1]));
            }
        }
    }
}

/// Which blocks stay where there is a budget: the larger ones are tried first, equal
/// ones in their order, and one stays exactly if it fits beside those that were tried
/// before it and stay. They are listed in the order in which they were tried.
#[verifier::spinoff_prover]
#[verifier::rlimit(40)]
pub proof fn lemma_larger_blocks_come_first(sizes: Seq<u64>, budget: u64, p: int)
    requires
        budget > 0,
        0 <= p < sizes.len(),
    ensures
        ({
            let stay = resident(sizes, budget).0;
            let earlier = stay.filter(
                |q: int| sizes[q] > sizes[p] || (sizes[q] == sizes[p] && q < p),
            );
            &&& stay.contains(p) <==> bytes_at(sizes, earlier) + sizes[p] <= budget
            &&& forall|i: int, j: int|
                #![trigger stay[i], stay[j]]
                0 <= i < j < stay.len() ==> sizes[stay[i]] > sizes[stay[j]] || (sizes[stay[i]]
                    == sizes[stay[j]] && stay[i] < stay[j])
        }),
{
    let order = by_size(sizes);
    let n = sizes.len() as int;
    lemma_tried_in_order(sizes);
    assert(order.contains(p));
    let k = choose|k: int| 0 <= k < order.len() && order[k] == p;
    lemma_chosen_before(sizes, order, budget, k, n);
    lemma_chosen(sizes, order, budget, k);
    let before = chosen(sizes, order, budget, k).0;
    let next = chosen(sizes, order, budget, k + 1).0;
    if chosen(sizes, order, budget, k).1 + sizes[p] <= budget {
        assert(next[before.len() as int] == p);
        assert(next.contains(p));
        lemma_chosen_grows(sizes, order, budget, k + 1, n);
    } else {
        assert(!next.contains(p)) by {
            if next.contains(p) {
                let j = choose|j: int| 0 <= j < k && order.take(k)[j] == p;
                assert(tried_before(sizes, order[j], order[k]));
            }
        }
        lemma_never_chosen_later(sizes, order, budget, k, n);
    }
    lemma_chosen_in_order(sizes, order, budget, n);
    let stay = resident(sizes, budget).0;
    assert forall|i: int, j: int|
        #![trigger stay[i], stay[j]]
        0 <= i < j < stay.len() implies sizes[stay[i]] > sizes[stay[j]] || (sizes[stay[i]]
        == sizes[stay[j]] && stay[i] < stay[j]) by {
        assert(tried_before(sizes, stay[i], stay[j]));
    }
}

} // verus!
