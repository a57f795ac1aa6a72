//! Maps keyed by a name and kept in the order of their names.

use vstd::prelude::*;

use crate::text;
use crate::text::{compare_text, Placement};

verus! {

/// The names stand in strictly ascending order, so that none occurs twice.
pub open spec fn ascending(s: Seq<Seq<char>>) -> bool {
    forall|i: int, j: int| 0 <= i < j < s.len() ==> #[trigger] text::text_before(s[i], s[j])
}

/// `s` holds the names of `set`, each once and in ascending order.
pub open spec fn lists(s: Seq<Seq<char>>, set: Set<Seq<char>>) -> bool {
    &&& ascending(s)
    &&& forall|k: Seq<char>| #[trigger] s.contains(k) <==> set.contains(k)
}

/// The names of a finite set in ascending order.
pub open spec fn ordered(set: Set<Seq<char>>) -> Seq<Seq<char>> {
    choose|s: Seq<Seq<char>>| lists(s, set)
}

pub proof fn lemma_ascending_distinct(s: Seq<Seq<char>>, i: int, j: int)
    requires
        ascending(s),
        0 <= i < j < s.len(),
    ensures
        s[i] != s[j],
{
    assert(text::text_before(s[i], s[j]));
    text::lemma_precedes_irreflexive(text::char_codes(s[i]));
}

/// Two ascending sequences of the same names are equal.
pub proof fn lemma_ascending_unique(a: Seq<Seq<char>>, b: Seq<Seq<char>>)
    requires
        ascending(a),
        ascending(b),
        forall|k: Seq<char>| #[trigger] a.contains(k) <==> b.contains(k),
    ensures
        a == b,
    decreases a.len(),
{
    if a.len() == 0 {
        if b.len() > 0 {
            assert(a.contains(b[0]) <==> b.contains(b[0]));
        }
        assert(a =~= b);
    } else {
        assert(a.contains(a.last()));
        let j = choose|j: int| 0 <= j < b.len() && b[j] == a.last();
        assert(a.contains(b.last()) <==> b.contains(b.last()));
        let i = choose|i: int| 0 <= i < a.len() && a[i] == b.last();
        if a.last() != b.last() {
            assert(text::text_before(b[j], b.last()));
            assert(text::text_before(a[i], a.last()));
            text::lemma_precedes_asymmetric(
                text::char_codes(a.last()),
                text::char_codes(b.last()),
            );
        }
        let x = a.drop_last();
        let y = b.drop_last();
        assert(ascending(x)) by {
            assert forall|m: int, n: int| 0 <= m < n < x.len() implies #[trigger] text::text_before(
                x[m],
                x[n],
            ) by {
                assert(text::text_before(a[m], a[n]));
            }
        }
        assert(ascending(y)) by {
            assert forall|m: int, n: int| 0 <= m < n < y.len() implies #[trigger] text::text_before(
                y[m],
                y[n],
            ) by {
                assert(text::text_before(b[m], b[n]));
            }
        }
        assert forall|k: Seq<char>| #[trigger] x.contains(k) <==> y.contains(k) by {
            if x.contains(k) {
                let m = choose|m: int| 0 <= m < x.len() && x[m] == k;
                lemma_ascending_distinct(a, m, a.len() - 1);
                assert(a.contains(k)) by {
                    assert(a[m] == k);
                }
                let n = choose|n: int| 0 <= n < b.len() && b[n] == k;
                assert(y[n] == k);
            }
            if y.contains(k) {
                let m = choose|m: int| 0 <= m < y.len() && y[m] == k;
                lemma_ascending_distinct(b, m, b.len() - 1);
                assert(a.contains(k) <==> b.contains(k)) by {
                    assert(b[m] == k);
                }
                let n = choose|n: int| 0 <= n < a.len() && a[n] == k;
                assert(x[n] == k);
            }
        }
        lemma_ascending_unique(x, y);
        assert(a =~= x.push(a.last()));
        assert(b =~= y.push(b.last()));
    }
}

/// A sequence that lists a set is the set in order.
pub proof fn lemma_ordered(s: Seq<Seq<char>>, set: Set<Seq<char>>)
    requires
        lists(s, set),
    ensures
        ordered(set) == s,
{
    let t = ordered(set);
    assert(lists(t, set));
    assert forall|k: Seq<char>| #[trigger] s.contains(k) <==> t.contains(k) by {
        assert(s.contains(k) <==> set.contains(k));
        assert(t.contains(k) <==> set.contains(k));
    }
    lemma_ascending_unique(s, t);
}

/// Where a new name goes among ascending ones.
proof fn lemma_place(s: Seq<Seq<char>>, x: Seq<char>, from: int) -> (at: int)
    requires
        ascending(s),
        !s.contains(x),
        0 <= from <= s.len(),
        forall|j: int| from <= j < s.len() ==> text::text_before(x, #[trigger] s[j]),
    ensures
        0 <= at <= s.len(),
        ascending(s.insert(at, x)),
    decreases from,
{
    if from > 0 && text::text_before(x, s[from - 1]) {
        lemma_place(s, x, from - 1)
    } else {
        let t = s.insert(from, x);
        assert forall|i: int, j: int| 0 <= i < j < t.len() implies #[trigger] text::text_before(
            t[i],
            t[j],
        ) by {
            if j < from {
                assert(text::text_before(s[i], s[j]));
            } else if j == from {
                let y = s[from - 1];
                assert(s.contains(y));
                text::lemma_precedes_total(text::char_codes(x), text::char_codes(y));
                if text::char_codes(x) == text::char_codes(y) {
                    text::lemma_char_codes_injective(x, y);
                }
                assert(text::text_before(y, x));
                if i < from - 1 {
                    assert(text::text_before(s[i], y));
                    text::lemma_precedes_transitive(
                        text::char_codes(s[i]),
                        text::char_codes(y),
                        text::char_codes(x),
                    );
                }
            } else if i < from {
                assert(text::text_before(s[i], s[j - 1]));
            } else if i == from {
                assert(text::text_before(x, s[j - 1]));
            } else {
                assert(text::text_before(s[i - 1], s[j - 1]));
            }
        }
        from
    }
}

/// A finite set of names can be put in order.
pub proof fn lemma_ordered_exists(set: Set<Seq<char>>)
    requires
        set.finite(),
    ensures
        lists(ordered(set), set),
    decreases set.len(),
{
    if set.len() == 0 {
        assert(set =~= Set::empty());
        assert(lists(Seq::<Seq<char>>::empty(), set));
    } else {
        let x = set.choose();
        let rest = set.remove(x);
        lemma_ordered_exists(rest);
        let s = ordered(rest);
        assert(s.contains(x) <==> rest.contains(x));
        let at = lemma_place(s, x, s.len() as int);
        let t = s.insert(at, x);
        assert forall|k: Seq<char>| #[trigger] t.contains(k) <==> set.contains(k) by {
            assert(s.contains(k) <==> rest.contains(k));
            assert(t[at] == x);
            if s.contains(k) {
                let j = choose|j: int| 0 <= j < s.len() && s[j] == k;
                if j < at {
                    assert(t[j] == k);
                } else {
                    assert(t[j + 1] == k);
                }
            }
            if t.contains(k) {
                let j = choose|j: int| 0 <= j < t.len() && t[j] == k;
                if j < at {
                    assert(s[j] == k);
                } else if j > at {
                    assert(s[j - 1] == k);
                }
            }
        }
        assert(lists(t, set));
    }
}

/// A map from names to values. The entries stand in strictly ascending order
/// of their names, so that walking them by position walks the names in order.
#[derive(Debug)]
pub struct NameMap<V> {
    entries: Vec<(String, V)>,
}

impl<V> View for NameMap<V> {
    type V = Map<Seq<char>, V>;

    closed spec fn view(&self) -> Map<Seq<char>, V> {
        Map::new(
            |k: Seq<char>| self.keys().contains(k),
            |k: Seq<char>| self.entries@[self.keys().index_of(k)].1,
        )
    }
}

impl<V> NameMap<V> {
    /// The names, in the order of the entries.
    pub closed spec fn keys(&self) -> Seq<Seq<char>> {
        Seq::new(self.entries@.len(), |i: int| self.entries@[i].0@)
    }

    /// The values, in the order of the entries.
    pub closed spec fn values(&self) -> Seq<V> {
        Seq::new(self.entries@.len(), |i: int| self.entries@[i].1)
    }

    /// The names are in strictly ascending order.
    #[verifier::type_invariant]
    pub open spec fn wf(&self) -> bool {
        ascending(self.keys())
    }

    /// What the positions of a well-formed map have to do with its contents.
    pub proof fn lemma_contents(&self)
        requires
            self.wf(),
        ensures
            self.keys().len() == self.values().len(),
            self.keys().no_duplicates(),
            self.keys() == ordered(self@.dom()),
            forall|k: Seq<char>| #[trigger] self@.contains_key(k) <==> self.keys().contains(k),
            forall|i: int|
                0 <= i < self.keys().len() ==> self@.contains_key(#[trigger] self.keys()[i])
                    && self@[self.keys()[i]] == self.values()[i],
    {
        assert forall|i: int, j: int|
            0 <= i < self.keys().len() && 0 <= j < self.keys().len() && i
                != j implies self.keys()[i] != self.keys()[j] by {
            if i < j {
                assert(text::text_before(self.keys()[i], self.keys()[j]));
                text::lemma_precedes_irreflexive(text::char_codes(self.keys()[i]));
            } else {
                assert(text::text_before(self.keys()[j], self.keys()[i]));
                text::lemma_precedes_irreflexive(text::char_codes(self.keys()[i]));
            }
        }
        assert forall|i: int| 0 <= i < self.keys().len() implies self@.contains_key(
            #[trigger] self.keys()[i],
        ) && self@[self.keys()[i]] == self.values()[i] by {
            let k = self.keys()[i];
            assert(self.keys().contains(k));
            self.keys().index_of_first_ensures(k);
            let j = self.keys().index_of(k);
            assert(0 <= j < self.keys().len() && self.keys()[j] == k);
        }
        assert(lists(self.keys(), self@.dom()));
        lemma_ordered(self.keys(), self@.dom());
    }

    /// An empty map.
    pub fn new() -> (r: Self)
        ensures
            r@ == Map::<Seq<char>, V>::empty(),
    {
        let r = NameMap { entries: Vec::new() };
        assert(r@ =~= Map::<Seq<char>, V>::empty());
        r
    }

    /// The entries can be counted.
    pub proof fn lemma_len(&self)
        ensures
            self.keys().len() <= usize::MAX,
    {
        assert(self.keys().len() == self.entries.len());
    }

    pub fn len(&self) -> (r: usize)
        ensures
            self.wf(),
            r == self.keys().len(),
            r == self.values().len(),
    {
        proof {
            use_type_invariant(self);
        }
        self.entries.len()
    }

    /// The name at a position.
    pub fn key_at(&self, i: usize) -> (r: &str)
        requires
            i < self.keys().len(),
        ensures
            r@ == self.keys()[i as int],
    {
        self.entries[i].0.as_str()
    }

    /// The value at a position.
    pub fn value_at(&self, i: usize) -> (r: &V)
        requires
            i < self.values().len(),
        ensures
            *r == self.values()[i as int],
    {
        &self.entries[i].1
    }

    /// Where `key` stands, or where it would have to be put.
    fn find(&self, key: &str) -> (r: (bool, usize))
        ensures
            self.wf(),
            r.1 <= self.keys().len(),
            r.0 == self.keys().contains(key@),
            r.0 ==> r.1 < self.keys().len() && self.keys()[r.1 as int] == key@,
            !r.0 ==> forall|i: int|
                0 <= i < r.1 ==> text::text_before(#[trigger] self.keys()[i], key@),
            !r.0 ==> forall|i: int|
                r.1 <= i < self.keys().len() ==> text::text_before(key@, #[trigger] self.keys()[i]),
    {
        proof {
            use_type_invariant(self);
        }
        let mut lo: usize = 0;
        let mut hi: usize = self.entries.len();
        while lo < hi
            invariant
                self.wf(),
                lo <= hi <= self.keys().len(),
                self.keys().len() == self.entries@.len(),
                forall|i: int| 0 <= i < lo ==> text::text_before(#[trigger] self.keys()[i], key@),
                forall|i: int|
                    hi <= i < self.keys().len() ==> text::text_before(
                        key@,
                        #[trigger] self.keys()[i],
                    ),
            decreases hi - lo,
        {
            let mid = lo + (hi - lo) / 2;
            assert(self.keys()[mid as int] == self.entries@[mid as int].0@);
            match compare_text(self.entries[mid].0.as_str(), key) {
                Placement::Same => {
                    return (true, mid);
                },
                Placement::Before => {
                    assert forall|i: int| 0 <= i < mid + 1 implies text::text_before(
                        #[trigger] self.keys()[i],
                        key@,
                    ) by {
                        if i < mid {
                            assert(text::text_before(self.keys()[i], self.keys()[mid as int]));
                            text::lemma_precedes_transitive(
                                text::char_codes(self.keys()[i]),
                                text::char_codes(self.keys()[mid as int]),
                                text::char_codes(key@),
                            );
                        }
                    }
                    lo = mid + 1;
                },
                Placement::After => {
                    assert forall|i: int|
                        mid <= i < self.keys().len() implies text::text_before(
                        key@,
                        #[trigger] self.keys()[i],
                    ) by {
                        if mid < i {
                            assert(text::text_before(self.keys()[mid as int], self.keys()[i]));
                            text::lemma_precedes_transitive(
                                text::char_codes(key@),
                                text::char_codes(self.keys()[mid as int]),
                                text::char_codes(self.keys()[i]),
                            );
                        }
                    }
                    hi = mid;
                },
            }
        }
        assert(!self.keys().contains(key@)) by {
            if self.keys().contains(key@) {
                let i = choose|i: int| 0 <= i < self.keys().len() && self.keys()[i] == key@;
                text::lemma_precedes_irreflexive(text::char_codes(key@));
                assert(text::text_before(self.keys()[i], key@) || text::text_before(
                    key@,
                    self.keys()[i],
                ));
            }
        }
        (false, lo)
    }

    /// The value of a name.
    pub fn get(&self, key: &str) -> (r: Option<&V>)
        ensures
            r is Some <==> self@.contains_key(key@),
            r matches Some(v) ==> *v == self@[key@],
    {
        proof {
            use_type_invariant(self);
            self.lemma_contents();
        }
        let (found, i) = self.find(key);
        if found {
            Some(&self.entries[i].1)
        } else {
            None
        }
    }

    /// Puts a value under a name, in place of what the name had before.
    pub fn insert(&mut self, key: &str, value: V)
        ensures
            final(self)@ == old(self)@.insert(key@, value),
    {
        let (found, i) = self.find(key);
        let ghost before = *self;
        proof {
            before.lemma_contents();
        }
        let mut entries: Vec<(String, V)> = Vec::new();
        std::mem::swap(&mut entries, &mut self.entries);
        if found {
            entries[i] = (key.to_owned(), value);
        } else {
            entries.insert(i, (key.to_owned(), value));
        }
        let ghost after = NameMap { entries };
        proof {
            if found {
                assert(after.keys() =~= before.keys());
                assert(after.values() =~= before.values().update(i as int, value));
            } else {
                assert(after.keys() =~= before.keys().insert(i as int, key@));
                assert(after.values() =~= before.values().insert(i as int, value));
            }
            assert(after.wf());
            after.lemma_contents();
            assert forall|k: Seq<char>| after@.contains_key(k) <==> #[trigger] before@.insert(
                key@,
                value,
            ).contains_key(k) by {
                if after.keys().contains(k) {
                    let j = choose|j: int| 0 <= j < after.keys().len() && after.keys()[j] == k;
                    if !found && j > i {
                        assert(before.keys()[j - 1] == k);
                    } else if found || j < i {
                        assert(before.keys()[j] == k);
                    }
                }
                if before.keys().contains(k) {
                    let j = choose|j: int| 0 <= j < before.keys().len() && before.keys()[j] == k;
                    if !found && j >= i {
                        assert(after.keys()[j + 1] == k);
                    } else {
                        assert(after.keys()[j] == k);
                    }
                }
                assert(after.keys()[i as int] == key@);
            }
            assert forall|k: Seq<char>| after@.contains_key(k) implies #[trigger] after@[k]
                == before@.insert(key@, value)[k] by {
                let j = choose|j: int| 0 <= j < after.keys().len() && after.keys()[j] == k;
                if found {
                    assert(before.keys()[j] == k);
                } else if j < i {
                    assert(before.keys()[j] == k);
                } else if j > i {
                    assert(before.keys()[j - 1] == k);
                }
                assert(after.keys()[i as int] == key@);
            }
            assert(after@ =~= before@.insert(key@, value));
        }
        self.entries = entries;
    }
}

} // verus!
