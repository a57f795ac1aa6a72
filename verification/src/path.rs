//! Unix file paths as byte strings: their order, their components and whether
//! one lies under another.

use vstd::prelude::*;
use vstd::string::StringSliceAdditionalSpecFns;

use crate::text;

verus! {

pub const SEPARATOR: u8 = 47;

pub const DOT: u8 = 46;

/// The path of a file or a directory.
#[derive(PartialEq, Eq, Debug)]
pub struct FilePath {
    bytes: Vec<u8>,
}

impl View for FilePath {
    type V = Seq<u8>;

    closed spec fn view(&self) -> Seq<u8> {
        self.bytes@
    }
}

impl Clone for FilePath {
    fn clone(&self) -> (r: Self)
        ensures
            r@ == self@,
    {
        let bytes = self.bytes.clone();
        assert(bytes@ =~= self.bytes@);
        FilePath { bytes }
    }
}

/// What the paths of a list are.
pub open spec fn path_views(paths: Seq<FilePath>) -> Seq<Seq<u8>> {
    paths.map_values(|p: FilePath| p@)
}

/// The path starts at the root of the file system.
pub open spec fn is_absolute(p: Seq<u8>) -> bool {
    p.len() > 0 && p[0] == SEPARATOR
}

/// Whether a part of a path between separators counts as a component: empty
/// parts never do, and `.` only where it leads a relative path.
pub open spec fn is_component(part: Seq<u8>, first: bool) -> bool {
    part.len() > 0 && (part != seq![DOT] || first)
}

/// The parts that count as components.
pub open spec fn kept_parts(parts: Seq<Seq<u8>>) -> Seq<Seq<u8>>
    decreases parts.len(),
{
    if parts.len() == 0 {
        Seq::empty()
    } else if is_component(parts.last(), parts.len() == 1) {
        kept_parts(parts.drop_last()).push(parts.last())
    } else {
        kept_parts(parts.drop_last())
    }
}

/// The components of a path below its root, if it has one.
pub open spec fn components(p: Seq<u8>) -> Seq<Seq<u8>> {
    kept_parts(text::split(p, SEPARATOR))
}

/// `p` is `base` or lies somewhere below it, component by component.
pub open spec fn lies_within(p: Seq<u8>, base: Seq<u8>) -> bool {
    is_absolute(p) == is_absolute(base) && components(base).is_prefix_of(components(p))
}

pub open spec fn byte_codes(s: Seq<u8>) -> Seq<int> {
    Seq::new(s.len(), |i: int| s[i] as int)
}

/// Lexicographic order of paths by byte.
pub open spec fn path_before(a: Seq<u8>, b: Seq<u8>) -> bool {
    text::precedes(byte_codes(a), byte_codes(b))
}

proof fn lemma_byte_codes_injective(a: Seq<u8>, b: Seq<u8>)
    requires
        byte_codes(a) == byte_codes(b),
    ensures
        a == b,
{
    assert(a.len() == byte_codes(a).len() && b.len() == byte_codes(b).len());
    assert forall|i: int| 0 <= i < a.len() implies a[i] == b[i] by {
        assert(byte_codes(a)[i] == a[i] && byte_codes(b)[i] == b[i]);
    }
    assert(a =~= b);
}

/// No path stands before one that is less than it.
pub open spec fn paths_ascend(s: Seq<Seq<u8>>) -> bool {
    forall|i: int, j: int| 0 <= i < j < s.len() ==> !#[trigger] path_before(s[j], s[i])
}

/// `r` is `s` in ascending order.
pub open spec fn sorts(r: Seq<Seq<u8>>, s: Seq<Seq<u8>>) -> bool {
    paths_ascend(r) && r.to_multiset() == s.to_multiset()
}

/// The paths of `s` in ascending order.
pub open spec fn sorted_paths(s: Seq<Seq<u8>>) -> Seq<Seq<u8>> {
    choose|r: Seq<Seq<u8>>| sorts(r, s)
}

proof fn lemma_last_is_largest(s: Seq<Seq<u8>>, p: Seq<u8>)
    requires
        paths_ascend(s),
        s.contains(p),
    ensures
        !path_before(s.last(), p),
{
    let i = choose|i: int| 0 <= i < s.len() && s[i] == p;
    if i == s.len() - 1 {
        text::lemma_precedes_irreflexive(byte_codes(p));
    } else {
        assert(!path_before(s[s.len() - 1], s[i]));
    }
}

/// Two ascending sequences of the same paths are equal.
pub proof fn lemma_sorted_unique(a: Seq<Seq<u8>>, b: Seq<Seq<u8>>)
    requires
        paths_ascend(a),
        paths_ascend(b),
        a.to_multiset() == b.to_multiset(),
    ensures
        a == b,
    decreases a.len(),
{
    a.to_multiset_ensures();
    b.to_multiset_ensures();
    if a.len() == 0 {
        assert(a =~= b);
    } else {
        let x = a.last();
        let y = b.last();
        assert(a.contains(x) && b.contains(y));
        assert(b.to_multiset().count(x) > 0);
        assert(a.to_multiset().count(y) > 0);
        lemma_last_is_largest(a, y);
        lemma_last_is_largest(b, x);
        text::lemma_precedes_total(byte_codes(x), byte_codes(y));
        lemma_byte_codes_injective(x, y);
        assert(a.drop_last() =~= a.remove(a.len() - 1));
        assert(b.drop_last() =~= b.remove(b.len() - 1));
        assert(paths_ascend(a.drop_last())) by {
            assert forall|i: int, j: int| 0 <= i < j < a.len() - 1 implies !#[trigger] path_before(
                a.drop_last()[j],
                a.drop_last()[i],
            ) by {
                assert(!path_before(a[j], a[i]));
            }
        }
        assert(paths_ascend(b.drop_last())) by {
            assert forall|i: int, j: int| 0 <= i < j < b.len() - 1 implies !#[trigger] path_before(
                b.drop_last()[j],
                b.drop_last()[i],
            ) by {
                assert(!path_before(b[j], b[i]));
            }
        }
        lemma_sorted_unique(a.drop_last(), b.drop_last());
        assert(a =~= a.drop_last().push(x));
        assert(b =~= b.drop_last().push(y));
    }
}

/// An ascending arrangement of some paths is their order.
pub proof fn lemma_sorted_paths(r: Seq<Seq<u8>>, s: Seq<Seq<u8>>)
    requires
        sorts(r, s),
    ensures
        sorted_paths(s) == r,
{
    let t = sorted_paths(s);
    assert(sorts(t, s));
    lemma_sorted_unique(r, t);
}

/// Where a path goes in an ascending sequence.
proof fn lemma_place(s: Seq<Seq<u8>>, p: Seq<u8>, from: int) -> (at: int)
    requires
        paths_ascend(s),
        0 <= from <= s.len(),
        forall|j: int| from <= j < s.len() ==> path_before(p, #[trigger] s[j]),
    ensures
        0 <= at <= s.len(),
        paths_ascend(s.insert(at, p)),
    decreases from,
{
    if from > 0 && path_before(p, s[from - 1]) {
        lemma_place(s, p, from - 1)
    } else {
        let t = s.insert(from, p);
        assert forall|m: int, n: int| 0 <= m < n < t.len() implies !#[trigger] path_before(
            t[n],
            t[m],
        ) by {
            if n < from {
                assert(!path_before(s[n], s[m]));
            } else if n == from {
                if m < from - 1 {
                    assert(!path_before(s[from - 1], s[m]));
                    lemma_not_after(s[from - 1], p, s[m]);
                }
            } else if m < from {
                assert(!path_before(s[n - 1], s[m]));
            } else if m == from {
                assert(path_before(p, s[n - 1]));
                text::lemma_precedes_asymmetric(byte_codes(p), byte_codes(s[n - 1]));
            } else {
                assert(!path_before(s[n - 1], s[m - 1]));
            }
        }
        from
    }
}

/// Any paths can be put in order.
pub proof fn lemma_sorted_exists(s: Seq<Seq<u8>>)
    ensures
        sorts(sorted_paths(s), s),
    decreases s.len(),
{
    if s.len() == 0 {
        assert(sorts(s, s));
    } else {
        let rest = s.drop_last();
        lemma_sorted_exists(rest);
        let r = sorted_paths(rest);
        let at = lemma_place(r, s.last(), r.len() as int);
        let t = r.insert(at, s.last());
        vstd::seq_lib::to_multiset_insert(r, at, s.last());
        rest.to_multiset_ensures();
        assert(s =~= rest.push(s.last()));
        assert(sorts(t, s));
    }
}

/// Where the last separator stands, or a negative number.
pub open spec fn last_separator(p: Seq<u8>) -> int
    decreases p.len(),
{
    if p.len() == 0 || p.last() == SEPARATOR {
        p.len() - 1
    } else {
        last_separator(p.drop_last())
    }
}

/// The directory that a file's path names: what stands before the last
/// separator, the root where that is empty, and the working directory where
/// there is no separator.
pub open spec fn directory_of(p: Seq<u8>) -> Seq<u8> {
    if last_separator(p) < 0 {
        seq![DOT]
    } else if last_separator(p) == 0 {
        seq![SEPARATOR]
    } else {
        p.take(last_separator(p))
    }
}

/// `p` as seen from the directory `dir`.
pub open spec fn joined(dir: Seq<u8>, p: Seq<u8>) -> Seq<u8> {
    if is_absolute(p) || dir.len() == 0 {
        p
    } else if dir.last() == SEPARATOR {
        dir + p
    } else {
        dir.push(SEPARATOR) + p
    }
}

impl FilePath {
    pub fn from_bytes(bytes: Vec<u8>) -> (r: Self)
        ensures
            r@ == bytes@,
    {
        FilePath { bytes }
    }

    /// The path that a text spells.
    pub fn from_text(s: &str) -> (r: Self)
        ensures
            r@ == s.spec_bytes(),
    {
        let bytes = slice_to_vec(s.as_bytes());
        FilePath { bytes }
    }

    pub fn as_bytes(&self) -> (r: &[u8])
        ensures
            r@ == self@,
    {
        self.bytes.as_slice()
    }

    /// Whether the path ends with the bytes of a text.
    pub fn ends_with(&self, suffix: &str) -> (r: bool)
        ensures
            r == suffix.spec_bytes().is_suffix_of(self@),
    {
        let tail = suffix.as_bytes();
        let n: usize = self.bytes.len();
        let m: usize = tail.len();
        if m > n {
            return false;
        }
        let mut i: usize = 0;
        while i < m
            invariant
                i <= m <= n,
                n == self@.len(),
                n == self.bytes@.len(),
                m == tail@.len(),
                tail@ == suffix.spec_bytes(),
                self@ == self.bytes@,
                forall|j: int| 0 <= j < i ==> tail@[j] == self@[n - m + j],
            decreases m - i,
        {
            if tail[i] != self.bytes[n - m + i] {
                assert(self@.subrange(n - m, n as int)[i as int] != tail@[i as int]);
                return false;
            }
            i = i + 1;
        }
        assert(self@.subrange(n - m, n as int) =~= tail@);
        true
    }

    /// Whether this path stands before another in byte order.
    pub fn is_before(&self, other: &FilePath) -> (r: bool)
        ensures
            r == path_before(self@, other@),
    {
        let ghost ca = byte_codes(self@);
        let ghost cb = byte_codes(other@);
        let mut i: usize = 0;
        while i < self.bytes.len() && i < other.bytes.len()
            invariant
                i <= self.bytes@.len(),
                i <= other.bytes@.len(),
                ca == byte_codes(self@),
                cb == byte_codes(other@),
                self@ == self.bytes@,
                other@ == other.bytes@,
                ca.take(i as int) == cb.take(i as int),
            decreases self.bytes@.len() - i,
        {
            let x: u8 = self.bytes[i];
            let y: u8 = other.bytes[i];
            assert(ca[i as int] == x && cb[i as int] == y);
            if x < y {
                assert(text::precedes_at(ca, cb, i as int));
                return true;
            }
            if y < x {
                proof {
                    assert(text::precedes_at(cb, ca, i as int));
                    text::lemma_precedes_asymmetric(cb, ca);
                }
                return false;
            }
            assert(ca.take(i + 1) =~= ca.take(i as int).push(ca[i as int]));
            assert(cb.take(i + 1) =~= cb.take(i as int).push(cb[i as int]));
            i = i + 1;
        }
        if i < other.bytes.len() {
            assert(text::precedes_at(ca, cb, i as int));
            true
        } else {
            proof {
                if i < self.bytes@.len() {
                    assert(text::precedes_at(cb, ca, i as int));
                    text::lemma_precedes_asymmetric(cb, ca);
                } else {
                    assert(ca =~= ca.take(i as int) && cb =~= cb.take(i as int));
                    text::lemma_precedes_irreflexive(ca);
                }
            }
            false
        }
    }

    /// The directory of the file that this path names.
    pub fn directory(&self) -> (r: FilePath)
        ensures
            r@ == directory_of(self@),
    {
        let n: usize = self.bytes.len();
        let mut i: usize = n;
        assert(self@.take(n as int) =~= self@);
        while i > 0 && self.bytes[i - 1] != SEPARATOR
            invariant
                i <= n == self.bytes@.len(),
                self@ == self.bytes@,
                last_separator(self@) == last_separator(self@.take(i as int)),
            decreases i,
        {
            assert(self@.take(i as int).drop_last() =~= self@.take(i - 1));
            i = i - 1;
        }
        if i == 0 {
            FilePath { bytes: vec![DOT] }
        } else if i == 1 {
            FilePath { bytes: vec![SEPARATOR] }
        } else {
            let bytes = slice_to_vec(vstd::slice::slice_subrange(self.bytes.as_slice(), 0, i - 1));
            assert(bytes@ =~= self@.take(i - 1));
            FilePath { bytes }
        }
    }

    /// A path given relative to this directory.
    pub fn join(&self, p: &str) -> (r: FilePath)
        ensures
            r@ == joined(self@, p.spec_bytes()),
    {
        let tail = p.as_bytes();
        let n: usize = self.bytes.len();
        if n == 0 || (tail.len() > 0 && tail[0] == SEPARATOR) {
            return FilePath { bytes: slice_to_vec(tail) };
        }
        let mut bytes = self.bytes.clone();
        assert(bytes@ =~= self.bytes@);
        if bytes[n - 1] != SEPARATOR {
            bytes.push(SEPARATOR);
        }
        let mut rest = slice_to_vec(tail);
        bytes.append(&mut rest);
        FilePath { bytes }
    }

    /// Whether this path is `base` or lies below it.
    pub fn starts_with(&self, base: &FilePath) -> (r: bool)
        ensures
            r == lies_within(self@, base@),
    {
        let here_absolute = self.bytes.len() > 0 && self.bytes[0] == SEPARATOR;
        let base_absolute = base.bytes.len() > 0 && base.bytes[0] == SEPARATOR;
        if here_absolute != base_absolute {
            return false;
        }
        let here = self.parts();
        let there = base.parts();
        if there.len() > here.len() {
            return false;
        }
        let ghost inner = components(self@);
        let ghost outer = components(base@);
        let mut i: usize = 0;
        while i < there.len()
            invariant
                i <= there@.len() <= here@.len(),
                part_views(here@) == inner,
                part_views(there@) == outer,
                inner == components(self@),
                outer == components(base@),
                forall|j: int| 0 <= j < i ==> outer[j] == inner[j],
            decreases there@.len() - i,
        {
            assert(inner[i as int] == here@[i as int]@);
            assert(outer[i as int] == there@[i as int]@);
            if !same_bytes(&there[i], &here[i]) {
                assert(inner.subrange(0, outer.len() as int)[i as int] != outer[i as int]);
                return false;
            }
            i = i + 1;
        }
        assert(inner.subrange(0, outer.len() as int) =~= outer);
        true
    }

    /// The components of the path below its root.
    fn parts(&self) -> (r: Vec<Vec<u8>>)
        ensures
            part_views(r@) == components(self@),
    {
        let ghost p = self@;
        let mut out: Vec<Vec<u8>> = Vec::new();
        let mut current: Vec<u8> = Vec::new();
        let mut first = true;
        let mut i: usize = 0;
        assert(p.take(0) =~= Seq::<u8>::empty());
        assert(text::split(p.take(0), SEPARATOR).drop_last() =~= Seq::<Seq<u8>>::empty());
        assert(part_views(out@) =~= Seq::<Seq<u8>>::empty());
        while i < self.bytes.len()
            invariant
                i <= self.bytes@.len(),
                p == self.bytes@,
                text::split(p.take(i as int), SEPARATOR).len() > 0,
                first == (text::split(p.take(i as int), SEPARATOR).len() == 1),
                text::split(p.take(i as int), SEPARATOR).last() == current@,
                kept_parts(text::split(p.take(i as int), SEPARATOR).drop_last()) == part_views(out@),
            decreases self.bytes@.len() - i,
        {
            let b: u8 = self.bytes[i];
            let ghost before = text::split(p.take(i as int), SEPARATOR);
            let ghost after = text::split(p.take(i + 1), SEPARATOR);
            assert(p.take(i + 1).drop_last() =~= p.take(i as int));
            if b == SEPARATOR {
                assert(after.drop_last() =~= before);
                let kept = counts_as_component(&current, first);
                let ghost done = part_views(out@);
                if kept {
                    let ghost part = current@;
                    out.push(current);
                    assert(part_views(out@) =~= done.push(part));
                }
                current = Vec::new();
                first = false;
                assert(kept_parts(before) == part_views(out@));
            } else {
                assert(after.drop_last() =~= before.drop_last());
                current.push(b);
            }
            i = i + 1;
        }
        assert(p.take(i as int) =~= p);
        if counts_as_component(&current, first) {
            let ghost done = part_views(out@);
            let ghost part = current@;
            out.push(current);
            assert(part_views(out@) =~= done.push(part));
        }
        out
    }
}

/// What the byte strings of a list are.
spec fn part_views(parts: Seq<Vec<u8>>) -> Seq<Seq<u8>> {
    parts.map_values(|p: Vec<u8>| p@)
}

fn counts_as_component(part: &Vec<u8>, first: bool) -> (r: bool)
    ensures
        r == is_component(part@, first),
{
    if part.len() == 0 {
        return false;
    }
    if part.len() == 1 && part[0] == DOT {
        assert(part@ =~= seq![DOT]);
        return first;
    }
    assert(part@ != seq![DOT]) by {
        assert(seq![DOT].len() == 1 && seq![DOT][0] == DOT);
    }
    true
}

fn same_bytes(a: &Vec<u8>, b: &Vec<u8>) -> (r: bool)
    ensures
        r == (a@ == b@),
{
    if a.len() != b.len() {
        return false;
    }
    let mut i: usize = 0;
    while i < a.len()
        invariant
            i <= a@.len() == b@.len(),
            forall|j: int| 0 <= j < i ==> a@[j] == b@[j],
        decreases a@.len() - i,
    {
        if a[i] != b[i] {
            return false;
        }
        i = i + 1;
    }
    assert(a@ =~= b@);
    true
}

/// The bytes of a slice, owned.
pub fn slice_to_vec(s: &[u8]) -> (r: Vec<u8>)
    ensures
        r@ == s@,
{
    let mut out: Vec<u8> = Vec::with_capacity(s.len());
    out.extend_from_slice(s);
    assert(out@ =~= s@);
    out
}

/// Puts paths in ascending order.
pub fn sort_paths(paths: Vec<FilePath>) -> (r: Vec<FilePath>)
    ensures
        path_views(r@) == sorted_paths(path_views(paths@)),
        sorts(path_views(r@), path_views(paths@)),
{
    let mut out: Vec<FilePath> = Vec::new();
    let ghost all = path_views(paths@);
    let mut i: usize = 0;
    assert(path_views(out@) =~= all.take(0));
    while i < paths.len()
        invariant
            i <= paths@.len(),
            all == path_views(paths@),
            paths_ascend(path_views(out@)),
            path_views(out@).to_multiset() == all.take(i as int).to_multiset(),
        decreases paths@.len() - i,
    {
        let p = paths[i].clone();
        let mut at: usize = out.len();
        let ghost sofar = path_views(out@);
        while at > 0 && p.is_before(&out[at - 1])
            invariant
                at <= out@.len(),
                sofar == path_views(out@),
                forall|j: int| at <= j < out@.len() ==> path_before(p@, #[trigger] sofar[j]),
            decreases at,
        {
            at = at - 1;
            assert(sofar[at as int] == out@[at as int]@);
        }
        let ghost placed = sofar.insert(at as int, p@);
        out.insert(at, p);
        proof {
            assert(path_views(out@) =~= placed);
            if at > 0 {
                assert(sofar[at - 1] == sofar[at - 1]);
            }
            assert forall|m: int, n: int| 0 <= m < n < placed.len() implies !#[trigger] path_before(
                placed[n],
                placed[m],
            ) by {
                if m < at && n < at {
                    assert(!path_before(sofar[n], sofar[m]));
                } else if m < at && n == at {
                    // The path found its place behind everything that is not after it.
                    if path_before(p@, sofar[m]) && m < at - 1 {
                        assert(!path_before(sofar[at - 1], sofar[m]));
                        lemma_not_after(sofar[at - 1], p@, sofar[m]);
                    }
                } else if m < at {
                    assert(!path_before(sofar[n - 1], sofar[m]));
                } else if m == at {
                    assert(path_before(p@, sofar[n - 1]));
                    text::lemma_precedes_asymmetric(byte_codes(p@), byte_codes(sofar[n - 1]));
                } else {
                    assert(!path_before(sofar[n - 1], sofar[m - 1]));
                }
            }
            assert(all.take(i + 1) =~= all.take(i as int).push(p@));
            all.take(i as int).to_multiset_ensures();
            vstd::seq_lib::to_multiset_insert(sofar, at as int, p@);
        }
        i = i + 1;
    }
    proof {
        assert(all.take(i as int) =~= all);
        lemma_sorted_paths(path_views(out@), all);
    }
    out
}

/// What is not before `b` is not before anything that `b` is not after.
proof fn lemma_not_after(b: Seq<u8>, p: Seq<u8>, a: Seq<u8>)
    requires
        !path_before(p, b),
        !path_before(b, a),
    ensures
        !path_before(p, a),
{
    let (cb, cp, ca) = (byte_codes(b), byte_codes(p), byte_codes(a));
    if path_before(p, a) {
        text::lemma_precedes_total(ca, cb);
        if ca == cb {
        } else {
            text::lemma_precedes_transitive(cp, ca, cb);
        }
    }
}

/// Paths are seen one by one.
pub proof fn lemma_paths_seen(paths: Seq<FilePath>, i: int)
    requires
        0 <= i < paths.len(),
    ensures
        path_views(paths).len() == paths.len(),
        path_views(paths)[i] == paths[i]@,
{
}

} // verus!
