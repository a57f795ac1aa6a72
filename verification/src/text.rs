//! Tensor names and block ids as sequences of characters: their order, the
//! decimal numbers inside them and their dotted segments.

use vstd::prelude::*;
use vstd::string::StringExecFns;

verus! {

/// The code points of a text, the numbers by which texts are ordered.
pub open spec fn char_codes(s: Seq<char>) -> Seq<int> {
    Seq::new(s.len(), |i: int| s[i] as u32 as int)
}

/// `a` and `b` agree below position `k`, and at `k` either `a` ends first or
/// `a` holds the smaller code.
pub open spec fn precedes_at(a: Seq<int>, b: Seq<int>, k: int) -> bool {
    &&& 0 <= k <= a.len()
    &&& k < b.len()
    &&& a.take(k) == b.take(k)
    &&& k < a.len() ==> a[k] < b[k]
}

/// Lexicographic order on sequences of codes.
pub open spec fn precedes(a: Seq<int>, b: Seq<int>) -> bool {
    exists|k: int| precedes_at(a, b, k)
}

/// Lexicographic order of texts by code point, which is also the order of
/// their UTF-8 bytes.
pub open spec fn text_before(a: Seq<char>, b: Seq<char>) -> bool {
    precedes(char_codes(a), char_codes(b))
}

pub proof fn lemma_precedes_irreflexive(a: Seq<int>)
    ensures
        !precedes(a, a),
{
}

pub proof fn lemma_precedes_transitive(a: Seq<int>, b: Seq<int>, c: Seq<int>)
    requires
        precedes(a, b),
        precedes(b, c),
    ensures
        precedes(a, c),
{
    let i = choose|i: int| precedes_at(a, b, i);
    let j = choose|j: int| precedes_at(b, c, j);
    let k = if i <= j { i } else { j };
    assert(a.take(k) =~= a.take(i).take(k));
    assert(b.take(i).take(k) =~= b.take(k));
    assert(b.take(j).take(k) =~= b.take(k));
    assert(c.take(j).take(k) =~= c.take(k));
    if k < a.len() {
        if i < j {
            assert(b[k] == b.take(j)[k] && c[k] == c.take(j)[k]);
        } else if j < i {
            assert(a[k] == a.take(i)[k] && b[k] == b.take(i)[k]);
        }
    } else if j < i {
        assert(a.take(i).len() == i);
    }
    assert(precedes_at(a, c, k));
}

pub proof fn lemma_precedes_asymmetric(a: Seq<int>, b: Seq<int>)
    requires
        precedes(a, b),
    ensures
        !precedes(b, a),
        a != b,
{
    if precedes(b, a) {
        lemma_precedes_transitive(a, b, a);
        lemma_precedes_irreflexive(a);
    }
}

/// Of two different sequences one precedes the other.
pub proof fn lemma_precedes_total(a: Seq<int>, b: Seq<int>)
    ensures
        a == b || precedes(a, b) || precedes(b, a),
{
    assert(a.take(0) =~= b.take(0));
    lemma_precedes_total_from(a, b, 0);
}

proof fn lemma_precedes_total_from(a: Seq<int>, b: Seq<int>, k: int)
    requires
        0 <= k <= a.len(),
        k <= b.len(),
        a.take(k) == b.take(k),
    ensures
        a == b || precedes(a, b) || precedes(b, a),
    decreases a.len() - k,
{
    if k == a.len() {
        if k == b.len() {
            assert(a =~= a.take(k) && b =~= b.take(k));
        } else {
            assert(precedes_at(a, b, k));
        }
    } else if k == b.len() || b[k] < a[k] {
        assert(precedes_at(b, a, k));
    } else if a[k] < b[k] {
        assert(precedes_at(a, b, k));
    } else {
        assert(a.take(k + 1) =~= a.take(k).push(a[k]));
        assert(b.take(k + 1) =~= b.take(k).push(b[k]));
        lemma_precedes_total_from(a, b, k + 1);
    }
}

/// A text stands before every longer text that begins with it.
pub proof fn lemma_prefix_stands_before(a: Seq<char>, b: Seq<char>)
    requires
        b.len() > 0,
    ensures
        text_before(a, a + b),
        !text_before(a + b, a),
{
    let x = char_codes(a);
    let y = char_codes(a + b);
    assert(x.take(a.len() as int) =~= y.take(a.len() as int));
    assert(precedes_at(x, y, a.len() as int));
    lemma_precedes_asymmetric(x, y);
}

/// Of two texts that differ first in one character, the one whose character has the
/// smaller code stands before the other, whatever follows.
pub proof fn lemma_first_difference_decides(
    lead: Seq<char>,
    x: char,
    y: char,
    a: Seq<char>,
    b: Seq<char>,
)
    requires
        (x as u32) < (y as u32),
    ensures
        text_before(lead.push(x) + a, lead.push(y) + b),
        !text_before(lead.push(y) + b, lead.push(x) + a),
{
    let n = lead.len() as int;
    let l = char_codes(lead.push(x) + a);
    let r = char_codes(lead.push(y) + b);
    assert((lead.push(x) + a)[n] == x && (lead.push(y) + b)[n] == y);
    assert(l[n] == x as u32 && r[n] == y as u32);
    assert(l.take(n) =~= r.take(n));
    assert(precedes_at(l, r, n));
    lemma_precedes_asymmetric(l, r);
}

/// The parts of `s` between the separators, empty ones included; at least one.
pub open spec fn split<T>(s: Seq<T>, sep: T) -> Seq<Seq<T>>
    decreases s.len(),
{
    if s.len() == 0 {
        seq![Seq::empty()]
    } else {
        let before = split(s.drop_last(), sep);
        if s.last() == sep {
            before.push(Seq::empty())
        } else {
            before.drop_last().push(before.last().push(s.last()))
        }
    }
}

proof fn lemma_code_injective(x: char, y: char)
    requires
        x as u32 == y as u32,
    ensures
        x == y,
{
}

pub proof fn lemma_char_codes_injective(a: Seq<char>, b: Seq<char>)
    requires
        char_codes(a) == char_codes(b),
    ensures
        a == b,
{
    assert(a.len() == char_codes(a).len() && b.len() == char_codes(b).len());
    assert forall|i: int| 0 <= i < a.len() implies a[i] == b[i] by {
        assert(char_codes(a)[i] == a[i] as u32 && char_codes(b)[i] == b[i] as u32);
        lemma_code_injective(a[i], b[i]);
    }
    assert(a =~= b);
}

/// Where one text stands relative to another.
#[derive(Clone, Copy, PartialEq, Eq, Structural, Debug)]
pub enum Placement {
    Before,
    Same,
    After,
}

/// Compares two texts by code point.
pub fn compare_text(a: &str, b: &str) -> (r: Placement)
    ensures
        r == Placement::Before <==> text_before(a@, b@),
        r == Placement::After <==> text_before(b@, a@),
        r == Placement::Same <==> a@ == b@,
{
    let mut left = a.chars();
    let mut right = b.chars();
    let ghost mut k: int = 0;
    let ghost ca = char_codes(a@);
    let ghost cb = char_codes(b@);
    loop
        invariant
            0 <= k <= a@.len(),
            k <= b@.len(),
            vstd::std_specs::iter::IteratorSpec::remaining(&left) == a@.skip(k),
            vstd::std_specs::iter::IteratorSpec::remaining(&right) == b@.skip(k),
            ca == char_codes(a@),
            cb == char_codes(b@),
            ca.take(k) == cb.take(k),
        decreases a@.len() - k,
    {
        let l = left.next();
        let r = right.next();
        match l {
            None => {
                assert(k == a@.len());
                match r {
                    None => {
                        proof {
                            assert(ca =~= ca.take(k));
                            assert(cb =~= cb.take(k));
                            lemma_char_codes_injective(a@, b@);
                            lemma_precedes_irreflexive(ca);
                        }
                        return Placement::Same;
                    },
                    Some(_) => {
                        proof {
                            assert(precedes_at(ca, cb, k));
                            lemma_precedes_asymmetric(ca, cb);
                        }
                        return Placement::Before;
                    },
                }
            },
            Some(x) => match r {
                None => {
                    proof {
                        assert(precedes_at(cb, ca, k));
                        lemma_precedes_asymmetric(cb, ca);
                    }
                    return Placement::After;
                },
                Some(y) => {
                    assert(x == a@[k] && y == b@[k]);
                    assert(ca[k] == x as u32 && cb[k] == y as u32);
                    if (x as u32) < (y as u32) {
                        proof {
                            assert(precedes_at(ca, cb, k));
                            lemma_precedes_asymmetric(ca, cb);
                        }
                        return Placement::Before;
                    }
                    if (y as u32) < (x as u32) {
                        proof {
                            assert(precedes_at(cb, ca, k));
                            lemma_precedes_asymmetric(cb, ca);
                        }
                        return Placement::After;
                    }
                    proof {
                        assert(ca.take(k + 1) =~= ca.take(k).push(ca[k]));
                        assert(cb.take(k + 1) =~= cb.take(k).push(cb[k]));
                        assert(a@.skip(k).drop_first() =~= a@.skip(k + 1));
                        assert(b@.skip(k).drop_first() =~= b@.skip(k + 1));
                        k = k + 1;
                    }
                },
            },
        }
    }
}

/// The characters of a text, in order.
pub fn to_chars(s: &str) -> (r: Vec<char>)
    ensures
        r@ == s@,
{
    let mut rest = s.chars();
    let mut out: Vec<char> = Vec::new();
    loop
        invariant
            out@.len() <= s@.len(),
            out@ == s@.take(out@.len() as int),
            vstd::std_specs::iter::IteratorSpec::remaining(&rest) == s@.skip(out@.len() as int),
        decreases s@.len() - out@.len(),
    {
        let ghost k = out@.len() as int;
        match rest.next() {
            None => {
                assert(s@.skip(k).len() == 0);
                assert(s@.take(k) =~= s@);
                return out;
            },
            Some(c) => {
                assert(c == s@[k]);
                assert(s@.skip(k).drop_first() =~= s@.skip(k + 1));
                assert(s@.take(k).push(c) =~= s@.take(k + 1));
                out.push(c);
            },
        }
    }
}

/// Whether two texts are equal.
pub fn same_text(a: &str, b: &str) -> (r: bool)
    ensures
        r == (a@ == b@),
{
    match compare_text(a, b) {
        Placement::Same => true,
        _ => false,
    }
}

/// An ASCII decimal digit.
pub open spec fn is_digit(c: char) -> bool {
    '0' <= c <= '9'
}

pub open spec fn digit_value(c: char) -> int {
    c as u32 - '0' as u32
}

pub open spec fn all_digits(s: Seq<char>) -> bool {
    forall|i: int| 0 <= i < s.len() ==> is_digit(#[trigger] s[i])
}

/// The number that a sequence of decimal digits denotes.
pub open spec fn digits_value(s: Seq<char>) -> int
    decreases s.len(),
{
    if s.len() == 0 {
        0
    } else {
        10 * digits_value(s.drop_last()) + digit_value(s.last())
    }
}

/// The digit for a number below ten.
pub open spec fn digit_char(d: int) -> char {
    seq!['0', '1', '2', '3', '4', '5', '6', '7', '8', '9'][d]
}

/// The decimal notation of a number, without leading zeros.
pub open spec fn decimal(n: int) -> Seq<char>
    decreases n,
{
    if n < 10 {
        seq![digit_char(n)]
    } else {
        decimal(n / 10).push(digit_char(n % 10))
    }
}

/// The decimal notation is made of digits and denotes the number it was made from.
pub proof fn lemma_decimal(n: int)
    requires
        0 <= n,
    ensures
        decimal(n).len() > 0,
        all_digits(decimal(n)),
        digits_value(decimal(n)) == n,
    decreases n,
{
    if n < 10 {
        assert(decimal(n).drop_last() =~= Seq::<char>::empty());
        assert(digits_value(decimal(n).drop_last()) == 0);
    } else {
        lemma_decimal(n / 10);
        assert(decimal(n).drop_last() =~= decimal(n / 10));
    }
}

/// Digits count by their place: those in front are worth ten times as much for every
/// digit behind them.
pub proof fn lemma_digits_by_place(a: Seq<char>, b: Seq<char>)
    ensures
        digits_value(a + b) == digits_value(a) * vstd::arithmetic::power::pow(10, b.len())
            + digits_value(b),
    decreases b.len(),
{
    vstd::arithmetic::power::lemma_pow0(10);
    if b.len() == 0 {
        assert(a + b =~= a);
    } else {
        let rest = b.drop_last();
        lemma_digits_by_place(a, rest);
        assert((a + b).drop_last() =~= a + rest);
        let v = digits_value(a);
        let p = vstd::arithmetic::power::pow(10, rest.len());
        assert(vstd::arithmetic::power::pow(10, b.len()) == 10 * p) by {
            reveal(vstd::arithmetic::power::pow);
        }
        assert(10 * (v * p) == v * (10 * p)) by (nonlinear_arith);
    }
}

/// A digit alone is worth as much as its code lies behind that of zero.
pub proof fn lemma_digit_value(c: char)
    requires
        '0' <= c <= '9',
    ensures
        digits_value(seq![c]) == c as u32 - 48,
        0 <= digits_value(seq![c]) <= 9,
{
    assert(seq![c].drop_last() =~= Seq::<char>::empty());
    assert(digits_value(Seq::<char>::empty()) == 0);
}

/// The decimal notation has only digits, denotes the number, and begins with zero
/// only where it is zero.
pub proof fn lemma_decimal_is_canonical(n: int)
    requires
        0 <= n,
    ensures
        decimal(n).len() > 0,
        forall|i: int| 0 <= i < decimal(n).len() ==> '0' <= #[trigger] decimal(n)[i] <= '9',
        digits_value(decimal(n)) == n,
        decimal(n)[0] == '0' ==> n == 0 && decimal(n).len() == 1,
    decreases n,
{
    lemma_decimal(n);
    assert forall|i: int| 0 <= i < decimal(n).len() implies '0' <= #[trigger] decimal(n)[i]
        <= '9' by {
        assert(is_digit(decimal(n)[i]));
    }
    if n >= 10 {
        lemma_decimal_is_canonical(n / 10);
        assert(decimal(n)[0] == decimal(n / 10)[0]);
    }
}

/// One digit as a text.
fn digit_text(d: u64) -> (r: &'static str)
    requires
        d < 10,
    ensures
        r@ == seq![digit_char(d as int)],
{
    proof {
        reveal_strlit("0");
        reveal_strlit("1");
        reveal_strlit("2");
        reveal_strlit("3");
        reveal_strlit("4");
        reveal_strlit("5");
        reveal_strlit("6");
        reveal_strlit("7");
        reveal_strlit("8");
        reveal_strlit("9");
    }
    match d {
        0 => "0",
        1 => "1",
        2 => "2",
        3 => "3",
        4 => "4",
        5 => "5",
        6 => "6",
        7 => "7",
        8 => "8",
        _ => "9",
    }
}

/// Writes a number in decimal.
pub fn decimal_text(n: u64) -> (r: String)
    ensures
        r@ == decimal(n as int),
    decreases n,
{
    if n < 10 {
        String::from_str(digit_text(n))
    } else {
        let mut r = decimal_text(n / 10);
        r.append(digit_text(n % 10));
        assert(r@ =~= decimal(n as int));
        r
    }
}

/// Reads the digits of `s` between `from` and `to`. There is no number where
/// the range is empty, holds anything but a digit, or denotes more than a
/// `u64` holds.
pub fn read_number(s: &Vec<char>, from: usize, to: usize) -> (r: Option<u64>)
    requires
        from <= to <= s@.len(),
    ensures
        r is Some <==> {
            &&& from < to
            &&& all_digits(s@.subrange(from as int, to as int))
            &&& digits_value(s@.subrange(from as int, to as int)) <= u64::MAX
        },
        r matches Some(n) ==> n == digits_value(s@.subrange(from as int, to as int)),
{
    if from == to {
        return None;
    }
    let ghost whole = s@.subrange(from as int, to as int);
    let mut value: u64 = 0;
    let mut i: usize = from;
    while i < to
        invariant
            from <= i <= to <= s@.len(),
            whole == s@.subrange(from as int, to as int),
            all_digits(whole.take(i - from)),
            value == digits_value(whole.take(i - from)),
        decreases to - i,
    {
        let c = s[i];
        let ghost k = i - from;
        assert(c == whole[k]);
        assert(whole.take(k + 1).drop_last() =~= whole.take(k));
        if c < '0' || c > '9' {
            assert(!is_digit(whole[k]));
            return None;
        }
        let d: u64 = (c as u32 - '0' as u32) as u64;
        assert(d == digit_value(whole.take(k + 1).last()));
        assert(digits_value(whole.take(k + 1)) == 10 * value + d);
        if value > u64::MAX / 10 || value * 10 > u64::MAX - d {
            proof {
                lemma_digits_value_prefix(whole, k + 1);
            }
            return None;
        }
        value = value * 10 + d;
        i = i + 1;
    }
    assert(whole.take(to - from) =~= whole);
    Some(value)
}

/// A number is at least the one its leading digits denote.
proof fn lemma_digits_value_prefix(s: Seq<char>, k: int)
    requires
        0 <= k <= s.len(),
    ensures
        all_digits(s) ==> digits_value(s.take(k)) <= digits_value(s),
        all_digits(s) ==> 0 <= digits_value(s),
    decreases s.len(),
{
    if s.len() == 0 {
        assert(s.take(k) =~= s);
    } else if all_digits(s) {
        if k == s.len() {
            assert(s.take(k) =~= s);
            lemma_digits_value_prefix(s.drop_last(), k - 1);
        } else {
            assert(s.drop_last().take(k) =~= s.take(k));
            lemma_digits_value_prefix(s.drop_last(), k);
        }
    }
}

} // verus!
