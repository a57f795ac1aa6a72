//! BLAKE3 checksums of tensors.

use vstd::prelude::*;
use vstd::string::StringExecFns;

verus! {

/// The name of the checksum algorithm.
pub const ALGORITHM: &'static str = "blake3";

/// The checksum of one tensor's bytes, whatever their type.
#[derive(Debug)]
pub struct TensorChecksum {
    pub name: String,
    pub algorithm: &'static str,
    pub hex: String,
    pub bytes: u64,
}

/// What a [`TensorChecksum`] says.
#[verifier::ext_equal]
pub struct ChecksumView {
    pub name: Seq<char>,
    pub algorithm: Seq<char>,
    pub hex: Seq<char>,
    pub bytes: u64,
}

impl View for TensorChecksum {
    type V = ChecksumView;

    open spec fn view(&self) -> ChecksumView {
        ChecksumView {
            name: self.name@,
            algorithm: self.algorithm@,
            hex: self.hex@,
            bytes: self.bytes,
        }
    }
}

impl Clone for TensorChecksum {
    fn clone(&self) -> (r: Self)
        ensures
            r@ == self@,
    {
        TensorChecksum {
            name: self.name.clone(),
            algorithm: self.algorithm,
            hex: self.hex.clone(),
            bytes: self.bytes,
        }
    }
}

/// What the checksums of a list say.
pub open spec fn checksum_views(cs: Seq<TensorChecksum>) -> Seq<ChecksumView> {
    cs.map_values(|c: TensorChecksum| c@)
}

/// The BLAKE3 digest of some bytes.
pub uninterp spec fn blake3_digest(bytes: Seq<u8>) -> Seq<u8>;

/// `blake3::hash`, and `Hash::as_bytes` of what it gives: the digest of the
/// bytes, which depends on nothing else.
#[verifier::external_body]
fn digest(bytes: &[u8]) -> (r: [u8; 32])
    ensures
        r@ == blake3_digest(bytes@),
{
    *blake3::hash(bytes).as_bytes()
}

/// The hexadecimal digit for a number below sixteen.
pub open spec fn hex_digit(d: int) -> char {
    seq!['0', '1', '2', '3', '4', '5', '6', '7', '8', '9', 'a', 'b', 'c', 'd', 'e', 'f'][d]
}

/// Two lower-case hexadecimal digits for each byte.
pub open spec fn hex(bytes: Seq<u8>) -> Seq<char>
    decreases bytes.len(),
{
    if bytes.len() == 0 {
        Seq::empty()
    } else {
        hex(bytes.drop_last()).push(hex_digit(bytes.last() as int / 16)).push(
            hex_digit(bytes.last() as int % 16),
        )
    }
}

fn hex_digit_text(d: u8) -> (r: &'static str)
    requires
        d < 16,
    ensures
        r@ == seq![hex_digit(d as int)],
{
    proof {
        reveal_strlit("0");
        reveal_strlit("1");
        reveal_strlit("2");
        reveal_strlit("3");
        reveal_strlit("4");
        reveal_strlit("5");
        reveal_strlit("6");
        reveal_strlit("7");
        reveal_strlit("8");
        reveal_strlit("9");
        reveal_strlit("a");
        reveal_strlit("b");
        reveal_strlit("c");
        reveal_strlit("d");
        reveal_strlit("e");
        reveal_strlit("f");
    }
    match d {
        0 => "0",
        1 => "1",
        2 => "2",
        3 => "3",
        4 => "4",
        5 => "5",
        6 => "6",
        7 => "7",
        8 => "8",
        9 => "9",
        10 => "a",
        11 => "b",
        12 => "c",
        13 => "d",
        14 => "e",
        _ => "f",
    }
}

/// Writes bytes in lower-case hexadecimal.
pub fn hex_text(bytes: &[u8]) -> (r: String)
    ensures
        r@ == hex(bytes@),
{
    let mut out = String::new();
    let mut i: usize = 0;
    assert(bytes@.take(0) =~= Seq::<u8>::empty());
    assert(out@ =~= hex(bytes@.take(0)));
    while i < bytes.len()
        invariant
            i <= bytes@.len(),
            out@ == hex(bytes@.take(i as int)),
        decreases bytes@.len() - i,
    {
        let b: u8 = bytes[i];
        assert(bytes@.take(i + 1).drop_last() =~= bytes@.take(i as int));
        let ghost before = out@;
        out.append(hex_digit_text(b / 16));
        out.append(hex_digit_text(b % 16));
        assert(out@ =~= before.push(hex_digit(b as int / 16)).push(hex_digit(b as int % 16)));
        i = i + 1;
    }
    assert(bytes@.take(i as int) =~= bytes@);
    out
}

/// The checksum of a tensor with these bytes.
pub open spec fn checksum_of(name: Seq<char>, bytes: Seq<u8>) -> ChecksumView {
    ChecksumView {
        name,
        algorithm: ALGORITHM@,
        hex: hex(blake3_digest(bytes)),
        bytes: bytes.len() as u64,
    }
}

impl TensorChecksum {
    /// The checksum of a tensor of `bytes` bytes that have this digest.
    pub fn from_digest(name: &str, digest: &[u8], bytes: u64) -> (r: TensorChecksum)
        ensures
            r@ == (ChecksumView {
                name: name@,
                algorithm: ALGORITHM@,
                hex: hex(digest@),
                bytes,
            }),
    {
        TensorChecksum {
            name: name.to_owned(),
            algorithm: ALGORITHM,
            hex: hex_text(digest),
            bytes,
        }
    }

    /// Computes the checksum of a tensor's bytes. This reads all of them.
    pub fn of(name: &str, bytes: &[u8]) -> (r: TensorChecksum)
        ensures
            r@ == checksum_of(name@, bytes@),
    {
        let d = digest(bytes);
        TensorChecksum::from_digest(name, d.as_slice(), bytes.len() as u64)
    }
}

/// Checksums are seen one by one, each field under its own name.
pub proof fn lemma_checksums_seen(cs: Seq<TensorChecksum>, i: int)
    requires
        0 <= i < cs.len(),
    ensures
        checksum_views(cs).len() == cs.len(),
        checksum_views(cs)[i].name == cs[i].name@,
        checksum_views(cs)[i].algorithm == cs[i].algorithm@,
        checksum_views(cs)[i].hex == cs[i].hex@,
        checksum_views(cs)[i].bytes == cs[i].bytes,
{
}

} // verus!
