//! Headers of SafeTensors files: the length prefix that frames them and the
//! tensors they declare. The JSON inside is parsed by the `safetensors` crate.

use vstd::prelude::*;

use crate::descriptor::Dtype;
use crate::name_map::NameMap;

verus! {

/// How many bytes of a file hold the length of its header.
pub const HEADER_LEN_PREFIX: u64 = 8;

/// The number whose little-endian digits to base 256 are `s`.
pub open spec fn little_endian(s: Seq<u8>) -> nat
    decreases s.len(),
{
    if s.len() == 0 {
        0
    } else {
        s[0] as nat + 256 * little_endian(s.skip(1))
    }
}

/// The header length that a file declares.
pub open spec fn declared_len(bytes: Seq<u8>) -> nat {
    little_endian(bytes.take(8))
}

/// The bytes of the header, where the file holds as many as it declares.
pub open spec fn header_bytes(bytes: Seq<u8>) -> Option<Seq<u8>> {
    if bytes.len() >= 8 && declared_len(bytes) <= bytes.len() - 8 {
        Some(bytes.subrange(8, 8 + declared_len(bytes) as int))
    } else {
        None
    }
}

/// Reads the header length that a file declares.
pub fn read_declared_len(bytes: &[u8]) -> (r: u64)
    requires
        bytes@.len() >= 8,
    ensures
        r == declared_len(bytes@),
{
    let ghost head = bytes@.take(8);
    let mut value: u64 = 0;
    let mut i: usize = 8;
    assert(head.skip(8) =~= Seq::<u8>::empty());
    while i > 0
        invariant
            i <= 8 <= bytes@.len(),
            head == bytes@.take(8),
            value == little_endian(head.skip(i as int)),
            value < bound((8 - i) as nat),
        decreases i,
    {
        let ghost tail = head.skip(i as int);
        let b: u8 = bytes[i - 1];
        proof {
            assert(head.skip(i - 1)[0] == b);
            assert(head.skip(i - 1).skip(1) =~= tail);
            lemma_bound((8 - i) as nat);
            assert(bound((9 - i) as nat) == 256 * bound((8 - i) as nat));
        }
        value = value * 256 + b as u64;
        i = i - 1;
    }
    assert(head.skip(0) =~= head);
    value
}

/// The first number that does not fit in `n` bytes.
spec fn bound(n: nat) -> nat
    decreases n,
{
    if n == 0 {
        1
    } else {
        256 * bound((n - 1) as nat)
    }
}

proof fn lemma_bound(n: nat)
    requires
        n < 8,
    ensures
        256 * bound(n) <= u64::MAX + 1,
{
    reveal_with_fuel(bound, 8);
}

/// What a header says of one tensor. The offsets are relative to the data
/// section, which follows the header.
#[derive(Debug)]
pub struct TensorInfo {
    pub dtype: Dtype,
    pub shape: Vec<usize>,
    pub data_offsets: (usize, usize),
}

/// What a [`TensorInfo`] says.
#[verifier::ext_equal]
pub struct InfoView {
    pub dtype: Dtype,
    pub shape: Seq<usize>,
    pub data_offsets: (usize, usize),
}

impl View for TensorInfo {
    type V = InfoView;

    open spec fn view(&self) -> InfoView {
        InfoView { dtype: self.dtype, shape: self.shape@, data_offsets: self.data_offsets }
    }
}

/// The tensors that a header declares, by name.
pub type Header = NameMap<TensorInfo>;

/// What a header says of each name.
pub open spec fn header_view(header: Header) -> Map<Seq<char>, InfoView> {
    header@.map_values(|info: TensorInfo| info@)
}

/// How many elements a tensor of this shape has.
pub open spec fn element_count(shape: Seq<usize>) -> nat
    decreases shape.len(),
{
    if shape.len() == 0 {
        1
    } else {
        element_count(shape.drop_last()) * shape.last() as nat
    }
}

/// The byte range of a tensor lies in a data section of `data_len` bytes and is
/// as long as its elements are together.
pub open spec fn fits(info: InfoView, data_len: int) -> bool {
    &&& info.data_offsets.0 <= info.data_offsets.1 <= data_len
    &&& 8 * (info.data_offsets.1 - info.data_offsets.0) == element_count(info.shape)
        * info.dtype.spec_bitsize()
}

/// The byte ranges of two tensors have no byte in common.
pub open spec fn ranges_apart(a: (usize, usize), b: (usize, usize)) -> bool {
    a.1 <= b.0 || b.1 <= a.0
}

/// No two tensors have a byte of the data section in common.
pub open spec fn apart(tensors: Map<Seq<char>, InfoView>) -> bool {
    forall|a: Seq<char>, b: Seq<char>|
        #![trigger tensors.contains_key(a), tensors.contains_key(b)]
        tensors.contains_key(a) && tensors.contains_key(b) && a != b ==> ranges_apart(
            tensors[a].data_offsets,
            tensors[b].data_offsets,
        )
}

/// `safetensors::tensor::Metadata`, a parsed and validated header.
#[verifier::external_type_specification]
#[verifier::external_body]
pub struct ExMetadata(safetensors::tensor::Metadata);

/// The tensors that a `Metadata` holds, by name: the name of the element type,
/// the shape, and the start and end of the byte range.
pub uninterp spec fn metadata_contents(m: safetensors::tensor::Metadata) -> Map<
    Seq<char>,
    (Seq<char>, Seq<usize>, usize, usize),
>;

/// What `SafeTensors::read_metadata` makes of a file: the length of the header
/// and the tensors in it, or nothing where the header is refused.
pub uninterp spec fn parsed_header(bytes: Seq<u8>) -> Option<
    (nat, Map<Seq<char>, (Seq<char>, Seq<usize>, usize, usize)>),
>;

/// The tensors in the `Metadata` that `serde_json::from_slice` makes of the JSON
/// of a header, or nothing where it makes none.
pub uninterp spec fn metadata_in(header: Seq<u8>) -> Option<
    Map<Seq<char>, (Seq<char>, Seq<usize>, usize, usize)>,
>;

/// What the type of each tensor is, in place of its name.
pub open spec fn named_info(raw: (Seq<char>, Seq<usize>, usize, usize), info: InfoView) -> bool {
    raw == (info.dtype.spec_name(), info.shape, info.data_offsets.0, info.data_offsets.1)
}

/// No tensor ends behind `limit`.
pub open spec fn end_within(
    tensors: Map<Seq<char>, (Seq<char>, Seq<usize>, usize, usize)>,
    limit: int,
) -> bool {
    forall|name: Seq<char>| #[trigger] tensors.contains_key(name) ==> tensors[name].3 <= limit
}

/// No two tensors of a parsed header have a byte of the data section in common.
pub open spec fn raw_apart(
    tensors: Map<Seq<char>, (Seq<char>, Seq<usize>, usize, usize)>,
) -> bool {
    forall|a: Seq<char>, b: Seq<char>|
        #![trigger tensors.contains_key(a), tensors.contains_key(b)]
        tensors.contains_key(a) && tensors.contains_key(b) && a != b ==> ranges_apart(
            (tensors[a].2, tensors[a].3),
            (tensors[b].2, tensors[b].3),
        )
}

/// Where the header declares tensors, the sum of prefix, header and data up to
/// the end of any of them can be computed.
pub open spec fn size_computable(bytes: Seq<u8>) -> bool {
    match header_bytes(bytes) {
        Some(h) => match metadata_in(h) {
            Some(tensors) => end_within(tensors, usize::MAX - 8 - h.len()),
            None => true,
        },
        None => true,
    }
}

/// `serde_json::from_slice` into a `safetensors::tensor::Metadata`. It gives the
/// same tensors for the same bytes, or none at all.
#[verifier::external_body]
fn parse_metadata(header: &[u8]) -> (r: Option<safetensors::tensor::Metadata>)
    ensures
        match r {
            Some(m) => metadata_in(header@) == Some(metadata_contents(m)),
            None => metadata_in(header@) is None,
        },
{
    serde_json::from_slice(header).ok()
}

/// `SafeTensors::read_metadata`: parses and validates the header of a file. It
/// succeeds or not, and gives the same tensors, for the same bytes. Where it
/// succeeds, the header has the declared length and lies in the file; every
/// element type is one of those that [`Dtype`] names; every byte range lies within
/// what follows the header, and has the size that type and shape ask for; and the
/// ranges follow one another, so that no two of them overlap.
///
/// It adds up the length prefix, the header and the declared data without
/// regard to overflow, which the precondition rules out: the data ends where
/// the last tensor does. Why a header was refused is not stated.
#[verifier::external_body]
fn read_metadata(bytes: &[u8]) -> (r: Result<
    (usize, safetensors::tensor::Metadata),
    safetensors::SafeTensorError,
>)
    requires
        size_computable(bytes@),
    ensures
        match r {
            Ok((n, m)) => {
                &&& parsed_header(bytes@) == Some((n as nat, metadata_contents(m)))
                &&& header_bytes(bytes@) is Some
                &&& n == declared_len(bytes@)
                &&& forall|name: Seq<char>| #[trigger]
                    metadata_contents(m).contains_key(name) ==> exists|info: InfoView|
                        #[trigger] named_info(metadata_contents(m)[name], info) && fits(
                            info,
                            bytes@.len() - 8 - n,
                        )
                &&& raw_apart(metadata_contents(m))
            },
            Err(_) => parsed_header(bytes@) is None,
        },
{
    safetensors::SafeTensors::read_metadata(bytes)
}

/// One entry of a `Metadata`.
struct RawEntry {
    name: String,
    dtype: String,
    shape: Vec<usize>,
    start: usize,
    end: usize,
}

/// `Metadata::tensors`: the entries of a parsed header, each name once, in an
/// order that is not stated. Element types come by the names that the crate
/// displays them with.
#[verifier::external_body]
fn metadata_entries(m: &safetensors::tensor::Metadata) -> (r: Vec<RawEntry>)
    ensures
        forall|i: int, j: int|
            0 <= i < j < r@.len() ==> (#[trigger] r@[i]).name@ != (#[trigger] r@[j]).name@,
        forall|i: int|
            0 <= i < r@.len() ==> metadata_contents(*m).contains_key((#[trigger] r@[i]).name@)
                && metadata_contents(*m)[r@[i].name@] == (
                r@[i].dtype@,
                r@[i].shape@,
                r@[i].start,
                r@[i].end,
            ),
        forall|name: Seq<char>| #[trigger]
            metadata_contents(*m).contains_key(name) ==> exists|i: int|
                0 <= i < r@.len() && (#[trigger] r@[i]).name@ == name,
{
    m.tensors()
        .into_iter()
        .map(|(name, info)| RawEntry {
            name,
            dtype: info.dtype.to_string(),
            shape: info.shape.clone(),
            start: info.data_offsets.0,
            end: info.data_offsets.1,
        })
        .collect()
}

/// `SafeTensorError::MetadataIncompleteBuffer`, the error for a header whose
/// tensors do not cover the file exactly.
#[verifier::external_body]
fn incomplete_buffer() -> safetensors::SafeTensorError {
    safetensors::SafeTensorError::MetadataIncompleteBuffer
}

/// Whether no tensor ends behind `limit`.
fn ends_within(metadata: &safetensors::tensor::Metadata, limit: usize) -> (r: bool)
    ensures
        r == end_within(metadata_contents(*metadata), limit as int),
{
    let entries = metadata_entries(metadata);
    let ghost raw = metadata_contents(*metadata);
    let mut i: usize = 0;
    while i < entries.len()
        invariant
            i <= entries@.len(),
            raw == metadata_contents(*metadata),
            forall|a: int|
                0 <= a < entries@.len() ==> raw.contains_key((#[trigger] entries@[a]).name@)
                    && raw[entries@[a].name@].3 == entries@[a].end,
            forall|a: int| 0 <= a < i ==> (#[trigger] entries@[a]).end <= limit,
        decreases entries@.len() - i,
    {
        if entries[i].end > limit {
            assert(raw.contains_key(entries@[i as int].name@));
            return false;
        }
        i = i + 1;
    }
    true
}

/// The tensors of a parsed header, with their element types.
pub open spec fn typed_contents(
    raw: Map<Seq<char>, (Seq<char>, Seq<usize>, usize, usize)>,
    header: Map<Seq<char>, InfoView>,
) -> bool {
    &&& raw.dom() == header.dom()
    &&& forall|name: Seq<char>| #[trigger]
        raw.contains_key(name) ==> named_info(raw[name], header[name])
}

/// What one entry of a parsed header says, its element type in place of the
/// type's name.
pub open spec fn typed_info(raw: (Seq<char>, Seq<usize>, usize, usize)) -> InfoView {
    choose|info: InfoView| named_info(raw, info)
}

/// Names of element types stand for one type each, so that the types of a parsed
/// header are determined.
pub proof fn lemma_typed_contents(
    raw: Map<Seq<char>, (Seq<char>, Seq<usize>, usize, usize)>,
    header: Map<Seq<char>, InfoView>,
)
    requires
        typed_contents(raw, header),
    ensures
        header == raw.map_values(|r: (Seq<char>, Seq<usize>, usize, usize)| typed_info(r)),
{
    let typed = raw.map_values(|r: (Seq<char>, Seq<usize>, usize, usize)| typed_info(r));
    assert forall|name: Seq<char>| #[trigger] header.contains_key(name) implies header[name]
        == typed[name] by {
        assert(raw.dom().contains(name));
        assert(raw.contains_key(name));
        assert(named_info(raw[name], header[name]));
        let other = typed_info(raw[name]);
        assert(named_info(raw[name], other));
        header[name].dtype.lemma_names_distinct(other.dtype);
    }
    assert(header =~= typed);
}

/// The tensors that the header of a file declares, where it has a valid one.
pub open spec fn tensors_of(bytes: Seq<u8>) -> Map<Seq<char>, InfoView> {
    (readable_header(bytes)->0).1.map_values(
        |r: (Seq<char>, Seq<usize>, usize, usize)| typed_info(r),
    )
}

/// A file's header as this crate reads it: what `safetensors` makes of it,
/// where the sizes that it declares can be added up.
pub open spec fn readable_header(bytes: Seq<u8>) -> Option<
    (nat, Map<Seq<char>, (Seq<char>, Seq<usize>, usize, usize)>),
> {
    if size_computable(bytes) {
        parsed_header(bytes)
    } else {
        None
    }
}

/// Parses and validates the header of a file. Gives its length and the tensors
/// it declares.
pub fn read_header(bytes: &[u8]) -> (r: Result<(usize, Header), safetensors::SafeTensorError>)
    ensures
        match r {
            Ok((n, header)) => {
                &&& readable_header(bytes@) matches Some((len, raw))
                &&& n == len
                &&& typed_contents(raw, header_view(header))
                &&& header_bytes(bytes@) is Some
                &&& n == declared_len(bytes@)
                &&& forall|name: Seq<char>| #[trigger]
                    header_view(header).contains_key(name) ==> fits(
                        header_view(header)[name],
                        bytes@.len() - 8 - n,
                    )
                &&& apart(header_view(header))
            },
            Err(_) => readable_header(bytes@) is None,
        },
{
    if bytes.len() >= 8 {
        let declared = read_declared_len(bytes);
        let room: usize = bytes.len() - 8;
        if declared <= room as u64 {
            let n: usize = declared as usize;
            let section = vstd::slice::slice_subrange(bytes, 8, 8 + n);
            match parse_metadata(section) {
                Some(metadata) => {
                    if !ends_within(&metadata, usize::MAX - 8 - n) {
                        assert(header_bytes(bytes@) == Some(section@));
                        return Err(incomplete_buffer());
                    }
                },
                None => {},
            }
        }
    }
    match read_metadata(bytes) {
        Err(e) => Err(e),
        Ok((n, metadata)) => {
            let entries = metadata_entries(&metadata);
            let ghost raw = metadata_contents(metadata);
            let ghost data_len = bytes@.len() - 8 - n;
            let mut header: Header = NameMap::new();
            let mut i: usize = 0;
            while i < entries.len()
                invariant
                    i <= entries@.len(),
                    raw == metadata_contents(metadata),
                    raw_apart(raw),
                    forall|a: int, b: int|
                        0 <= a < b < entries@.len() ==> (#[trigger] entries@[a]).name@ != (
                        #[trigger] entries@[b]).name@,
                    forall|a: int|
                        0 <= a < entries@.len() ==> raw.contains_key((#[trigger] entries@[a]).name@)
                            && raw[entries@[a].name@] == (
                            entries@[a].dtype@,
                            entries@[a].shape@,
                            entries@[a].start,
                            entries@[a].end,
                        ),
                    forall|name: Seq<char>| #[trigger]
                        raw.contains_key(name) ==> exists|info: InfoView|
                            #[trigger] named_info(raw[name], info) && fits(info, data_len),
                    forall|name: Seq<char>| #[trigger]
                        header@.contains_key(name) <==> exists|a: int|
                            0 <= a < i && (#[trigger] entries@[a]).name@ == name,
                    forall|name: Seq<char>| #[trigger]
                        header@.contains_key(name) ==> named_info(raw[name], header@[name]@)
                            && fits(header@[name]@, data_len),
                decreases entries@.len() - i,
            {
                let entry = &entries[i];
                assert(raw.contains_key(entry.name@));
                let ghost info = choose|info: InfoView|
                    #[trigger] named_info(raw[entry.name@], info) && fits(info, data_len);
                assert(entry.dtype@ == info.dtype.spec_name());
                match Dtype::from_name(entry.dtype.as_str()) {
                    Some(dtype) => {
                        proof {
                            dtype.lemma_names_distinct(info.dtype);
                        }
                        let shape = entry.shape.clone();
                        assert(shape@ =~= entry.shape@);
                        let found = TensorInfo {
                            dtype,
                            shape,
                            data_offsets: (entry.start, entry.end),
                        };
                        assert(found@ =~= info);
                        let ghost before = header@;
                        header.insert(entry.name.as_str(), found);
                        assert forall|name: Seq<char>| #[trigger]
                            header@.contains_key(name) <==> exists|a: int|
                                0 <= a < i + 1 && (#[trigger] entries@[a]).name@ == name by {
                            assert(header@.contains_key(name) <==> before.contains_key(name)
                                || name == entries@[i as int].name@);
                        }
                    },
                    None => {
                        assert(false);
                    },
                }
                i = i + 1;
            }
            proof {
                assert forall|name: Seq<char>| raw.dom().contains(name) <==> header_view(
                    header,
                ).dom().contains(name) by {
                    assert(raw.contains_key(name) ==> header@.contains_key(name));
                }
                assert(raw.dom() =~= header_view(header).dom());
                assert forall|a: Seq<char>, b: Seq<char>|
                    #![trigger header_view(header).contains_key(a), header_view(
                        header,
                    ).contains_key(b)]
                    header_view(header).contains_key(a) && header_view(header).contains_key(b) && a
                        != b implies ranges_apart(
                    header_view(header)[a].data_offsets,
                    header_view(header)[b].data_offsets,
                ) by {
                    assert(raw.contains_key(a) && raw.contains_key(b));
                    assert(header@.contains_key(a) && header@.contains_key(b));
                    assert(named_info(raw[a], header@[a]@) && named_info(raw[b], header@[b]@));
                }
            }
            Ok((n, header))
        },
    }
}

/// The tensors of a header are seen under their names, each field under its own.
pub proof fn lemma_header_seen(header: Header, name: Seq<char>)
    ensures
        header_view(header).contains_key(name) <==> header@.contains_key(name),
        header@.contains_key(name) ==> {
            let info = header_view(header)[name];
            &&& info.dtype == header@[name].dtype
            &&& info.shape == header@[name].shape@
            &&& info.data_offsets == header@[name].data_offsets
        },
{
}

/// A header is accepted exactly where the parser accepts it. Left out are files of
/// which the parser could not tell the size that they should have, because the range
/// of a tensor ends too far out for a length in memory: those are refused.
pub proof fn lemma_header_read_as_parsed(bytes: Seq<u8>)
    ensures
        ({
            let end = 8 + declared_len(bytes) as int;
            let section = bytes.subrange(8, end);
            let too_far = bytes.len() >= 8 && end <= bytes.len() && (metadata_in(
                section,
            ) matches Some(tensors) && exists|name: Seq<char>| #[trigger]
                tensors.contains_key(name) && tensors[name].3 + end > usize::MAX);
            readable_header(bytes) == if too_far {
                None
            } else {
                parsed_header(bytes)
            }
        }),
{
    let end = 8 + declared_len(bytes) as int;
    if bytes.len() >= 8 && end <= bytes.len() {
        let section = bytes.subrange(8, end);
        assert(section.len() == declared_len(bytes));
        assert(header_bytes(bytes) == Some(section));
    }
}

/// The tensors of a file are those that its header declares: under the same names,
/// with the element type of the name that stands there, the shape and the range.
pub proof fn lemma_tensors_as_declared(
    bytes: Seq<u8>,
    raw: Map<Seq<char>, (Seq<char>, Seq<usize>, usize, usize)>,
    name: Seq<char>,
    dtype: Dtype,
)
    requires
        readable_header(bytes) matches Some((_, tensors)) && tensors == raw,
        raw.contains_key(name),
        raw[name].0 == dtype.spec_name(),
    ensures
        tensors_of(bytes).dom() == raw.dom(),
        tensors_of(bytes)[name].dtype == dtype,
        tensors_of(bytes)[name].shape == raw[name].1,
        tensors_of(bytes)[name].data_offsets == (raw[name].2, raw[name].3),
{
    let info = InfoView { dtype, shape: raw[name].1, data_offsets: (raw[name].2, raw[name].3) };
    assert(named_info(raw[name], info));
    let found = typed_info(raw[name]);
    assert(named_info(raw[name], found));
    found.dtype.lemma_names_distinct(dtype);
    assert(tensors_of(bytes).dom() =~= raw.dom());
}

} // verus!
