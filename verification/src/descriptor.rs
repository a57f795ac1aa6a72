//! Descriptions of tensors: where their bytes lie and how to read them.

use vstd::prelude::*;

use crate::text::same_text;

verus! {

/// Which shard a tensor's bytes live in, as a position among a model's shards.
pub type ShardId = usize;

/// The element types that a SafeTensors header can name.
#[allow(non_camel_case_types)]
#[derive(Clone, Copy, PartialEq, Eq, Structural, Debug)]
pub enum Dtype {
    BOOL,
    F4,
    F6_E2M3,
    F6_E3M2,
    U8,
    I8,
    F8_E5M2,
    F8_E4M3,
    F8_E8M0,
    F8_E4M3FNUZ,
    F8_E5M2FNUZ,
    I16,
    U16,
    F16,
    BF16,
    I32,
    U32,
    F32,
    C64,
    F64,
    I64,
    U64,
}

impl Dtype {
    /// The name by which a header writes the type.
    pub open spec fn spec_name(self) -> Seq<char> {
        match self {
            Dtype::BOOL => "BOOL"@,
            Dtype::F4 => "F4"@,
            Dtype::F6_E2M3 => "F6_E2M3"@,
            Dtype::F6_E3M2 => "F6_E3M2"@,
            Dtype::U8 => "U8"@,
            Dtype::I8 => "I8"@,
            Dtype::F8_E5M2 => "F8_E5M2"@,
            Dtype::F8_E4M3 => "F8_E4M3"@,
            Dtype::F8_E8M0 => "F8_E8M0"@,
            Dtype::F8_E4M3FNUZ => "F8_E4M3FNUZ"@,
            Dtype::F8_E5M2FNUZ => "F8_E5M2FNUZ"@,
            Dtype::I16 => "I16"@,
            Dtype::U16 => "U16"@,
            Dtype::F16 => "F16"@,
            Dtype::BF16 => "BF16"@,
            Dtype::I32 => "I32"@,
            Dtype::U32 => "U32"@,
            Dtype::F32 => "F32"@,
            Dtype::C64 => "C64"@,
            Dtype::F64 => "F64"@,
            Dtype::I64 => "I64"@,
            Dtype::U64 => "U64"@,
        }
    }

    /// How many bits one element takes.
    pub open spec fn spec_bitsize(self) -> nat {
        match self {
            Dtype::F4 => 4,
            Dtype::F6_E2M3 | Dtype::F6_E3M2 => 6,
            Dtype::BOOL
            | Dtype::U8
            | Dtype::I8
            | Dtype::F8_E5M2
            | Dtype::F8_E4M3
            | Dtype::F8_E8M0
            | Dtype::F8_E4M3FNUZ
            | Dtype::F8_E5M2FNUZ => 8,
            Dtype::I16 | Dtype::U16 | Dtype::F16 | Dtype::BF16 => 16,
            Dtype::I32 | Dtype::U32 | Dtype::F32 => 32,
            Dtype::C64 | Dtype::F64 | Dtype::I64 | Dtype::U64 => 64,
        }
    }

    /// The name by which a header writes the type.
    pub fn name(self) -> (r: &'static str)
        ensures
            r@ == self.spec_name(),
    {
        match self {
            Dtype::BOOL => "BOOL",
            Dtype::F4 => "F4",
            Dtype::F6_E2M3 => "F6_E2M3",
            Dtype::F6_E3M2 => "F6_E3M2",
            Dtype::U8 => "U8",
            Dtype::I8 => "I8",
            Dtype::F8_E5M2 => "F8_E5M2",
            Dtype::F8_E4M3 => "F8_E4M3",
            Dtype::F8_E8M0 => "F8_E8M0",
            Dtype::F8_E4M3FNUZ => "F8_E4M3FNUZ",
            Dtype::F8_E5M2FNUZ => "F8_E5M2FNUZ",
            Dtype::I16 => "I16",
            Dtype::U16 => "U16",
            Dtype::F16 => "F16",
            Dtype::BF16 => "BF16",
            Dtype::I32 => "I32",
            Dtype::U32 => "U32",
            Dtype::F32 => "F32",
            Dtype::C64 => "C64",
            Dtype::F64 => "F64",
            Dtype::I64 => "I64",
            Dtype::U64 => "U64",
        }
    }

    /// How many bits one element takes.
    pub fn bitsize(self) -> (r: usize)
        ensures
            r == self.spec_bitsize(),
    {
        match self {
            Dtype::F4 => 4,
            Dtype::F6_E2M3 | Dtype::F6_E3M2 => 6,
            Dtype::BOOL
            | Dtype::U8
            | Dtype::I8
            | Dtype::F8_E5M2
            | Dtype::F8_E4M3
            | Dtype::F8_E8M0
            | Dtype::F8_E4M3FNUZ
            | Dtype::F8_E5M2FNUZ => 8,
            Dtype::I16 | Dtype::U16 | Dtype::F16 | Dtype::BF16 => 16,
            Dtype::I32 | Dtype::U32 | Dtype::F32 => 32,
            Dtype::C64 | Dtype::F64 | Dtype::I64 | Dtype::U64 => 64,
        }
    }

    /// The name of an element type says how many bits an element has: behind one
    /// letter, or two for the brain float, stands their number, and behind it nothing
    /// or an underscore. A boolean has eight.
    pub proof fn lemma_name_says_bits(self)
        ensures
            ({
                let name = self.spec_name();
                let bits = self.spec_bitsize();
                let from: int = if name[0] == 'B' {
                    2
                } else {
                    1
                };
                if name[1] == 'O' {
                    bits == 8
                } else if bits < 10 {
                    &&& name[from] as u32 == 48 + bits
                    &&& name.len() > from + 1 ==> name[from + 1] == '_'
                } else {
                    &&& name[from] as u32 == 48 + bits / 10
                    &&& name[from + 1] as u32 == 48 + bits % 10
                    &&& name.len() == from + 2
                }
            }),
    {
        reveal_strlit("BOOL");
        reveal_strlit("F4");
        reveal_strlit("F6_E2M3");
        reveal_strlit("F6_E3M2");
        reveal_strlit("U8");
        reveal_strlit("I8");
        reveal_strlit("F8_E5M2");
        reveal_strlit("F8_E4M3");
        reveal_strlit("F8_E8M0");
        reveal_strlit("F8_E4M3FNUZ");
        reveal_strlit("F8_E5M2FNUZ");
        reveal_strlit("I16");
        reveal_strlit("U16");
        reveal_strlit("F16");
        reveal_strlit("BF16");
        reveal_strlit("I32");
        reveal_strlit("U32");
        reveal_strlit("F32");
        reveal_strlit("C64");
        reveal_strlit("F64");
        reveal_strlit("I64");
        reveal_strlit("U64");
    }

    /// No two types share a name.
    pub proof fn lemma_names_distinct(self, other: Dtype)
        requires
            self.spec_name() == other.spec_name(),
        ensures
            self == other,
    {
        reveal_strlit("BOOL");
        reveal_strlit("F4");
        reveal_strlit("F6_E2M3");
        reveal_strlit("F6_E3M2");
        reveal_strlit("U8");
        reveal_strlit("I8");
        reveal_strlit("F8_E5M2");
        reveal_strlit("F8_E4M3");
        reveal_strlit("F8_E8M0");
        reveal_strlit("F8_E4M3FNUZ");
        reveal_strlit("F8_E5M2FNUZ");
        reveal_strlit("I16");
        reveal_strlit("U16");
        reveal_strlit("F16");
        reveal_strlit("BF16");
        reveal_strlit("I32");
        reveal_strlit("U32");
        reveal_strlit("F32");
        reveal_strlit("C64");
        reveal_strlit("F64");
        reveal_strlit("I64");
        reveal_strlit("U64");
        let a = self.spec_name();
        let b = other.spec_name();
        assert(a.len() == b.len());
        assert(forall|i: int| 0 <= i < a.len() ==> a[i] == b[i]);
        assert(a[0] == b[0] && a[1] == b[1]);
        if a.len() > 2 {
            assert(a[2] == b[2]);
        }
        if a.len() > 3 {
            assert(a[3] == b[3]);
        }
        if a.len() > 6 {
            assert(a[4] == b[4] && a[6] == b[6]);
        }
    }

    /// Every type, in the order of the names' declaration.
    fn all() -> (r: Vec<Dtype>)
        ensures
            forall|d: Dtype| #[trigger] r@.contains(d),
    {
        let r = vec![
            Dtype::BOOL,
            Dtype::F4,
            Dtype::F6_E2M3,
            Dtype::F6_E3M2,
            Dtype::U8,
            Dtype::I8,
            Dtype::F8_E5M2,
            Dtype::F8_E4M3,
            Dtype::F8_E8M0,
            Dtype::F8_E4M3FNUZ,
            Dtype::F8_E5M2FNUZ,
            Dtype::I16,
            Dtype::U16,
            Dtype::F16,
            Dtype::BF16,
            Dtype::I32,
            Dtype::U32,
            Dtype::F32,
            Dtype::C64,
            Dtype::F64,
            Dtype::I64,
            Dtype::U64,
        ];
        assert forall|d: Dtype| #[trigger] r@.contains(d) by {
            let i: int = match d {
                Dtype::BOOL => 0,
                Dtype::F4 => 1,
                Dtype::F6_E2M3 => 2,
                Dtype::F6_E3M2 => 3,
                Dtype::U8 => 4,
                Dtype::I8 => 5,
                Dtype::F8_E5M2 => 6,
                Dtype::F8_E4M3 => 7,
                Dtype::F8_E8M0 => 8,
                Dtype::F8_E4M3FNUZ => 9,
                Dtype::F8_E5M2FNUZ => 10,
                Dtype::I16 => 11,
                Dtype::U16 => 12,
                Dtype::F16 => 13,
                Dtype::BF16 => 14,
                Dtype::I32 => 15,
                Dtype::U32 => 16,
                Dtype::F32 => 17,
                Dtype::C64 => 18,
                Dtype::F64 => 19,
                Dtype::I64 => 20,
                Dtype::U64 => 21,
            };
            assert(r@[i] == d);
        }
        r
    }

    /// The type that a name stands for.
    pub fn from_name(name: &str) -> (r: Option<Dtype>)
        ensures
            match r {
                Some(d) => name@ == d.spec_name(),
                None => forall|d: Dtype| name@ != #[trigger] d.spec_name(),
            },
    {
        let all = Dtype::all();
        let mut i: usize = 0;
        while i < all.len()
            invariant
                i <= all@.len(),
                forall|d: Dtype| #[trigger] all@.contains(d),
                forall|j: int| 0 <= j < i ==> name@ != (#[trigger] all@[j]).spec_name(),
            decreases all@.len() - i,
        {
            if same_text(name, all[i].name()) {
                return Some(all[i]);
            }
            i = i + 1;
        }
        assert forall|d: Dtype| name@ != #[trigger] d.spec_name() by {
            assert(all@.contains(d));
        }
        None
    }
}

/// A lightweight description of one tensor: all that is needed to locate and
/// interpret its bytes, and none of the bytes themselves.
#[derive(PartialEq, Eq, Debug)]
pub struct TensorDescriptor {
    /// The tensor's name exactly as the checkpoint has it.
    pub name: String,
    pub dtype: Dtype,
    pub shape: Vec<usize>,
    pub shard_id: ShardId,
    /// Offset from the start of the shard file, length prefix and header
    /// included: a file offset, not one into the data section.
    pub file_offset: u64,
    pub byte_len: u64,
}

/// What a [`TensorDescriptor`] says.
#[verifier::ext_equal]
pub struct DescriptorView {
    pub name: Seq<char>,
    pub dtype: Dtype,
    pub shape: Seq<usize>,
    pub shard_id: ShardId,
    pub file_offset: u64,
    pub byte_len: u64,
}

impl View for TensorDescriptor {
    type V = DescriptorView;

    open spec fn view(&self) -> DescriptorView {
        DescriptorView {
            name: self.name@,
            dtype: self.dtype,
            shape: self.shape@,
            shard_id: self.shard_id,
            file_offset: self.file_offset,
            byte_len: self.byte_len,
        }
    }
}

/// What the descriptors of a list say.
pub open spec fn descriptor_views(ds: Seq<TensorDescriptor>) -> Seq<DescriptorView> {
    ds.map_values(|d: TensorDescriptor| d@)
}

impl Clone for TensorDescriptor {
    fn clone(&self) -> (r: Self)
        ensures
            r@ == self@,
    {
        let shape = self.shape.clone();
        assert(shape@ =~= self.shape@);
        TensorDescriptor {
            name: self.name.clone(),
            dtype: self.dtype,
            shape,
            shard_id: self.shard_id,
            file_offset: self.file_offset,
            byte_len: self.byte_len,
        }
    }
}

impl TensorDescriptor {
    /// Where the tensor's bytes lie in its shard file.
    pub fn file_range(&self) -> (r: std::ops::Range<u64>)
        requires
            self.file_offset + self.byte_len <= u64::MAX,
        ensures
            r.start == self.file_offset,
            r.end == self.file_offset + self.byte_len,
    {
        self.file_offset..self.file_offset + self.byte_len
    }
}

/// Descriptors are seen one by one, each field under its own name.
pub proof fn lemma_descriptors_seen(ds: Seq<TensorDescriptor>, i: int)
    requires
        0 <= i < ds.len(),
    ensures
        descriptor_views(ds).len() == ds.len(),
        descriptor_views(ds)[i].name == ds[i].name@,
        descriptor_views(ds)[i].dtype == ds[i].dtype,
        descriptor_views(ds)[i].shape == ds[i].shape@,
        descriptor_views(ds)[i].shard_id == ds[i].shard_id,
        descriptor_views(ds)[i].file_offset == ds[i].file_offset,
        descriptor_views(ds)[i].byte_len == ds[i].byte_len,
{
}

} // verus!
