//! What a DLPack export of a tensor says: element type, shape and device.

use vstd::prelude::*;

use crate::descriptor::Dtype;

verus! {

/// The device type of CUDA memory.
pub const DL_CUDA: i32 = 2;

/// The element types that can be exported.
#[derive(Clone, Copy, PartialEq, Eq, Structural, Debug)]
pub enum DlDtype {
    F32,
    F16,
    Bf16,
    F64,
    I64,
    I32,
    I16,
    I8,
    U8,
    Bool,
}

/// The exported type of a tensor, if it can be exported.
pub open spec fn exported(dtype: Dtype) -> Option<DlDtype> {
    match dtype {
        Dtype::F32 => Some(DlDtype::F32),
        Dtype::F16 => Some(DlDtype::F16),
        Dtype::BF16 => Some(DlDtype::Bf16),
        Dtype::F64 => Some(DlDtype::F64),
        Dtype::I64 => Some(DlDtype::I64),
        Dtype::I32 => Some(DlDtype::I32),
        Dtype::I16 => Some(DlDtype::I16),
        Dtype::I8 => Some(DlDtype::I8),
        Dtype::U8 => Some(DlDtype::U8),
        Dtype::BOOL => Some(DlDtype::Bool),
        _ => None,
    }
}

impl DlDtype {
    /// The exported type of a tensor, if it can be exported.
    pub fn of(dtype: Dtype) -> (r: Option<DlDtype>)
        ensures
            r == exported(dtype),
    {
        match dtype {
            Dtype::F32 => Some(DlDtype::F32),
            Dtype::F16 => Some(DlDtype::F16),
            Dtype::BF16 => Some(DlDtype::Bf16),
            Dtype::F64 => Some(DlDtype::F64),
            Dtype::I64 => Some(DlDtype::I64),
            Dtype::I32 => Some(DlDtype::I32),
            Dtype::I16 => Some(DlDtype::I16),
            Dtype::I8 => Some(DlDtype::I8),
            Dtype::U8 => Some(DlDtype::U8),
            Dtype::BOOL => Some(DlDtype::Bool),
            _ => None,
        }
    }

    /// The type code of DLPack and the size of an element in bits.
    pub open spec fn spec_code_bits(self) -> (u8, u8) {
        match self {
            DlDtype::F32 => (2, 32),
            DlDtype::F16 => (2, 16),
            DlDtype::Bf16 => (4, 16),
            DlDtype::F64 => (2, 64),
            DlDtype::I64 => (0, 64),
            DlDtype::I32 => (0, 32),
            DlDtype::I16 => (0, 16),
            DlDtype::I8 => (0, 8),
            DlDtype::U8 => (1, 8),
            DlDtype::Bool => (6, 8),
        }
    }

    /// The type code of DLPack and the size of an element in bits.
    pub fn code_bits(self) -> (r: (u8, u8))
        ensures
            r == self.spec_code_bits(),
    {
        match self {
            DlDtype::F32 => (2, 32),
            DlDtype::F16 => (2, 16),
            DlDtype::Bf16 => (4, 16),
            DlDtype::F64 => (2, 64),
            DlDtype::I64 => (0, 64),
            DlDtype::I32 => (0, 32),
            DlDtype::I16 => (0, 16),
            DlDtype::I8 => (0, 8),
            DlDtype::U8 => (1, 8),
            DlDtype::Bool => (6, 8),
        }
    }
}

/// What is exported goes by the name of the element type. Floats of at least sixteen
/// bits, signed integers, booleans, brain floats and bytes can be exported; the code
/// tells the five kinds apart, and the number of bits stays.
pub proof fn lemma_export_goes_by_name(dtype: Dtype)
    ensures
        ({
            let name = dtype.spec_name();
            let bits = dtype.spec_bitsize();
            &&& exported(dtype) is Some <==> {
                ||| name[0] == 'F' && bits >= 16
                ||| name[0] == 'I'
                ||| name[0] == 'B'
                ||| name[0] == 'U' && bits == 8
            }
            &&& exported(dtype) matches Some(d) ==> {
                &&& d.spec_code_bits().1 == bits
                &&& d.spec_code_bits().0 == if name[0] == 'I' {
                    0
                } else if name[0] == 'U' {
                    1
                } else if name[0] == 'F' {
                    2
                } else if name[1] == 'F' {
                    4
                } else {
                    6int
                }
            }
        }),
{
    reveal_strlit("BOOL");
    reveal_strlit("F4");
    reveal_strlit("F6_E2M3");
    reveal_strlit("F6_E3M2");
    reveal_strlit("U8");
    reveal_strlit("I8");
    reveal_strlit("F8_E5M2");
    reveal_strlit("F8_E4M3");
    reveal_strlit("F8_E8M0");
    reveal_strlit("F8_E4M3FNUZ");
    reveal_strlit("F8_E5M2FNUZ");
    reveal_strlit("I16");
    reveal_strlit("U16");
    reveal_strlit("F16");
    reveal_strlit("BF16");
    reveal_strlit("I32");
    reveal_strlit("U32");
    reveal_strlit("F32");
    reveal_strlit("C64");
    reveal_strlit("F64");
    reveal_strlit("I64");
    reveal_strlit("U64");
}

/// An exported element takes as many bits as the tensor's elements do.
pub proof fn lemma_export_keeps_size(dtype: Dtype)
    ensures
        exported(dtype) matches Some(d) ==> d.spec_code_bits().1 == dtype.spec_bitsize(),
{
}

/// The header of an export: a compact tensor in CUDA memory.
#[derive(Debug)]
pub struct DlExport {
    pub device_ptr: u64,
    pub device_type: i32,
    pub device_id: i32,
    pub ndim: i32,
    pub code: u8,
    pub bits: u8,
    pub lanes: u16,
    pub shape: Vec<i64>,
    pub byte_offset: u64,
}

/// Describes a tensor in CUDA memory for export.
pub fn cuda_export(device_ptr: u64, device_id: i32, shape: &[usize], dtype: DlDtype) -> (r:
    DlExport)
    ensures
        r.device_ptr == device_ptr,
        r.device_type == DL_CUDA,
        r.device_id == device_id,
        r.ndim == #[verifier::truncate] (shape@.len() as i32),
        (r.code, r.bits) == dtype.spec_code_bits(),
        r.lanes == 1,
        r.shape@.len() == shape@.len(),
        forall|i: int|
            0 <= i < shape@.len() ==> #[trigger] r.shape@[i] == #[verifier::truncate] (
            shape@[i] as i64),
        r.byte_offset == 0,
{
    let mut dims: Vec<i64> = Vec::new();
    let mut i: usize = 0;
    while i < shape.len()
        invariant
            i <= shape@.len(),
            dims@.len() == i,
            forall|j: int|
                0 <= j < i ==> #[trigger] dims@[j] == #[verifier::truncate] (shape@[j] as i64),
        decreases shape@.len() - i,
    {
        let d = shape[i];
        dims.push(
            #[verifier::truncate]
            (d as i64),
        );
        i = i + 1;
    }
    let (code, bits) = dtype.code_bits();
    let n: usize = shape.len();
    DlExport {
        device_ptr,
        device_type: DL_CUDA,
        device_id,
        ndim: #[verifier::truncate]
        (n as i32),
        code,
        bits,
        lanes: 1,
        shape: dims,
        byte_offset: 0,
    }
}

} // verus!
