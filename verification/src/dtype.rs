//! The registered block types and their GGUF type numbers.
use vstd::prelude::*;

verus! {

/// A packed weight type.
#[allow(non_camel_case_types)]
#[derive(Debug, Clone, Copy, PartialEq, Eq, Structural)]
pub enum GgmlDType {
    /// One sign bit per weight.
    Q1_0_g128,
    /// One 2-bit code per weight.
    Q2_0,
}

/// The GGUF type number of `t`.
pub open spec fn type_number(t: GgmlDType) -> u32 {
    match t {
        GgmlDType::Q1_0_g128 => 41,
        GgmlDType::Q2_0 => 42,
    }
}

/// The bits that a weight of type `t` takes.
pub open spec fn bits_per_weight(t: GgmlDType) -> int {
    match t {
        GgmlDType::Q1_0_g128 => 1,
        GgmlDType::Q2_0 => 2,
    }
}

impl GgmlDType {
    /// The GGUF type number.
    pub fn to_u32(self) -> (r: u32)
        ensures
            r == type_number(self),
    {
        match self {
            GgmlDType::Q1_0_g128 => 41,
            GgmlDType::Q2_0 => 42,
        }
    }

    /// The packed weight type with GGUF type number `u`, if there is one.
    pub fn from_u32(u: u32) -> (r: Option<Self>)
        ensures
            forall|t: GgmlDType| r == Some(t) <==> #[trigger] type_number(t) == u,
            r is None <==> u != 41 && u != 42,
    {
        match u {
            41 => Some(GgmlDType::Q1_0_g128),
            42 => Some(GgmlDType::Q2_0),
            _ => None,
        }
    }

    /// Weights per block.
    pub fn block_size(self) -> (r: usize)
        ensures
            r == 128,
    {
        match self {
            GgmlDType::Q1_0_g128 => crate::k_quants_q1_0_g128::QK1_0_G128,
            GgmlDType::Q2_0 => crate::k_quants_q2_0::QK2_0,
        }
    }

    /// Bytes per block: two for the scale, the rest for the packed weights.
    pub fn type_size(self) -> (r: usize)
        ensures
            r == 2 + 128 * bits_per_weight(self) / 8,
    {
        match self {
            GgmlDType::Q1_0_g128 => 18,
            GgmlDType::Q2_0 => 34,
        }
    }
}

/// Distinct types have distinct numbers, so that a number read back names the
/// type that was written.
pub proof fn law_type_number_injective(a: GgmlDType, b: GgmlDType)
    ensures
        type_number(a) == type_number(b) <==> a == b,
{
}

} // verus!
