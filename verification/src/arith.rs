//! Rounding arithmetic, which the caller supplies.
//!
//! The kernels work on single-precision numbers as bit patterns and do by
//! themselves what needs no rounding. Where a sum, a product or a quotient has
//! to be rounded, they call an operation that the caller hands over, and their
//! contracts speak of whatever function that operation computes.
use vstd::prelude::*;

verus! {

/// An operation on two single-precision numbers.
#[derive(Debug, Clone, Copy, PartialEq, Eq, Structural)]
pub enum Op {
    /// The sum.
    Add,
    /// The product.
    Mul,
    /// The quotient of the first by the second.
    Div,
}

/// A function from an operation and two patterns to the pattern of the result.
pub type Rounding = spec_fn(Op, u32, u32) -> u32;

/// A function from a single-precision pattern to a half-precision pattern.
pub type Narrowing = spec_fn(u32) -> u16;

/// `op` can be called on all operands.
pub open spec fn callable<O: Fn(Op, u32, u32) -> u32>(op: &O) -> bool {
    forall|o: Op, a: u32, b: u32| #[trigger] op.requires((o, a, b))
}

/// `narrow` can be called on all numbers.
pub open spec fn narrow_callable<N: Fn(u32) -> u16>(narrow: &N) -> bool {
    forall|x: u32| #[trigger] narrow.requires((x,))
}

/// Every call of `op` returns what `f` gives.
pub open spec fn computes<O: Fn(Op, u32, u32) -> u32>(f: Rounding, op: &O) -> bool {
    forall|o: Op, a: u32, b: u32, r: u32| #[trigger]
        op.ensures((o, a, b), r) ==> r == f(o, a, b)
}

/// Every call of `op` returns what `f` gives, and every call of `narrow` what
/// `g` gives.
pub open spec fn both_compute<O: Fn(Op, u32, u32) -> u32, N: Fn(u32) -> u16>(
    f: Rounding,
    g: Narrowing,
    op: &O,
    narrow: &N,
) -> bool {
    &&& computes(f, op)
    &&& forall|x: u32, r: u16| #[trigger] narrow.ensures((x,), r) ==> r == g(x)
}

} // verus!
