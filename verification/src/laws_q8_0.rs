//! What the operations on activation blocks do, said of their inputs and results.
use crate::accuracy;
use crate::arith::{Narrowing, Op, Rounding};
use crate::binary16;
use crate::binary32;
use crate::ieee;
use crate::laws;
use crate::narrowing;
use crate::q8_0;
use crate::q8_0::BlockQ8_0;
use vstd::arithmetic::power2::*;
use vstd::prelude::*;
use vstd::std_specs::cmp::PartialEqSpec;

verus! {

/// Quantising converts every whole group of 32 that a block is there for, each as
/// it would be converted alone, and no other block.
pub proof fn law_packed(
    f: Rounding,
    g: Narrowing,
    xs: Seq<u32>,
    before: Seq<BlockQ8_0>,
    after: Seq<BlockQ8_0>,
)
    requires
        q8_0::is_packed(f, g, xs, before, after),
    ensures
        after.len() == before.len(),
        forall|i: int|
            0 <= i < before.len() && 32 * i + 32 <= xs.len() ==> (#[trigger] after[i])@
                == q8_0::quantized(f, g, xs.subrange(32 * i, 32 * i + 32)),
        forall|i: int|
            0 <= i < before.len() && 32 * i + 32 > xs.len() ==> #[trigger] after[i] == before[i],
{
}

/// How 32 activations are quantised, for whatever the operations compute: `most` is
/// the largest magnitude, that of an activation unless it is zero, and the stored
/// scale is that over 127. Each integer is the nearest one, of at most 127, to the
/// product of the activation and the inverse of the scale.
pub proof fn law_quantized(f: Rounding, g: Narrowing, xs: Seq<u32>, block: BlockQ8_0) -> (most: u32)
    requires
        xs.len() == 32,
        block@ == q8_0::quantized(f, g, xs),
    ensures
        0 <= most <= 0x7f80_0000,
        forall|t: int|
            0 <= t < 32 ==> (#[trigger] xs[t]) as int % 0x8000_0000 <= most || xs[t] as int
                % 0x8000_0000 > 0x7f80_0000,
        most != 0 ==> exists|t: int|
            0 <= t < 32 && (#[trigger] xs[t]) as int % 0x8000_0000 == most,
        block.d == g(f(Op::Div, most, 0x42fe_0000)),
        forall|t: int|
            0 <= t < 32 ==> {
                let s = f(Op::Div, most, 0x42fe_0000);
                let inv = if 0 < s <= 0x7f80_0000 {
                    f(Op::Div, 0x3f80_0000, s)
                } else {
                    0
                };
                let y = f(Op::Mul, xs[t], inv);
                let q = #[trigger] block.qs@[t] as int;
                let n = ieee::size(q);
                &&& n <= 127
                &&& y as int % 0x8000_0000 > 0x7f80_0000 ==> q == 0
                &&& y == 0x7f80_0000 ==> q == 127
                &&& y == 0xff80_0000 ==> q == -127
                &&& y as int % 0x8000_0000 < 0x7f80_0000 ==> {
                    &&& y >= 0x8000_0000 ==> q <= 0
                    &&& y < 0x8000_0000 ==> q >= 0
                    &&& (2 * n - 1) * pow2(149) <= 2 * binary32::units(y)
                    &&& n < 127 ==> 2 * binary32::units(y) < (2 * n + 1) * pow2(149)
                }
            },
{
    let most = binary32::largest(xs);
    let e = laws::law_largest_magnitude(xs);
    let s = f(Op::Div, most, 0x42fe_0000);
    assert(s == q8_0::step(f, xs));
    let inv = q8_0::inverse(f, s);
    assert(block@.d == g(s));
    assert forall|t: int| 0 <= t < 32 implies {
        let y = f(Op::Mul, xs[t], inv);
        let q = #[trigger] block.qs@[t] as int;
        let n = ieee::size(q);
        &&& n <= 127
        &&& y as int % 0x8000_0000 > 0x7f80_0000 ==> q == 0
        &&& y == 0x7f80_0000 ==> q == 127
        &&& y == 0xff80_0000 ==> q == -127
        &&& y as int % 0x8000_0000 < 0x7f80_0000 ==> {
            &&& y >= 0x8000_0000 ==> q <= 0
            &&& y < 0x8000_0000 ==> q >= 0
            &&& (2 * n - 1) * pow2(149) <= 2 * binary32::units(y)
            &&& n < 127 ==> 2 * binary32::units(y) < (2 * n + 1) * pow2(149)
        }
    } by {
        let y = f(Op::Mul, xs[t], inv);
        assert(block@.q[t] == block.qs@[t]);
        assert(block@.q[t] == binary32::rounded(y, 127));
        binary32::law_rounded(y, 127);
        laws::law_rounded_nearest(y, 127);
    }
    most
}

/// Each activation is within about half a step of the stored scale times its
/// integer: where no activation of the group exceeds `top`, of at most eight
/// million, it is off by at most 9/16 of a step, which is `top` over 126, but no
/// less than the smallest normal half-precision number.
pub proof fn law_activation_near(
    f: Rounding,
    g: Narrowing,
    xs: Seq<u32>,
    block: BlockQ8_0,
    top: u32,
    t: int,
)
    requires
        ieee::is_arithmetic(f),
        narrowing::is_narrowing(g),
        xs.len() == 32,
        block@ == q8_0::quantized(f, g, xs),
        top <= 0x4af4_2400,
        forall|i: int| 0 <= i < 32 ==> (#[trigger] xs[i]) as int % 0x8000_0000 <= top,
        0 <= t < 32,
    ensures
        block.d as int % 0x8000 < 0x7c00,
        ({
            let off = ieee::size(
                binary32::value(xs[t]) - (binary16::value(block.d) * block.qs@[t]) * pow2(125),
            );
            let units = binary32::units(top);
            off * 2016 <= 9 * if units >= 126 * (1024 * pow2(125)) {
                units
            } else {
                126 * (1024 * pow2(125)) as int
            }
        }),
{
    accuracy::lemma_step_bounded(f, xs, top);
    assert(binary32::magnitude(xs[t]) <= top);
    q8_0::law_activation_near(f, g, xs, t);
    assert(block@.q[t] == block.qs@[t]);
    binary16::lemma_widened_value(block.d);
    let (v, q, p) = (binary16::value(block.d), block.qs@[t] as int, pow2(125) as int);
    assert((v * q) * p == (v * p) * q) by (nonlinear_arith);
}

/// Blocks are equal where their scales are the same number and all their integers
/// are equal.
pub proof fn law_equal(a: BlockQ8_0, b: BlockQ8_0)
    ensures
        BlockQ8_0::obeys_eq_spec(),
        a.eq_spec(&b) <==> {
            &&& a.d as int % 0x8000 <= 0x7c00
            &&& b.d as int % 0x8000 <= 0x7c00
            &&& a.d == b.d || (a.d as int % 0x8000 == 0 && b.d as int % 0x8000 == 0)
            &&& forall|t: int| 0 <= t < 32 ==> #[trigger] a.qs@[t] == b.qs@[t]
        },
{
    if forall|t: int| 0 <= t < 32 ==> #[trigger] a.qs@[t] == b.qs@[t] {
        assert(a.qs@ =~= b.qs@);
    }
}

} // verus!
