//! Activation blocks: 32 signed bytes and a half-precision scale.
use crate::arith;
use crate::arith::{Narrowing, Op, Rounding};
use crate::binary16;
use crate::binary32;
use crate::ieee;
use crate::ieee::size;
use crate::narrowing;
use crate::quants;
use crate::quants::Quants;
use vstd::arithmetic::power2::*;
use vstd::prelude::*;
use vstd::std_specs::cmp::PartialEqSpecImpl;

verus! {

/// Activations per block.
pub const QK8_0: usize = 32;

/// The largest magnitude that an activation is rounded to.
pub const LIMIT: u8 = 127;

/// The pattern of `127.0`.
pub const STEPS: u32 = 0x42fe_0000;

/// An activation block: one half-precision scale, as its bit pattern, and 32
/// signed bytes.
#[derive(Debug, Clone, Copy)]
pub struct BlockQ8_0 {
    pub d: u16,
    pub qs: [i8; 32],
}

impl PartialEqSpecImpl for BlockQ8_0 {
    open spec fn obeys_eq_spec() -> bool {
        true
    }

    /// Scales are equal as numbers, so that a block whose scale is a NaN equals
    /// none, not even itself.
    open spec fn eq_spec(&self, other: &Self) -> bool {
        binary16::same_number(self.d, other.d) && self.qs@ == other.qs@
    }
}

impl PartialEq for BlockQ8_0 {
    fn eq(&self, other: &Self) -> (r: bool) {
        for t in 0..QK8_0
            invariant
                forall|u: int| 0 <= u < t ==> #[trigger] self.qs@[u] == other.qs@[u],
        {
            if self.qs[t] != other.qs[t] {
                return false;
            }
        }
        assert(self.qs@ =~= other.qs@);
        binary16::equal(self.d, other.d)
    }
}

impl View for BlockQ8_0 {
    type V = Quants;

    open spec fn view(&self) -> Quants {
        Quants { d: self.d, q: Seq::new(32, |j: int| self.qs@[j] as int) }
    }
}

/// The scale of the activations `xs`: their largest magnitude over 127.
pub open spec fn step(f: Rounding, xs: Seq<u32>) -> u32 {
    f(Op::Div, binary32::largest(xs), STEPS)
}

/// The inverse of a scale, or zero where the scale is not positive.
pub open spec fn inverse(f: Rounding, d: u32) -> u32 {
    if 0 < d <= binary32::INFINITY {
        f(Op::Div, binary32::ONE, d)
    } else {
        0
    }
}

/// What 32 activations are quantised to: each times the inverse of the scale,
/// rounded to the nearest integer and clamped.
pub open spec fn quantized(f: Rounding, g: Narrowing, xs: Seq<u32>) -> Quants {
    let d = step(f, xs);
    Quants {
        d: g(d),
        q: Seq::new(
            32,
            |t: int| binary32::rounded(f(Op::Mul, xs[t], inverse(f, d)), LIMIT as int),
        ),
    }
}

/// Block `j` of the activations `xs`.
pub open spec fn group(xs: Seq<u32>, j: int) -> Seq<u32> {
    xs.subrange(32 * j, 32 * j + 32)
}

/// What the first `32 * n` activations of `xs` are quantised to.
pub open spec fn blocks(f: Rounding, g: Narrowing, xs: Seq<u32>, n: nat) -> Seq<Quants> {
    Seq::new(n, |j: int| quantized(f, g, group(xs, j)))
}

/// Maps 32 activations, as single-precision patterns, to one `Q8_0` block.
pub fn quantize_block_q8_0<O: Fn(Op, u32, u32) -> u32, N: Fn(u32) -> u16>(
    acts: &[u32],
    op: &O,
    narrow: &N,
) -> (r: BlockQ8_0)
    requires
        acts@.len() == 32,
        arith::callable(op),
        arith::narrow_callable(narrow),
    ensures
        forall|t: int| 0 <= t < 32 ==> -LIMIT <= #[trigger] r.qs@[t] <= LIMIT,
        forall|f: Rounding, g: Narrowing| #[trigger]
            arith::both_compute(f, g, op, narrow) ==> r@ == quantized(f, g, acts@),
{
    let amax: u32 = binary32::max_magnitude(acts);
    let d: u32 = op(Op::Div, amax, STEPS);
    let inv: u32 = if 0 < d && d <= binary32::INFINITY {
        op(Op::Div, binary32::ONE, d)
    } else {
        0
    };
    let mut qs: [i8; 32] = [0i8; 32];
    for t in 0..QK8_0
        invariant
            acts@.len() == 32,
            arith::callable(op),
            forall|u: int| 0 <= u < 32 ==> -LIMIT <= #[trigger] qs@[u] <= LIMIT,
            forall|f: Rounding, u: int|
                #![trigger arith::computes(f, op), qs@[u]]
                arith::computes(f, op) && 0 <= u < t ==> qs@[u] == binary32::rounded(
                    f(Op::Mul, acts@[u], inv),
                    LIMIT as int,
                ),
    {
        let x: u32 = op(Op::Mul, acts[t], inv);
        qs[t] = binary32::round_clamped(x, LIMIT) as i8;
    }
    let r = BlockQ8_0 { d: narrow(d), qs };
    proof {
        assert forall|f: Rounding, g: Narrowing| #[trigger]
            arith::both_compute(f, g, op, narrow) implies r@ == quantized(f, g, acts@) by {
            assert(arith::computes(f, op));
            assert(inv == inverse(f, d));
            assert(r@.q =~= quantized(f, g, acts@).q);
        }
    }
    r
}

/// `after` is what quantising the numbers `xs` leaves of the blocks `before`: each
/// block that a whole group of 32 is there for is quantised from it, and the rest
/// is as it was.
pub open spec fn is_packed(
    f: Rounding,
    g: Narrowing,
    xs: Seq<u32>,
    before: Seq<BlockQ8_0>,
    after: Seq<BlockQ8_0>,
) -> bool {
    &&& after.len() == before.len()
    &&& forall|i: int|
        0 <= i < before.len() && 32 * i + 32 <= xs.len() ==> (#[trigger] after[i])@ == quantized(
            f,
            g,
            xs.subrange(32 * i, 32 * i + 32),
        )
    &&& forall|i: int|
        0 <= i < before.len() && 32 * i + 32 > xs.len() ==> #[trigger] after[i] == before[i]
}

impl BlockQ8_0 {
    /// The block of all zeros.
    pub fn zeros() -> (r: Self)
        ensures
            r.d == 0,
            r.qs@ == Seq::new(32, |j: int| 0i8),
    {
        BlockQ8_0 { d: 0, qs: [0i8; 32] }
    }

    /// Quantises as many whole blocks of `xs`, which holds single-precision
    /// patterns, as `ys` has room for.
    pub fn from_float<O: Fn(Op, u32, u32) -> u32, N: Fn(u32) -> u16>(
        xs: &[u32],
        ys: &mut [Self],
        op: &O,
        narrow: &N,
    )
        requires
            arith::callable(op),
            arith::narrow_callable(narrow),
        ensures
            final(ys)@.len() == old(ys)@.len(),
            forall|f: Rounding, g: Narrowing, j: int|
                #![trigger arith::both_compute(f, g, op, narrow), final(ys)@[j]]
                arith::both_compute(f, g, op, narrow) && 0 <= j < quants::converted(
                    xs@.len(),
                    32,
                    old(ys)@.len(),
                ) ==> final(ys)@[j]@ == quantized(f, g, group(xs@, j)),
            forall|j: int|
                quants::converted(xs@.len(), 32, old(ys)@.len()) <= j < old(ys)@.len()
                    ==> #[trigger] final(ys)@[j] == old(ys)@[j],
            forall|f: Rounding, g: Narrowing| #[trigger]
                arith::both_compute(f, g, op, narrow) ==> is_packed(
                    f,
                    g,
                    xs@,
                    old(ys)@,
                    final(ys)@,
                ),
    {
        let whole: usize = xs.len() / QK8_0;
        let count: usize = if whole < ys.len() {
            whole
        } else {
            ys.len()
        };
        for i in 0..count
            invariant
                arith::callable(op),
                arith::narrow_callable(narrow),
                count == quants::converted(xs@.len(), 32, old(ys)@.len()),
                count * 32 <= xs.len(),
                count <= ys@.len(),
                ys@.len() == old(ys)@.len(),
                forall|f: Rounding, g: Narrowing, j: int|
                    #![trigger arith::both_compute(f, g, op, narrow), ys@[j]]
                    arith::both_compute(f, g, op, narrow) && 0 <= j < i ==> ys@[j]@ == quantized(
                        f,
                        g,
                        group(xs@, j),
                    ),
                forall|j: int| i <= j < ys@.len() ==> #[trigger] ys@[j] == old(ys)@[j],
        {
            let start: usize = QK8_0 * i;
            ys[i] = quantize_block_q8_0(&xs[start..start + QK8_0], op, narrow);
        }
    }
}

/// The pattern that scales are computed with stands for the integer 127.
pub proof fn law_steps()
    ensures
        binary32::is_integer(127, STEPS),
{
    binary32::lemma_sign_split(STEPS);
    assert(binary32::exponent(STEPS) == 133);
    assert(0x80_0000 + binary32::mantissa(STEPS) == 127 * 0x2_0000);
    lemma2_to64();
    lemma_pow2_adds(17, 132);
    let p = pow2(132) as int;
    assert((127 * 0x2_0000) * p == 127 * (0x2_0000 * p)) by (nonlinear_arith);
}

/// The step of a group as far as half precision resolves it: the scale, in units
/// of `2^-149`, but no less than the smallest normal half-precision number.
pub open spec fn reach(d: u32) -> int {
    if binary32::units(d) >= 1024 * pow2(125) {
        binary32::units(d)
    } else {
        1024 * pow2(125) as int
    }
}

/// The scale is the largest magnitude over 127, up to rounding.
pub proof fn law_step_near(f: Rounding, xs: Seq<u32>)
    requires
        ieee::is_arithmetic(f),
        binary32::largest(xs) < binary32::INFINITY,
    ensures
        step(f, xs) < binary32::INFINITY,
        ({
            let most = binary32::units(binary32::largest(xs));
            let off = size(127 * binary32::units(step(f, xs)) - most);
            off * 0x100_0000 <= most || off * 2 <= 127
        }),
{
    let most = binary32::largest(xs);
    let d = step(f, xs);
    let (a, p) = (binary32::units(most), pow2(149) as int);
    law_steps();
    lemma_pow2_pos(149);
    binary32::lemma_sign_split(most);
    binary32::lemma_sign_split(STEPS);
    binary32::lemma_sign_split(d);
    assert(ieee::is_quotient(most, STEPS, d));
    assert(binary32::units(STEPS) == 127 * p);
    ieee::lemma_scaled(d, a, 127, p);
    binary32::lemma_units_nonnegative(most);
    ieee::lemma_units_below(most);
    ieee::lemma_top();
    lemma_pow2_unfold(277);
    ieee::lemma_error(d, a, 127);
    assert(ieee::distance(d, a, 127) == size(127 * binary32::units(d) - a));
}

/// The inverse of a scale that half precision resolves is off by at most `2^-24`.
proof fn lemma_inverse_near(f: Rounding, d: u32)
    requires
        ieee::is_arithmetic(f),
        d < narrowing::LIMIT,
        binary32::units(d) >= pow2(124),
    ensures
        f(Op::Div, binary32::ONE, d) < binary32::INFINITY,
        size(
            binary32::units(f(Op::Div, binary32::ONE, d)) * binary32::units(d) - pow2(149) * pow2(
                149,
            ),
        ) * 0x100_0000 <= pow2(149) * pow2(149),
{
    let r = f(Op::Div, binary32::ONE, d);
    let (u, p) = (binary32::units(d), pow2(149) as int);
    lemma_pow2_pos(124);
    binary32::lemma_sign_split(d);
    binary32::lemma_sign_split(r);
    binary32::lemma_sign_split(binary32::ONE);
    if binary32::magnitude(d) == 0 {
        assert(u == 0);
    }
    ieee::lemma_patterns();
    narrowing::lemma_units_bound(d);
    assert(ieee::is_quotient(binary32::ONE, d, r));
    lemma_pow2_adds(149, 149);
    lemma_pow2_adds(124, 276);
    lemma_pow2_adds(166, 24);
    lemma_pow2_strictly_increases(298, 400);
    lemma_pow2_strictly_increases(190, 298);
    lemma2_to64();
    let (a, b) = (pow2(124) as int, pow2(276) as int);
    lemma_pow2_pos(276);
    assert(a * b <= u * b) by (nonlinear_arith)
        requires
            a <= u,
            b > 0,
    ;
    ieee::lemma_error(r, p * p, u);
}

/// Three roundings between a magnitude `x` of at most `a` and its integer `q`: the
/// scale `d` is near `a / 127`, `i` near its inverse and `y` near their product,
/// all of them in units of `1 / p`.
proof fn lemma_code_near(x: int, a: int, d: int, i: int, y: int, q: int, p: int)
    requires
        0 <= x <= a,
        d >= 0x100_0000,
        i >= 0,
        y >= 0,
        p >= 0x100_0000,
        size(127 * d - a) * 0x100_0000 <= a || size(127 * d - a) * 2 <= 127,
        size(i * d - p * p) * 0x100_0000 <= p * p,
        size(y * p - x * i) * 0x100_0000 <= x * i || size(y * p - x * i) * 2 <= p,
        q == (2 * y + p) / (2 * p),
    ensures
        0 <= q <= 127,
        size(x - d * q) * 0x1_0000 <= 0x8002 * d,
{
    let m = p * p;
    let (e1, e2, e3) = (m - i * d, x * i - y * p, y - q * p);
    assert(a <= 128 * d && 0x8000 * (a - 127 * d) <= d);
    assert(m >= 0x100_0000 * p) by (nonlinear_arith)
        requires
            m == p * p,
            p >= 0x100_0000,
    ;
    // The products of `x` with the inverse.
    assert(size(x * e1) * 0x100_0000 <= x * m) by {
        lemma_size(x, e1);
        assert((x * size(e1)) * 0x100_0000 <= x * m) by (nonlinear_arith)
            requires
                x >= 0,
                size(e1) * 0x100_0000 <= m,
        ;
    }
    let dm = d * m;
    assert(x * m <= 128 * dm) by (nonlinear_arith)
        requires
            x <= 128 * d,
            m >= 0,
            dm == d * m,
    ;
    assert(x * e1 == x * m - (x * i) * d) by (nonlinear_arith)
        requires
            e1 == m - i * d,
    ;
    let xid = (x * i) * d;
    assert(dm >= 0 && xid >= 0) by (nonlinear_arith)
        requires
            d >= 0,
            m >= 0,
            x >= 0,
            i >= 0,
            dm == d * m,
            xid == (x * i) * d,
    ;
    assert(xid <= 129 * dm);
    // The rounded product.
    assert(size(d * e2) * 0x100_0000 <= 129 * dm) by {
        lemma_size(d, e2);
        let t = x * i;
        if size(e2) * 0x100_0000 <= t {
            assert((d * size(e2)) * 0x100_0000 <= t * d) by (nonlinear_arith)
                requires
                    d >= 0,
                    size(e2) * 0x100_0000 <= t,
            ;
        } else {
            assert((d * size(e2)) * 0x100_0000 <= d * m) by (nonlinear_arith)
                requires
                    d >= 0,
                    size(e2) * 2 <= p,
                    m >= 0x100_0000 * p,
                    p >= 0,
            ;
        }
    }
    // The nearest integer.
    let dp = d * p;
    assert(q * (2 * p) <= 2 * y + p < q * (2 * p) + 2 * p) by {
        vstd::arithmetic::div_mod::lemma_fundamental_div_mod(2 * y + p, 2 * p);
        vstd::arithmetic::div_mod::lemma_mod_bound(2 * y + p, 2 * p);
        vstd::arithmetic::mul::lemma_mul_is_commutative(q, 2 * p);
    }
    assert(q * (2 * p) == 2 * (q * p)) by (nonlinear_arith);
    assert(size(e3) * 2 <= p);
    assert(size(dp * e3) * 2 <= dm) by {
        assert(dp >= 0) by (nonlinear_arith)
            requires
                d >= 0,
                p >= 0,
                dp == d * p,
        ;
        lemma_size(dp, e3);
        assert((dp * size(e3)) * 2 <= d * m) by (nonlinear_arith)
            requires
                dp == d * p,
                m == p * p,
                dp >= 0,
                size(e3) * 2 <= p,
        ;
    }
    // Together.
    let off = x - d * q;
    let (xi, dq) = (x * i, d * q);
    assert(off * m == x * m - dq * m) by (nonlinear_arith)
        requires
            off == x - dq,
    ;
    assert(d * e2 == xi * d - dp * y) by (nonlinear_arith)
        requires
            e2 == xi - y * p,
            dp == d * p,
    ;
    assert(dp * e3 == dp * y - dq * m) by (nonlinear_arith)
        requires
            e3 == y - q * p,
            dp == d * p,
            dq == d * q,
            m == p * p,
    ;
    assert(off * m == x * e1 + d * e2 + dp * e3);
    assert(size(off * m) * 0x100_0000 <= 0x80_0101 * dm);
    lemma_size(off, m);
    assert(size(off) * 0x100_0000 <= 0x80_0101 * d) by (nonlinear_arith)
        requires
            (size(off) * m) * 0x100_0000 <= 0x80_0101 * dm,
            dm == d * m,
            m > 0,
    ;
    assert(q >= 0) by (nonlinear_arith)
        requires
            2 * y + p < q * (2 * p) + 2 * p,
            y >= 0,
            p > 0,
    ;
    assert(q <= 127) by (nonlinear_arith)
        requires
            size(off) * 0x100_0000 <= 0x80_0101 * d,
            size(off) >= d * q - x,
            x <= a,
            0x8000 * (a - 127 * d) <= d,
            d > 0,
    ;
}

/// The absolute value of a product.
proof fn lemma_size(a: int, b: int)
    ensures
        a >= 0 ==> size(a * b) == a * size(b),
        b >= 0 ==> size(a * b) == size(a) * b,
{
    if a >= 0 {
        assert(b < 0 ==> a * b <= 0 && a * (-b) == -(a * b)) by (nonlinear_arith)
            requires
                a >= 0,
        ;
        assert(b >= 0 ==> a * b >= 0) by (nonlinear_arith)
            requires
                a >= 0,
        ;
    }
    if b >= 0 {
        assert(a < 0 ==> a * b <= 0 && (-a) * b == -(a * b)) by (nonlinear_arith)
            requires
                b >= 0,
        ;
        assert(a >= 0 ==> a * b >= 0) by (nonlinear_arith)
            requires
                b >= 0,
        ;
    }
}

/// A scale that half precision does not resolve becomes zero.
proof fn lemma_unresolved(d: u32, h: u16)
    requires
        narrowing::is_narrowed(d, h),
        d < narrowing::LIMIT,
        binary32::units(d) < pow2(124),
    ensures
        binary32::value(binary16::widened(h)) == 0,
{
    let (u, p) = (binary16::units(h), pow2(125) as int);
    binary32::lemma_sign_split(d);
    binary32::lemma_units_nonnegative(d);
    lemma_pow2_unfold(125);
    binary16::lemma_units_bound(h);
    assert(binary16::units(0) == 0);
    assert(0 * p == 0) by (nonlinear_arith);
    assert(narrowing::distance(h, d) <= narrowing::distance(0, d));
    assert(u * p >= p || u == 0) by (nonlinear_arith)
        requires
            u >= 0,
            p > 0,
    ;
    binary16::law_widened(h);
}

/// The integer of an activation is the nearest to the quotient of its magnitude
/// by the scale, up to rounding, with the sign of the activation.
proof fn lemma_integer_near(f: Rounding, xs: Seq<u32>, x: u32)
    requires
        ieee::is_arithmetic(f),
        binary32::largest(xs) < binary32::INFINITY,
        step(f, xs) < narrowing::LIMIT,
        binary32::units(step(f, xs)) >= pow2(124),
        binary32::magnitude(x) <= binary32::largest(xs),
    ensures
        ({
            let d = step(f, xs);
            let q = binary32::rounded(f(Op::Mul, x, inverse(f, d)), LIMIT as int);
            &&& size(q) <= 127
            &&& binary32::negative(x) ==> q <= 0
            &&& !binary32::negative(x) ==> q >= 0
            &&& size(binary32::units(x) - binary32::units(d) * size(q)) * 0x1_0000 <= 0x8002
                * binary32::units(d)
        }),
{
    let d = step(f, xs);
    let inv = f(Op::Div, binary32::ONE, d);
    let y = f(Op::Mul, x, inv);
    let most = binary32::largest(xs);
    let p = pow2(149) as int;
    let (u, a, e, i, v) = (
        binary32::units(x),
        binary32::units(most),
        binary32::units(d),
        binary32::units(inv),
        binary32::units(y),
    );
    law_step_near(f, xs);
    lemma_inverse_near(f, d);
    lemma_pow2_pos(124);
    lemma_pow2_strictly_increases(24, 124);
    lemma_pow2_strictly_increases(24, 149);
    lemma2_to64();
    binary32::lemma_sign_split(d);
    binary32::lemma_sign_split(most);
    binary32::lemma_sign_split(inv);
    binary32::lemma_sign_split(y);
    if d == 0 {
        assert(e == 0);
    }
    assert(inverse(f, d) == inv);
    binary32::law_magnitude_order(x, most);
    binary32::lemma_units_nonnegative(x);
    binary32::lemma_units_nonnegative(inv);
    binary32::lemma_units_nonnegative(y);
    assert(ieee::is_product(x, inv, y));
    lemma_product_bound(u, a, e, i, p);
    let b = pow2(276) as int;
    lemma_pow2_adds(8, 149);
    lemma_pow2_strictly_increases(157, 276);
    assert(256 * (p * p) < p * b) by (nonlinear_arith)
        requires
            256 * p < b,
            p > 0,
    ;
    ieee::lemma_error(y, u * i, p);
    lemma_code_near(u, a, e, i, v, binary32::nearest_integer(v), p);
}

/// The product of an activation and the inverse of the scale is far from overflow.
proof fn lemma_product_bound(x: int, a: int, d: int, i: int, p: int)
    requires
        0 <= x <= a,
        d >= 0x100_0000,
        i >= 0,
        size(127 * d - a) * 0x100_0000 <= a || size(127 * d - a) * 2 <= 127,
        size(i * d - p * p) * 0x100_0000 <= p * p,
    ensures
        0 <= x * i <= 256 * (p * p),
{
    let m = p * p;
    assert(x <= 128 * d);
    assert(i * d <= 2 * m);
    assert(0 <= x * i <= (128 * d) * i) by (nonlinear_arith)
        requires
            0 <= x <= 128 * d,
            i >= 0,
    ;
    assert((128 * d) * i == 128 * (i * d)) by (nonlinear_arith);
}

/// Each activation is within about half a step of the scale times its integer:
/// of a group whose scale half precision has room for, it is off by at most 9/16
/// of the step, half a step for the integer and the rest for the rounded scale.
pub proof fn law_activation_near(f: Rounding, g: Narrowing, xs: Seq<u32>, t: int)
    requires
        ieee::is_arithmetic(f),
        narrowing::is_narrowing(g),
        xs.len() == 32,
        0 <= t < 32,
        binary32::is_finite(xs[t]),
        step(f, xs) < narrowing::LIMIT,
    ensures
        binary16::is_finite(quantized(f, g, xs).d),
        16 * size(
            binary32::value(xs[t]) - binary32::value(binary16::widened(quantized(f, g, xs).d))
                * quantized(f, g, xs).q[t],
        ) <= 9 * reach(step(f, xs)),
{
    let d = step(f, xs);
    let h = g(d);
    let x = xs[t];
    let most = binary32::largest(xs);
    let q = quantized(f, g, xs).q[t];
    binary32::law_largest(xs);
    law_steps();
    binary32::lemma_sign_split(most);
    binary32::lemma_sign_split(STEPS);
    binary32::lemma_sign_split(d);
    binary32::lemma_sign_split(x);
    assert(ieee::is_quotient(most, STEPS, d));
    assert(most < binary32::INFINITY);
    law_step_near(f, xs);
    binary32::law_magnitude_order(x, most);
    binary32::lemma_units_nonnegative(x);
    binary32::lemma_units_nonnegative(d);
    assert(narrowing::is_narrowed(d, h));
    narrowing::law_narrowed_near(d, h);
    binary16::law_widened(h);
    let (u, e, w) = (binary32::units(x), binary32::units(d), binary32::units(binary16::widened(h)));
    lemma_pow2_unfold(125);
    lemma_pow2_pos(124);
    if e < pow2(124) {
        lemma_unresolved(d, h);
        lemma_pow2_strictly_increases(23, 124);
        lemma2_to64();
        assert(0 * q == 0) by (nonlinear_arith);
        assert(u <= 128 * pow2(124));
    } else {
        lemma_integer_near(f, xs, x);
        let (n, m) = (size(q), reach(d));
        assert(narrowing::distance(h, d) == size(w - e));
        assert(size(w - e) * 2048 <= m);
        lemma_size(n, e - w);
        assert(n * size(e - w) <= 127 * size(e - w)) by (nonlinear_arith)
            requires
                0 <= n <= 127,
                size(e - w) >= 0,
        ;
        assert(n * (e - w) == e * n - w * n) by (nonlinear_arith);
        assert(size(u - w * n) <= size(u - e * n) + n * size(e - w));
        assert(16 * size(u - w * n) <= 9 * m);
        assert(w * (-n) == -(w * n)) by (nonlinear_arith);
    }
}

} // verus!
