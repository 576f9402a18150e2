//! What the basic notions mean, said of bits and integers alone.
//!
//! This module and its siblings say of every operation what its results are in
//! terms of its inputs: bits of bytes, fields of patterns, sums of integers,
//! indices into the arguments.
use crate::arith;
use crate::arith::{Narrowing, Op, Rounding};
use crate::binary16;
use crate::binary32;
use crate::dtype;
use crate::dtype::GgmlDType;
use crate::error;
use crate::error::MatmulError;
use crate::ieee;
use crate::kernel;
use crate::narrowing;
use crate::quants;
use crate::quants::Quants;
use vstd::arithmetic::div_mod::*;
use vstd::arithmetic::power2::*;
use vstd::prelude::*;

verus! {

/// The sum of the integers in `s`.
pub open spec fn sum(s: Seq<int>) -> int
    decreases s.len(),
{
    if s.len() == 0 {
        0
    } else {
        sum(s.drop_last()) + s.last()
    }
}

/// The sum of no integers is zero, and one more integer is added to the sum.
pub proof fn law_sum(s: Seq<int>, x: int)
    ensures
        sum(Seq::<int>::empty()) == 0,
        sum(s.push(x)) == sum(s) + x,
{
    assert(s.push(x).drop_last() =~= s);
}

/// A prefix grows by one element.
pub(crate) proof fn lemma_sum_take(s: Seq<int>, n: int)
    requires
        0 <= n < s.len(),
    ensures
        sum(s.take(n + 1)) == sum(s.take(n)) + s[n],
{
    assert(s.take(n + 1).drop_last() =~= s.take(n));
}

/// The absolute value of an integer.
pub proof fn law_size(v: int)
    ensures
        v >= 0 ==> ieee::size(v) == v,
        v <= 0 ==> ieee::size(v) == -v,
{
}

/// A single-precision pattern is a sign, an exponent and a mantissa: below `2^23`
/// the magnitude is the number of units of `2^-149`, and above, each step of the
/// exponent doubles the weight of the mantissa with its hidden bit.
pub proof fn law_single_pattern(x: u32)
    ensures
        binary32::magnitude(x) == x as int % 0x8000_0000,
        binary32::negative(x) <==> x >= 0x8000_0000,
        binary32::is_finite(x) <==> x as int % 0x8000_0000 < 0x7f80_0000,
        binary32::is_infinite(x) <==> x as int % 0x8000_0000 == 0x7f80_0000,
        binary32::is_nan(x) <==> x as int % 0x8000_0000 > 0x7f80_0000,
        x as int % 0x8000_0000 < 0x80_0000 ==> binary32::units(x) == x as int % 0x8000_0000,
        x as int % 0x8000_0000 >= 0x80_0000 ==> binary32::units(x) == (0x80_0000 + x as int
            % 0x80_0000) * pow2((x as int % 0x8000_0000 / 0x80_0000 - 1) as nat),
        x < 0x8000_0000 ==> binary32::value(x) == binary32::units(x),
        x >= 0x8000_0000 ==> binary32::value(x) == -binary32::units(x),
{
    binary32::lemma_sign_split(x);
}

/// A half-precision pattern is a sign, an exponent and a mantissa, in units of
/// `2^-24`.
pub proof fn law_half_pattern(h: u16)
    ensures
        binary16::magnitude(h) == h as int % 0x8000,
        binary16::negative(h) <==> h >= 0x8000,
        binary16::is_finite(h) <==> h as int % 0x8000 < 0x7c00,
        binary16::is_infinite(h) <==> h as int % 0x8000 == 0x7c00,
        binary16::is_nan(h) <==> h as int % 0x8000 > 0x7c00,
        h as int % 0x8000 < 0x400 ==> binary16::units(h) == h as int % 0x8000,
        h as int % 0x8000 >= 0x400 ==> binary16::units(h) == (0x400 + h as int % 0x400) * pow2(
            (h as int % 0x8000 / 0x400 - 1) as nat,
        ),
        h < 0x8000 ==> binary16::value(h) == binary16::units(h),
        h >= 0x8000 ==> binary16::value(h) == -binary16::units(h),
{
}

/// Widening keeps sign and number, infinities and NaNs.
pub proof fn law_widened_number(h: u16)
    ensures
        binary16::widened(h) >= 0x8000_0000 <==> h >= 0x8000,
        h as int % 0x8000 < 0x7c00 ==> binary16::widened(h) as int % 0x8000_0000 < 0x7f80_0000
            && binary32::value(binary16::widened(h)) == binary16::value(h) * pow2(125),
        h as int % 0x8000 == 0x7c00 ==> binary16::widened(h) as int % 0x8000_0000 == 0x7f80_0000,
        h as int % 0x8000 > 0x7c00 ==> binary16::widened(h) as int % 0x8000_0000 == 0x7fc0_0000 + (
        h as int % 0x200) * 0x2000,
{
    binary16::law_widened(h);
    if binary16::is_finite(h) {
        binary16::lemma_widened_value(h);
    }
}

/// The pattern of a small integer is that of the integer.
pub proof fn law_integer(s: int)
    requires
        -0x100_0000 < s < 0x100_0000,
    ensures
        binary32::integer(s) as int % 0x8000_0000 < 0x7f80_0000,
        binary32::integer(s) >= 0x8000_0000 <==> s < 0,
        binary32::value(binary32::integer(s)) == s * pow2(149),
{
    ieee::lemma_integer(s);
}

/// The negation of a number differs from it in the sign bit alone.
pub proof fn law_flipped(x: u32)
    ensures
        x < 0x8000_0000 ==> binary32::flipped(x) == x + 0x8000_0000,
        x >= 0x8000_0000 ==> binary32::flipped(x) == x - 0x8000_0000,
{
}

/// A number is rounded to the nearest integer, halves away from zero, within a
/// limit: what is farther out is cut to the limit, and what is no NaN keeps its
/// sign.
pub proof fn law_rounded_nearest(x: u32, limit: int)
    requires
        limit >= 1,
    ensures
        x as int % 0x8000_0000 > 0x7f80_0000 ==> binary32::rounded(x, limit) == 0,
        x == 0x7f80_0000 ==> binary32::rounded(x, limit) == limit,
        x == 0xff80_0000 ==> binary32::rounded(x, limit) == -limit,
        x as int % 0x8000_0000 < 0x7f80_0000 ==> {
            let n = ieee::size(binary32::rounded(x, limit));
            &&& n <= limit
            &&& x >= 0x8000_0000 ==> binary32::rounded(x, limit) <= 0
            &&& x < 0x8000_0000 ==> binary32::rounded(x, limit) >= 0
            &&& (2 * n - 1) * pow2(149) <= 2 * binary32::units(x)
            &&& n < limit ==> 2 * binary32::units(x) < (2 * n + 1) * pow2(149)
        },
{
    let (u, p) = (binary32::units(x), pow2(149) as int);
    binary32::lemma_sign_split(x);
    binary32::lemma_units_nonnegative(x);
    lemma_pow2_pos(149);
    let q = binary32::nearest_integer(u);
    lemma_fundamental_div_mod(2 * u + p, 2 * p);
    lemma_mod_bound(2 * u + p, 2 * p);
    lemma_div_pos_is_pos(2 * u + p, 2 * p);
    assert(q >= 0);
    assert((2 * p) * q <= 2 * u + p < (2 * p) * q + 2 * p);
    assert((2 * q - 1) * p == (2 * p) * q - p && (2 * q + 1) * p == (2 * p) * q + p)
        by (nonlinear_arith);
    if q > limit {
        assert((2 * limit - 1) * p <= (2 * q - 1) * p) by (nonlinear_arith)
            requires
                limit < q,
                p > 0,
        ;
    }
}

/// The largest magnitude is that of an element, and no element that is no NaN
/// exceeds it; where all elements are zero or NaN it is zero.
pub proof fn law_largest_magnitude(xs: Seq<u32>) -> (e: int)
    ensures
        0 <= binary32::largest(xs) <= 0x7f80_0000,
        forall|t: int|
            0 <= t < xs.len() ==> (#[trigger] xs[t]) as int % 0x8000_0000 <= binary32::largest(xs)
                || xs[t] as int % 0x8000_0000 > 0x7f80_0000,
        binary32::largest(xs) != 0 ==> 0 <= e < xs.len() && xs[e] as int % 0x8000_0000
            == binary32::largest(xs),
{
    binary32::law_largest(xs);
    if binary32::largest(xs) != 0 {
        choose|e: int|
            0 <= e < xs.len() && !binary32::is_nan(#[trigger] xs[e]) && binary32::magnitude(xs[e])
                == binary32::largest(xs)
    } else {
        0
    }
}

/// An operation computes a function where each of its results is that of the
/// function, and the contracts then speak of it.
pub proof fn law_computes<O: Fn(Op, u32, u32) -> u32, N: Fn(u32) -> u16>(
    f: Rounding,
    g: Narrowing,
    op: &O,
    narrow: &N,
)
    requires
        forall|o: Op, a: u32, b: u32, r: u32| #[trigger]
            op.ensures((o, a, b), r) ==> r == f(o, a, b),
        forall|x: u32, r: u16| #[trigger] narrow.ensures((x,), r) ==> r == g(x),
    ensures
        arith::computes(f, op),
        arith::both_compute(f, g, op, narrow),
{
}

/// An operation that can be called on all operands may be handed over.
pub proof fn law_callable<O: Fn(Op, u32, u32) -> u32, N: Fn(u32) -> u16>(op: &O, narrow: &N)
    requires
        forall|o: Op, a: u32, b: u32| #[trigger] op.requires((o, a, b)),
        forall|x: u32| #[trigger] narrow.requires((x,)),
    ensures
        arith::callable(op),
        arith::narrow_callable(narrow),
{
}

/// Where a sum, a product or a quotient of finite numbers is itself a number, it is
/// the result that the arithmetic must give.
pub proof fn law_exact_results(a: u32, b: u32, r: u32)
    requires
        a as int % 0x8000_0000 < 0x7f80_0000,
        b as int % 0x8000_0000 < 0x7f80_0000,
        r as int % 0x8000_0000 < 0x7f80_0000,
    ensures
        binary32::value(r) == binary32::value(a) + binary32::value(b) && binary32::value(r) != 0
            ==> ieee::is_sum(a, b, r),
        binary32::value(r) * pow2(149) == binary32::value(a) * binary32::value(b)
            && binary32::value(r) != 0 ==> ieee::is_product(a, b, r),
        binary32::value(r) * binary32::value(b) == binary32::value(a) * pow2(149)
            && binary32::value(r) != 0 && binary32::value(b) != 0 ==> ieee::is_quotient(a, b, r),
{
    let (u, v, w, p) = (
        binary32::units(a),
        binary32::units(b),
        binary32::units(r),
        pow2(149) as int,
    );
    binary32::lemma_units_nonnegative(a);
    binary32::lemma_units_nonnegative(b);
    binary32::lemma_units_nonnegative(r);
    lemma_pow2_pos(149);
    let (x, y, z) = (binary32::value(a), binary32::value(b), binary32::value(r));
    if z != 0 {
        if z == x + y {
            assert(w * 1 == w);
            ieee::lemma_held(r, w, 1);
        }
        if z * p == x * y {
            lemma_signs(z, p, x, y);
            ieee::lemma_held(r, w * p, p);
        }
        if z * y == x * p && y != 0 {
            lemma_signs(x, p, z, y);
            ieee::lemma_held(r, w * v, v);
            assert(x != 0) by {
                assert(z * y != 0) by (nonlinear_arith)
                    requires
                        z != 0,
                        y != 0,
                ;
                assert(0 * p == 0) by (nonlinear_arith);
            }
        }
    }
}

/// What half precision holds is narrowed to itself.
pub proof fn law_exact_narrowing(x: u32, h: u16)
    requires
        h as int % 0x8000 < 0x7c00,
        x as int % 0x8000_0000 < 0x7f80_0000,
        x >= 0x8000_0000 <==> h >= 0x8000,
        binary32::units(x) == binary16::units(h) * pow2(125),
    ensures
        narrowing::is_narrowed(x, h),
{
    narrowing::lemma_exact(x, h);
}

/// Equal products have equal signs and equal absolute values.
proof fn lemma_signs(z: int, p: int, x: int, y: int)
    requires
        z * p == x * y,
        p > 0,
        z != 0 || (x != 0 && y != 0),
    ensures
        ieee::size(z) * p == ieee::size(x) * ieee::size(y),
        z < 0 <==> (x < 0) != (y < 0),
        x != 0 && y != 0,
{
    assert(x != 0 && y != 0) by (nonlinear_arith)
        requires
            z * p == x * y,
            p > 0,
            z != 0 || (x != 0 && y != 0),
    ;
    assert(z < 0 <==> z * p < 0) by (nonlinear_arith)
        requires
            p > 0,
    ;
    assert(x * y < 0 <==> (x < 0) != (y < 0)) by (nonlinear_arith)
        requires
            x != 0,
            y != 0,
    ;
    assert((-z) * p == -(z * p) && (-x) * y == -(x * y) && x * (-y) == -(x * y) && (-x) * (-y) == x
        * y) by (nonlinear_arith);
}

/// A product is accepted exactly where its shape fits: the row length is a whole
/// number of blocks, and the activations are `m` rows of it. Otherwise it is
/// refused for the first of these that fails, and the destination stays as it was.
pub proof fn law_product_shape<O: Fn(Op, u32, u32) -> u32, N: Fn(u32) -> u16>(
    op: &O,
    narrow: &N,
    dtype: GgmlDType,
    mkn: (usize, usize, usize),
    lhs: &[u32],
    rhs: Seq<Quants>,
    before: Seq<u32>,
    after: Seq<u32>,
    r: Result<(), MatmulError>,
)
    requires
        kernel::is_product(op, narrow, dtype, mkn, lhs, rhs, before, after, r),
    ensures
        r is Ok <==> mkn.1 as int % 128 == 0 && mkn.0 * mkn.1 == lhs@.len(),
        mkn.1 as int % 128 != 0 ==> r == Err::<(), MatmulError>(
            MatmulError::RowLength { dtype, k: mkn.1 },
        ),
        mkn.1 as int % 128 == 0 && mkn.0 * mkn.1 != lhs@.len() ==> r == Err::<(), MatmulError>(
            MatmulError::LhsLength { len: lhs.len(), m: mkn.0, k: mkn.1, n: mkn.2 },
        ),
        r is Err ==> after == before,
        after.len() == before.len(),
        forall|j: int| mkn.0 * mkn.2 <= j < before.len() ==> #[trigger] after[j] == before[j],
{
}

/// The operands of a product are long enough where there are `n` rows of weights
/// for a product that has rows, and room for `m * n` elements.
pub proof fn law_operands(
    dtype: GgmlDType,
    mkn: (usize, usize, usize),
    len: usize,
    weights: nat,
    room: nat,
)
    requires
        mkn.0 == 0 || weights >= mkn.2 * (mkn.1 as int / 128),
        room >= mkn.0 * mkn.2,
    ensures
        kernel::accepts(dtype, mkn, len, weights, room),
{
}

/// A product of a shape that does not fit asks nothing of its operands.
pub proof fn law_refused_operands(
    dtype: GgmlDType,
    mkn: (usize, usize, usize),
    len: usize,
    weights: nat,
    room: nat,
)
    requires
        mkn.1 as int % 128 != 0 || mkn.0 * mkn.1 != len,
    ensures
        kernel::accepts(dtype, mkn, len, weights, room),
{
}

/// Each type has its own number and size.
pub proof fn law_types()
    ensures
        dtype::type_number(GgmlDType::Q1_0_g128) == 41,
        dtype::type_number(GgmlDType::Q2_0) == 42,
        dtype::bits_per_weight(GgmlDType::Q1_0_g128) == 1,
        dtype::bits_per_weight(GgmlDType::Q2_0) == 2,
{
}

/// Numbers are written in decimal: the last digit is the remainder by ten, behind
/// the digits of the quotient, if that is not zero.
pub proof fn law_decimal(n: nat)
    ensures
        n < 10 ==> error::decimal(n) == seq![(48 + n) as char],
        n >= 10 ==> error::decimal(n) == error::decimal(n / 10).push((48 + n % 10) as char),
{
}

/// The messages name the operands.
pub proof fn law_messages(len: usize, m: usize, k: usize, n: usize)
    ensures
        error::message(MatmulError::RowLength { dtype: GgmlDType::Q2_0, k }) == "Q2_0"@
            + " matmul requires k ("@ + error::decimal(k as nat) + ") to be a multiple of 128"@,
        error::message(MatmulError::RowLength { dtype: GgmlDType::Q1_0_g128, k }) == "Q1_0_g128"@
            + " matmul requires k ("@ + error::decimal(k as nat) + ") to be a multiple of 128"@,
        error::message(MatmulError::LhsLength { len, m, k, n }) == "unexpected lhs length "@
            + error::decimal(len as nat) + " for ("@ + error::decimal(m as nat) + ","@
            + error::decimal(k as nat) + ","@ + error::decimal(n as nat) + ")"@,
{
}

/// A number stays as it is where it is positive, and otherwise becomes one.
pub proof fn law_positive_or_one(x: u32)
    ensures
        0 < x <= 0x7f80_0000 ==> binary32::positive_or_one_spec(x) == x,
        x == 0 || x > 0x7f80_0000 ==> binary32::positive_or_one_spec(x) == 0x3f80_0000,
{
}

/// What is at least zero: positive numbers, infinity and both zeros.
pub proof fn law_at_least_zero(x: u32)
    ensures
        binary32::at_least_zero(x) <==> x <= 0x7f80_0000 || x == 0x8000_0000,
{
    binary32::lemma_sign_split(x);
}

/// Two half-precision patterns are the same number where they are equal and no
/// NaN, or both zero.
pub proof fn law_same_number(a: u16, b: u16)
    ensures
        binary16::same_number(a, b) <==> (a == b && a as int % 0x8000 <= 0x7c00) || (a as int
            % 0x8000 == 0 && b as int % 0x8000 == 0),
{
}

/// Arithmetic is what gives the sums, products and quotients, and nothing else is
/// asked of it; and a narrowing is what narrows.
pub proof fn law_arithmetic(f: Rounding, g: Narrowing)
    requires
        forall|a: u32, b: u32| ieee::is_sum(a, b, #[trigger] f(Op::Add, a, b)),
        forall|a: u32, b: u32| ieee::is_product(a, b, #[trigger] f(Op::Mul, a, b)),
        forall|a: u32, b: u32| ieee::is_quotient(a, b, #[trigger] f(Op::Div, a, b)),
        forall|x: u32| narrowing::is_narrowed(x, #[trigger] g(x)),
    ensures
        ieee::is_arithmetic(f),
        narrowing::is_narrowing(g),
{
}

/// An inner product is the sum of the products.
pub proof fn law_inner(a: Seq<int>, i: int, b: Seq<int>, j: int, n: nat, products: Seq<int>)
    requires
        products.len() == n,
        forall|t: int| 0 <= t < n ==> #[trigger] products[t] == a[i + t] * b[j + t],
    ensures
        quants::inner(a, i, b, j, n) == sum(products),
    decreases n,
{
    if n > 0 {
        let m = (n - 1) as nat;
        let rest = products.drop_last();
        assert forall|t: int| 0 <= t < m implies #[trigger] rest[t] == a[i + t] * b[j + t] by {
            assert(rest[t] == products[t]);
        }
        law_inner(a, i, b, j, m, rest);
        quants::lemma_inner_one(a, i, b, j, m);
        assert(products[m as int] == a[i + m] * b[j + m]);
    }
}

/// An inner product is the sum of the products.
pub(crate) proof fn lemma_inner_sum(
    a: Seq<int>,
    i: int,
    b: Seq<int>,
    products: Seq<int>,
    from: int,
    n: nat,
)
    requires
        0 <= from,
        from + n <= products.len(),
        forall|t: int| 0 <= t < n ==> #[trigger] products[from + t] == a[i + t] * b[t],
    ensures
        quants::inner(a, i, b, 0, n) == sum(products.subrange(from, from + n)),
    decreases n,
{
    let s = products.subrange(from, from + n);
    if n > 0 {
        let m = (n - 1) as nat;
        lemma_inner_sum(a, i, b, products, from, m);
        assert(s.drop_last() =~= products.subrange(from, from + m));
        assert(s.last() == products[from + m]);
        quants::lemma_inner_one(a, i, b, 0, m);
    }
}

} // verus!
