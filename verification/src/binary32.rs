//! Single-precision numbers as bit patterns.
//!
//! A number is carried as the 32-bit pattern of its IEEE 754 binary32
//! encoding: one sign bit, eight exponent bits, 23 mantissa bits. The ghost
//! functions read a pattern as a mathematical value; the executable ones
//! compute the steps that need no rounding arithmetic: comparing, taking
//! magnitudes, rounding to a small integer, and multiplying by a small integer.
use vstd::arithmetic::div_mod::*;
use vstd::arithmetic::mul::*;
use vstd::arithmetic::power2::*;
use vstd::prelude::*;

verus! {

/// The pattern of `1.0`.
pub const ONE: u32 = 0x3f80_0000;

/// The pattern of positive infinity. Every larger magnitude is a NaN.
pub const INFINITY: u32 = 0x7f80_0000;

/// The pattern of the default quiet NaN.
pub const QUIET_NAN: u32 = 0x7fc0_0000;

/// The sign bit.
pub const SIGN: u32 = 0x8000_0000;

/// Whether the sign bit of `x` is set.
pub open spec fn negative(x: u32) -> bool {
    x >= SIGN
}

/// The pattern of the absolute value of `x`.
pub open spec fn magnitude(x: u32) -> int {
    x as int % 0x8000_0000
}

/// Whether `x` is a NaN.
pub open spec fn is_nan(x: u32) -> bool {
    magnitude(x) > INFINITY
}

/// Whether `x` is one of the two infinities.
pub open spec fn is_infinite(x: u32) -> bool {
    magnitude(x) == INFINITY
}

/// Whether `x` is a number other than the infinities.
pub open spec fn is_finite(x: u32) -> bool {
    magnitude(x) < INFINITY
}

/// The biased exponent of `x`.
pub open spec fn exponent(x: u32) -> int {
    magnitude(x) / 0x80_0000
}

/// The stored mantissa bits of `x`.
pub open spec fn mantissa(x: u32) -> int {
    magnitude(x) % 0x80_0000
}

/// The absolute value of a finite `x`, in units of `2^-149`, the smallest
/// positive single-precision number.
pub open spec fn units(x: u32) -> int {
    if exponent(x) == 0 {
        mantissa(x)
    } else {
        (0x80_0000 + mantissa(x)) * pow2((exponent(x) - 1) as nat)
    }
}

/// The value of a finite `x`, in units of `2^-149`.
pub open spec fn value(x: u32) -> int {
    if negative(x) {
        -units(x)
    } else {
        units(x)
    }
}

/// Whether `x >= 0.0`: false of a NaN, true of both zeros.
pub open spec fn at_least_zero(x: u32) -> bool {
    !is_nan(x) && (!negative(x) || magnitude(x) == 0)
}

/// `r` is the pattern of the largest absolute value among the elements of `xs`
/// that are no NaN, and of zero where there is none.
pub open spec fn is_max_magnitude(xs: Seq<u32>, r: u32) -> bool {
    &&& r <= INFINITY
    &&& forall|e: int|
        0 <= e < xs.len() && !is_nan(#[trigger] xs[e]) ==> magnitude(xs[e]) <= r
    &&& r != 0 ==> exists|e: int|
        0 <= e < xs.len() && !is_nan(#[trigger] xs[e]) && magnitude(xs[e]) == r
}

/// The largest absolute value among the elements of `xs` that are no NaN, and
/// zero where there is none: the fold of the maximum, which ignores a NaN.
pub open spec fn largest(xs: Seq<u32>) -> u32
    decreases xs.len(),
{
    if xs.len() == 0 {
        0
    } else {
        let rest = largest(xs.drop_last());
        if !is_nan(xs.last()) && magnitude(xs.last()) > rest {
            magnitude(xs.last()) as u32
        } else {
            rest
        }
    }
}

/// `r` is the pattern of the integer `s`.
pub open spec fn is_integer(s: int, r: u32) -> bool {
    &&& is_finite(r)
    &&& negative(r) == (s < 0)
    &&& value(r) == s * pow2(149)
}

/// The pattern of the integer `s`, where single precision has one.
pub open spec fn integer(s: int) -> u32 {
    choose|r: u32| is_integer(s, r)
}

/// `x` where it is positive, and otherwise `1.0`.
pub open spec fn positive_or_one_spec(x: u32) -> u32 {
    if 0 < x <= INFINITY {
        x
    } else {
        ONE
    }
}

/// The integer nearest to `u` units of `2^-149`, the larger one where two are
/// equally near.
pub open spec fn nearest_integer(u: int) -> int {
    (2 * u + pow2(149)) / (2 * pow2(149) as int)
}

/// `x` rounded to the nearest integer, halves away from zero, and clamped to
/// `-limit ..= limit`. A NaN gives zero.
pub open spec fn rounded(x: u32, limit: int) -> int {
    let near = if is_infinite(x) || nearest_integer(units(x)) > limit {
        limit
    } else {
        nearest_integer(units(x))
    };
    if is_nan(x) {
        0
    } else if negative(x) {
        -near
    } else {
        near
    }
}

/// `r` is the product of the integer `w` and the number `d`, with the sign of
/// zero and the treatment of infinities and NaNs that IEEE 754 gives it, where
/// the product needs no rounding.
pub open spec fn is_exact_multiple(w: int, d: u32, r: u32) -> bool {
    if is_nan(d) || (is_infinite(d) && w == 0) {
        is_nan(r)
    } else {
        &&& negative(r) == (negative(d) != (w < 0))
        &&& is_infinite(d) ==> is_infinite(r)
        &&& is_finite(d) ==> is_finite(r) && value(r) == w * value(d)
    }
}

/// `x` with its sign bit inverted.
pub open spec fn flipped(x: u32) -> u32 {
    if negative(x) {
        (x - SIGN) as u32
    } else {
        (x + SIGN) as u32
    }
}

/// A pattern splits into its sign and its magnitude.
pub proof fn lemma_sign_split(x: u32)
    ensures
        magnitude(x) == (if negative(x) {
            x - 0x8000_0000
        } else {
            x as int
        }),
        0 <= magnitude(x) < 0x8000_0000,
        0 <= mantissa(x) < 0x80_0000,
        0 <= exponent(x) < 256,
        magnitude(x) == exponent(x) * 0x80_0000 + mantissa(x),
{
}

/// Absolute values are ordered as their patterns are: of two finite numbers,
/// the one with the larger magnitude pattern is the larger in absolute value.
pub proof fn law_magnitude_order(a: u32, b: u32)
    requires
        is_finite(a),
        is_finite(b),
    ensures
        magnitude(a) < magnitude(b) <==> units(a) < units(b),
        magnitude(a) == magnitude(b) <==> units(a) == units(b),
{
    if magnitude(a) < magnitude(b) {
        lemma_magnitude_strict(a, b);
    } else if magnitude(b) < magnitude(a) {
        lemma_magnitude_strict(b, a);
    }
}

proof fn lemma_magnitude_strict(a: u32, b: u32)
    requires
        magnitude(a) < magnitude(b),
    ensures
        units(a) < units(b),
{
    lemma_sign_split(a);
    lemma_sign_split(b);
    let ea = exponent(a);
    let eb = exponent(b);
    let ma = 0x80_0000 + mantissa(a);
    let mb = 0x80_0000 + mantissa(b);
    lemma2_to64();
    if eb > 0 {
        lemma_pow2_pos((eb - 1) as nat);
        let pb = pow2((eb - 1) as nat) as int;
        assert(mb * pb >= 0x80_0000 * pb) by (nonlinear_arith)
            requires
                mb >= 0x80_0000,
                pb > 0,
        ;
        if ea == eb {
            assert(ma * pb < mb * pb) by (nonlinear_arith)
                requires
                    ma < mb,
                    pb > 0,
            ;
        } else if ea > 0 {
            let pa = pow2((ea - 1) as nat) as int;
            lemma_pow2_pos((ea - 1) as nat);
            lemma_pow2_unfold(ea as nat);
            assert(pow2(ea as nat) == 2 * pa);
            if ea < eb - 1 {
                lemma_pow2_strictly_increases(ea as nat, (eb - 1) as nat);
            }
            assert(ma * pa < 0x80_0000 * pb) by (nonlinear_arith)
                requires
                    ma < 0x100_0000,
                    pa > 0,
                    2 * pa <= pb,
            ;
        }
    }
}

/// Tests whether `x >= 0.0`.
pub fn is_at_least_zero(x: u32) -> (r: bool)
    ensures
        r == at_least_zero(x),
{
    x <= INFINITY || x == SIGN
}

/// Replaces what is not positive by `1.0`.
pub fn positive_or_one(x: u32) -> (r: u32)
    ensures
        r == positive_or_one_spec(x),
{
    if 0 < x && x <= INFINITY {
        x
    } else {
        ONE
    }
}

/// The absolute value of `x`.
pub fn absolute(x: u32) -> (r: u32)
    ensures
        r == magnitude(x),
{
    if x < SIGN {
        x
    } else {
        x - SIGN
    }
}

/// The largest absolute value in `xs`, NaNs left out.
pub fn max_magnitude(xs: &[u32]) -> (r: u32)
    ensures
        r == largest(xs@),
{
    let mut most: u32 = 0;
    for e in 0..xs.len()
        invariant
            most == largest(xs@.take(e as int)),
    {
        let bare: u32 = absolute(xs[e]);
        proof {
            assert(xs@.take(e + 1).drop_last() == xs@.take(e as int));
        }
        if bare <= INFINITY && bare > most {
            most = bare;
        }
    }
    proof {
        assert(xs@.take(xs@.len() as int) == xs@);
    }
    most
}

/// The largest magnitude bounds all others and is the magnitude of some
/// element, unless it is zero.
pub proof fn law_largest(xs: Seq<u32>)
    ensures
        is_max_magnitude(xs, largest(xs)),
    decreases xs.len(),
{
    if xs.len() > 0 {
        let rest = xs.drop_last();
        law_largest(rest);
        let x = xs.last();
        let most = largest(xs);
        lemma_sign_split(x);
        assert(xs[xs.len() - 1] == x);
        assert forall|e: int|
            0 <= e < xs.len() && !is_nan(#[trigger] xs[e]) implies magnitude(xs[e]) <= most by {
            if e < rest.len() {
                assert(rest[e] == xs[e]);
            }
        }
        if most == largest(rest) && most != 0 {
            let e = choose|e: int|
                0 <= e < rest.len() && !is_nan(#[trigger] rest[e]) && magnitude(rest[e]) == most;
            assert(xs[e] == rest[e]);
        }
    }
}

/// No two patterns are that of the same integer.
pub proof fn law_integer_unique(s: int, a: u32, b: u32)
    requires
        is_integer(s, a),
        is_integer(s, b),
    ensures
        a == b,
{
    lemma_sign_split(a);
    lemma_sign_split(b);
    law_magnitude_order(a, b);
}

/// The pattern of an integer below `2^24` in magnitude, which needs no rounding.
pub fn from_integer(s: i32) -> (r: u32)
    requires
        -0x100_0000 < s < 0x100_0000,
    ensures
        is_integer(s as int, r),
        r == integer(s as int),
{
    let bare: u32 = if s < 0 {
        (-s) as u32
    } else {
        s as u32
    };
    let mut full: u32 = bare;
    let mut exp: u32 = 150;
    let ghost mut moved: nat = 0;
    proof {
        lemma2_to64();
    }
    if s == 0 {
        proof {
            lemma_mul_basics(pow2(149) as int);
            assert(is_integer(0, 0));
            law_integer_unique(0, 0, integer(0));
        }
        return 0;
    }
    while full < 0x80_0000
        invariant
            0 < bare < 0x100_0000,
            0 < full < 0x100_0000,
            full == bare * pow2(moved),
            moved <= 23,
            exp + moved == 150,
        decreases 0x100_0000 - full,
    {
        proof {
            lemma_pow2_unfold(moved + 1);
            let p = pow2(moved) as int;
            assert(bare * (2 * p) == 2 * (bare * p)) by (nonlinear_arith);
            lemma2_to64();
            if moved == 23 {
                assert(bare * 0x80_0000 >= 0x80_0000) by (nonlinear_arith)
                    requires
                        bare > 0,
                ;
            }
            moved = moved + 1;
        }
        full = full * 2;
        exp = exp - 1;
    }
    let sign: u32 = if s < 0 {
        SIGN
    } else {
        0
    };
    let r: u32 = sign + exp * 0x80_0000 + (full - 0x80_0000);
    proof {
        lemma_sign_split(r);
        assert(exponent(r) == exp);
        assert(mantissa(r) == full - 0x80_0000);
        lemma_pow2_adds(moved, (exp - 1) as nat);
        lemma_mul_is_associative(bare as int, pow2(moved) as int, pow2((exp - 1) as nat) as int);
        assert(units(r) == bare * pow2(149));
        let u = pow2(149) as int;
        assert((-bare) * u == -(bare * u)) by (nonlinear_arith);
        law_integer_unique(s as int, r, integer(s as int));
    }
    r
}

/// Between one half and `2^23`, rounding a number is rounding the quotient of
/// its full mantissa by a power of two.
proof fn lemma_nearest_in_range(x: u32)
    requires
        126 <= exponent(x) <= 149,
    ensures
        nearest_integer(units(x)) == (0x80_0000 + mantissa(x) + pow2((149 - exponent(x)) as nat))
            / pow2((150 - exponent(x)) as nat) as int,
{
    let e = exponent(x);
    let m = 0x80_0000 + mantissa(x);
    let p = pow2(e as nat) as int;
    let q = pow2((149 - e) as nat) as int;
    lemma_pow2_pos(e as nat);
    lemma_pow2_pos((149 - e) as nat);
    lemma_pow2_unfold(e as nat);
    lemma_pow2_unfold((150 - e) as nat);
    lemma_pow2_adds(e as nat, (149 - e) as nat);
    let h = pow2((e - 1) as nat) as int;
    assert(2 * (m * h) + p * q == p * (m + q)) by (nonlinear_arith)
        requires
            p == 2 * h,
    ;
    assert(2 * (p * q) == p * (2 * q)) by (nonlinear_arith);
    assert(2 * q > 0);
    lemma_div_denominator(p * (m + q), p, 2 * q);
    lemma_div_multiples_vanish(m + q, p);
}

/// Below one half, the nearest integer is zero.
proof fn lemma_nearest_below(x: u32)
    requires
        exponent(x) < 126,
    ensures
        nearest_integer(units(x)) == 0,
{
    lemma_sign_split(x);
    let e = exponent(x);
    lemma2_to64();
    lemma_pow2_pos(149);
    if e == 0 {
        lemma_pow2_strictly_increases(24, 149);
    } else {
        let m = 0x80_0000 + mantissa(x);
        let h = pow2((e - 1) as nat) as int;
        lemma_pow2_pos((e - 1) as nat);
        lemma_pow2_adds(25, (e - 1) as nat);
        if e < 125 {
            lemma_pow2_strictly_increases((e + 24) as nat, 149);
        }
        assert(2 * (m * h) < 0x200_0000 * h) by (nonlinear_arith)
            requires
                m < 0x100_0000,
                h > 0,
        ;
    }
    lemma_basic_div(2 * units(x) + pow2(149), 2 * pow2(149) as int);
}

/// From 128 on, the nearest integer is at least 128.
proof fn lemma_nearest_above(x: u32)
    requires
        exponent(x) >= 134,
    ensures
        nearest_integer(units(x)) >= 128,
{
    lemma_sign_split(x);
    let e = exponent(x);
    let m = 0x80_0000 + mantissa(x);
    let h = pow2((e - 1) as nat) as int;
    let u = pow2(149) as int;
    lemma2_to64();
    lemma_pow2_pos(149);
    lemma_pow2_pos((e - 1) as nat);
    lemma_pow2_adds(23, (e - 1) as nat);
    lemma_pow2_adds(7, 149);
    if e > 134 {
        lemma_pow2_strictly_increases(156, (e + 22) as nat);
    }
    assert(m * h >= 0x80_0000 * h) by (nonlinear_arith)
        requires
            m >= 0x80_0000,
            h > 0,
    ;
    assert(m * h >= 128 * u);
    lemma_div_is_ordered(128 * (2 * u), 2 * (m * h) + u, 2 * u);
    lemma_div_multiples_vanish(128, 2 * u);
}

/// Rounds `x` to the nearest integer, halves away from zero, and clamps it to
/// `-limit ..= limit`. A NaN gives zero.
pub fn round_clamped(x: u32, limit: u8) -> (r: i32)
    requires
        limit <= 127,
    ensures
        r == rounded(x, limit as int),
        -limit <= r <= limit,
{
    let bare: u32 = absolute(x);
    proof {
        lemma_sign_split(x);
    }
    if bare > INFINITY {
        return 0;
    }
    let exp: u32 = bare / 0x80_0000;
    let full: u32 = 0x80_0000 + bare % 0x80_0000;
    let most: i32 = limit as i32;
    let near: i32 = if exp < 126 {
        proof {
            lemma_nearest_below(x);
        }
        0
    } else if exp >= 134 {
        proof {
            lemma_nearest_above(x);
        }
        most
    } else {
        let shift: u32 = 150 - exp;
        let ghost half = pow2((149 - exp) as nat);
        proof {
            lemma2_to64();
            lemma2_to64_rest();
            lemma_nearest_in_range(x);
            vstd::bits::lemma_u32_shl_is_mul(1, (shift - 1) as u32);
            assert(full + half <= 0x200_0000);
            vstd::bits::lemma_u32_shr_is_div((full + half) as u32, shift);
        }
        let whole: u32 = (full + (1u32 << (shift - 1))) >> shift;
        assert(whole == nearest_integer(units(x)));
        if whole > limit as u32 {
            most
        } else {
            whole as i32
        }
    };
    if x < SIGN {
        near
    } else {
        -near
    }
}

/// Inverts the sign of `x`, as the unary minus does.
pub fn negated(x: u32) -> (r: u32)
    ensures
        r == flipped(x),
{
    if x < SIGN {
        x + SIGN
    } else {
        x - SIGN
    }
}

/// Inverting the sign bit changes nothing else.
pub proof fn lemma_flipped(x: u32)
    ensures
        negative(flipped(x)) == !negative(x),
        magnitude(flipped(x)) == magnitude(x),
        units(flipped(x)) == units(x),
{
    lemma_sign_split(x);
    lemma_sign_split(flipped(x));
}

/// Adding one to the exponent doubles a normal number.
proof fn lemma_doubled(x: u32, r: u32)
    requires
        1 <= exponent(x) < 254,
        r == x + 0x80_0000,
    ensures
        negative(r) == negative(x),
        is_finite(r),
        units(r) == 2 * units(x),
{
    lemma_sign_split(x);
    lemma_sign_split(r);
    assert(exponent(r) == exponent(x) + 1);
    assert(mantissa(r) == mantissa(x));
    lemma_pow2_unfold(exponent(x) as nat);
    let m = 0x80_0000 + mantissa(x);
    let h = pow2((exponent(x) - 1) as nat) as int;
    assert(m * (2 * h) == 2 * (m * h)) by (nonlinear_arith);
}

/// Multiplies `d` by one of `-1`, `0`, `1` and `2`, none of which rounds.
pub(crate) fn small_multiple(w: i32, d: u32) -> (r: u32)
    requires
        -1 <= w <= 2,
        is_finite(d) ==> magnitude(d) == 0 || 1 <= exponent(d) < 254,
    ensures
        is_exact_multiple(w as int, d, r),
{
    let bare: u32 = absolute(d);
    proof {
        lemma_sign_split(d);
        lemma_flipped(d);
    }
    if bare > INFINITY {
        d
    } else if w == -1 {
        negated(d)
    } else if w == 0 {
        if bare == INFINITY {
            QUIET_NAN
        } else {
            d - bare
        }
    } else if w == 1 || bare == INFINITY || bare == 0 {
        d
    } else {
        proof {
            lemma_doubled(d, (d + 0x80_0000) as u32);
        }
        d + 0x80_0000
    }
}

/// The nearest integer to an absolute value is zero below one half, and positive
/// from there on.
proof fn lemma_nearest_half(u: int)
    requires
        u >= 0,
    ensures
        nearest_integer(u) >= 0,
        nearest_integer(u) == 0 <==> u < pow2(148),
{
    let one = pow2(149) as int;
    lemma_pow2_pos(149);
    lemma_pow2_unfold(149);
    lemma_div_pos_is_pos(2 * u + one, 2 * one);
    if u < pow2(148) {
        lemma_basic_div(2 * u + one, 2 * one);
    } else {
        lemma_div_is_ordered(2 * one, 2 * u + one, 2 * one);
        lemma_div_by_self(2 * one);
    }
}

/// An absolute value is not negative.
pub proof fn lemma_units_nonnegative(x: u32)
    ensures
        units(x) >= 0,
{
    lemma_sign_split(x);
    if exponent(x) > 0 {
        let m = 0x80_0000 + mantissa(x);
        let h = pow2((exponent(x) - 1) as nat) as int;
        assert(m * h >= 0) by (nonlinear_arith)
            requires
                m >= 0,
                h >= 0,
        ;
    }
}

/// Rounding stays within its limit, gives zero exactly to a NaN and to what is
/// below one half in magnitude, and otherwise keeps the sign.
pub proof fn law_rounded(x: u32, limit: int)
    requires
        limit >= 1,
    ensures
        -limit <= rounded(x, limit) <= limit,
        rounded(x, limit) == 0 <==> is_nan(x) || (is_finite(x) && units(x) < pow2(148)),
        rounded(x, limit) < 0 ==> negative(x),
        rounded(x, limit) > 0 ==> !negative(x),
{
    lemma_units_nonnegative(x);
    lemma_nearest_half(units(x));
}

/// Rounding mirrors: a number of the opposite sign is rounded to the opposite
/// integer.
pub proof fn law_rounded_mirrored(x: u32, y: u32, limit: int)
    requires
        magnitude(x) == magnitude(y),
        negative(x) != negative(y),
    ensures
        rounded(y, limit) == -rounded(x, limit),
{
}

/// No two numbers are the largest magnitude of the same elements.
pub proof fn law_max_magnitude_unique(xs: Seq<u32>, a: u32, b: u32)
    requires
        is_max_magnitude(xs, a),
        is_max_magnitude(xs, b),
    ensures
        a == b,
{
    if a > b {
        let e = choose|e: int|
            0 <= e < xs.len() && !is_nan(#[trigger] xs[e]) && magnitude(xs[e]) == a;
        assert(magnitude(xs[e]) <= b);
    } else if b > a {
        let e = choose|e: int|
            0 <= e < xs.len() && !is_nan(#[trigger] xs[e]) && magnitude(xs[e]) == b;
        assert(magnitude(xs[e]) <= a);
    }
}

/// The pattern of one stands for the integer one.
pub proof fn law_one()
    ensures
        is_integer(1, ONE),
{
    lemma_sign_split(ONE);
    lemma2_to64();
    lemma_pow2_adds(23, 126);
}

} // verus!
