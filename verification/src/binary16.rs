//! Half-precision numbers as bit patterns, and their exact widening.
//!
//! The scale of a quantised block is stored as the 16-bit pattern of its IEEE
//! 754 binary16 encoding: one sign bit, five exponent bits, ten mantissa bits.
use crate::binary32;
use vstd::arithmetic::mul::*;
use vstd::arithmetic::power2::*;
use vstd::prelude::*;

verus! {

/// Whether the sign bit of `h` is set.
pub open spec fn negative(h: u16) -> bool {
    h >= 0x8000
}

/// The pattern of the absolute value of `h`.
pub open spec fn magnitude(h: u16) -> int {
    h as int % 0x8000
}

/// The biased exponent of `h`.
pub open spec fn exponent(h: u16) -> int {
    magnitude(h) / 0x400
}

/// The stored mantissa bits of `h`.
pub open spec fn mantissa(h: u16) -> int {
    magnitude(h) % 0x400
}

/// Whether `h` is a NaN.
pub open spec fn is_nan(h: u16) -> bool {
    magnitude(h) > 0x7c00
}

/// Whether `h` is one of the two infinities.
pub open spec fn is_infinite(h: u16) -> bool {
    magnitude(h) == 0x7c00
}

/// Whether `h` is a number other than the infinities.
pub open spec fn is_finite(h: u16) -> bool {
    magnitude(h) < 0x7c00
}

/// The absolute value of a finite `h`, in units of `2^-24`, the smallest
/// positive half-precision number.
pub open spec fn units(h: u16) -> int {
    if exponent(h) == 0 {
        mantissa(h)
    } else {
        (0x400 + mantissa(h)) * pow2((exponent(h) - 1) as nat)
    }
}

/// The value of a finite `h`, in units of `2^-24`.
pub open spec fn value(h: u16) -> int {
    if negative(h) {
        -units(h)
    } else {
        units(h)
    }
}

/// Whether `a` and `b` are the same number: a NaN is none, and both zeros are one.
pub open spec fn same_number(a: u16, b: u16) -> bool {
    &&& !is_nan(a)
    &&& !is_nan(b)
    &&& a == b || (magnitude(a) == 0 && magnitude(b) == 0)
}

/// Tests whether `a` and `b` are the same number.
pub fn equal(a: u16, b: u16) -> (r: bool)
    ensures
        r == same_number(a, b),
{
    let x: u16 = a % 0x8000;
    let y: u16 = b % 0x8000;
    x <= 0x7c00 && y <= 0x7c00 && (a == b || (x == 0 && y == 0))
}

/// `r` is the single-precision number equal to the half-precision number `h`:
/// of the same sign, of the same value, an infinity for an infinity, and for a
/// NaN the quiet NaN that keeps its mantissa bits.
pub open spec fn is_widened(h: u16, r: u32) -> bool {
    &&& binary32::negative(r) == negative(h)
    &&& is_finite(h) ==> binary32::is_finite(r) && binary32::units(r) == units(h) * pow2(125)
    &&& is_infinite(h) ==> binary32::is_infinite(r)
    &&& is_nan(h) ==> binary32::magnitude(r) == 0x7fc0_0000 + (mantissa(h) % 0x200) * 0x2000
}

/// The single-precision number equal to the half-precision number `h`.
pub open spec fn widened(h: u16) -> u32 {
    choose|r: u32| is_widened(h, r)
}

/// Moving `s` places from the exponent into the mantissa keeps the value.
proof fn lemma_rescaled(m: int, e: nat, s: nat)
    requires
        s <= 125,
    ensures
        (m * pow2(s)) * pow2((e + 125 - s) as nat) == (m * pow2(e)) * pow2(125),
{
    lemma_pow2_adds(s, (e + 125 - s) as nat);
    lemma_pow2_adds(e, 125);
    lemma_mul_is_associative(m, pow2(s) as int, pow2((e + 125 - s) as nat) as int);
    lemma_mul_is_associative(m, pow2(e) as int, pow2(125) as int);
}

/// The sign bit of `h`, moved to its place in single precision.
spec fn moved_sign(h: u16) -> int {
    if negative(h) {
        0x8000_0000
    } else {
        0
    }
}

/// A normal number is widened by moving its fields.
proof fn lemma_widened_normal(h: u16, r: u32)
    requires
        1 <= exponent(h) < 0x1f,
        r == moved_sign(h) + (exponent(h) + 112) * 0x80_0000 + mantissa(h) * 0x2000,
    ensures
        is_widened(h, r),
{
    binary32::lemma_sign_split(r);
    assert(binary32::exponent(r) == exponent(h) + 112);
    assert(binary32::mantissa(r) == mantissa(h) * 0x2000);
    lemma2_to64();
    lemma_rescaled(0x400 + mantissa(h), (exponent(h) - 1) as nat, 13);
}

/// A subnormal number is widened by shifting its mantissa up to the hidden bit.
proof fn lemma_widened_subnormal(h: u16, full: int, moved: nat, r: u32)
    requires
        exponent(h) == 0,
        moved <= 10,
        full == mantissa(h) * pow2(moved),
        0x400 <= full < 0x800,
        r == moved_sign(h) + (113 - moved) * 0x80_0000 + (full - 0x400) * 0x2000,
    ensures
        is_widened(h, r),
{
    let man = mantissa(h);
    binary32::lemma_sign_split(r);
    assert(binary32::exponent(r) == 113 - moved);
    assert(binary32::mantissa(r) == (full - 0x400) * 0x2000);
    lemma2_to64();
    lemma_pow2_adds(moved, 13);
    lemma_mul_is_associative(man, pow2(moved) as int, pow2(13) as int);
    assert(0x80_0000 + binary32::mantissa(r) == man * pow2((moved + 13) as nat));
    lemma_rescaled(man, 0, (moved + 13) as nat);
    assert(pow2(0) == 1);
}

/// One place of shifting doubles the mantissa, and ten are enough.
proof fn lemma_shift_step(man: int, moved: nat)
    requires
        0 < man,
        moved <= 10,
        man * pow2(moved) < 0x400,
    ensures
        man * pow2(moved + 1) == 2 * (man * pow2(moved)),
        moved < 10,
{
    lemma_pow2_unfold(moved + 1);
    let p = pow2(moved) as int;
    assert(man * (2 * p) == 2 * (man * p)) by (nonlinear_arith);
    lemma2_to64();
    if moved == 10 {
        assert(man * 1024 >= 1024) by (nonlinear_arith)
            requires
                man > 0,
        ;
    }
}

proof fn lemma_subnormal_has_widened(h: u16, full: int, moved: nat)
    requires
        exponent(h) == 0,
        mantissa(h) > 0,
        moved <= 10,
        full == mantissa(h) * pow2(moved),
        0 < full < 0x800,
    ensures
        exists|r: u32| is_widened(h, r),
    decreases 0x800 - full,
{
    if full < 0x400 {
        lemma_shift_step(mantissa(h), moved);
        lemma_subnormal_has_widened(h, 2 * full, moved + 1);
    } else {
        let r = (moved_sign(h) + (113 - moved) * 0x80_0000 + (full - 0x400) * 0x2000) as u32;
        lemma_widened_subnormal(h, full, moved, r);
    }
}

/// Every half-precision number has a widened pattern.
pub proof fn law_widened(h: u16)
    ensures
        is_widened(h, widened(h)),
{
    let sign = moved_sign(h);
    let man = mantissa(h);
    if exponent(h) == 0x1f {
        let r = if man == 0 {
            sign + 0x7f80_0000
        } else {
            sign + 0x7fc0_0000 + (man % 0x200) * 0x2000
        };
        binary32::lemma_sign_split(r as u32);
        assert(is_widened(h, r as u32));
    } else if exponent(h) > 0 {
        let r = sign + (exponent(h) + 112) * 0x80_0000 + man * 0x2000;
        lemma_widened_normal(h, r as u32);
    } else if man == 0 {
        binary32::lemma_sign_split(sign as u32);
        lemma_mul_basics(pow2(125) as int);
        assert(is_widened(h, sign as u32));
    } else {
        lemma2_to64();
        lemma_subnormal_has_widened(h, man, 0);
    }
}

/// Widens the half-precision number `h` to single precision. No half-precision
/// number is changed by this.
pub fn widen(h: u16) -> (r: u32)
    ensures
        r == widened(h),
        is_widened(h, r),
{
    let sign: u32 = if h < 0x8000 {
        0
    } else {
        0x8000_0000
    };
    let bare: u32 = if h < 0x8000 {
        h as u32
    } else {
        (h - 0x8000) as u32
    };
    let exp: u32 = bare / 0x400;
    let man: u32 = bare % 0x400;
    let r: u32 = if exp == 0x1f {
        if man == 0 {
            sign + 0x7f80_0000
        } else {
            sign + 0x7fc0_0000 + (man % 0x200) * 0x2000
        }
    } else if exp == 0 {
        if man == 0 {
            proof {
                lemma_mul_basics(pow2(125) as int);
            }
            sign
        } else {
            widen_subnormal(h, sign, man)
        }
    } else {
        proof {
            lemma_widened_normal(
                h,
                (sign + (exp + 112) * 0x80_0000 + man * 0x2000) as u32,
            );
        }
        sign + (exp + 112) * 0x80_0000 + man * 0x2000
    };
    proof {
        binary32::lemma_sign_split(r);
        assert(is_widened(h, r));
        law_widened_unique(h, r, widened(h));
    }
    r
}

/// Widens a subnormal number by shifting its mantissa up to the hidden bit.
fn widen_subnormal(h: u16, sign: u32, man: u32) -> (r: u32)
    requires
        sign == moved_sign(h),
        exponent(h) == 0,
        0 < man == mantissa(h),
    ensures
        is_widened(h, r),
{
    let mut full: u32 = man;
    let mut exp: u32 = 113;
    let ghost mut moved: nat = 0;
    proof {
        lemma2_to64();
    }
    while full < 0x400
        invariant
            0 < man < 0x400,
            0 < full < 0x800,
            full == man * pow2(moved),
            moved <= 10,
            exp + moved == 113,
        decreases 0x800 - full,
    {
        proof {
            lemma_shift_step(man as int, moved);
            moved = moved + 1;
        }
        full = full * 2;
        exp = exp - 1;
    }
    let r: u32 = sign + exp * 0x80_0000 + (full - 0x400) * 0x2000;
    proof {
        lemma_widened_subnormal(h, full as int, moved, r);
    }
    r
}

/// A widened number is zero or normal, and doubling it does not overflow.
pub(crate) proof fn lemma_widened_range(h: u16, r: u32)
    requires
        is_widened(h, r),
    ensures
        is_nan(h) ==> binary32::is_nan(r),
        binary32::is_finite(r) ==> binary32::magnitude(r) == 0 || 1 <= binary32::exponent(r) < 254,
{
    binary32::lemma_sign_split(r);
    if is_finite(h) && binary32::magnitude(r) != 0 {
        let e = exponent(h);
        let m = 0x400 + mantissa(h);
        lemma2_to64();
        lemma_pow2_pos(125);
        lemma_pow2_strictly_increases(24, 125);
        if binary32::exponent(r) == 0 {
            let u = units(h);
            let p = pow2(125) as int;
            assert(u * p >= p || u <= 0) by (nonlinear_arith)
                requires
                    p > 0,
            ;
            assert(u * p <= 0 || u > 0) by (nonlinear_arith)
                requires
                    p > 0,
            ;
            assert(false);
        }
        if binary32::exponent(r) >= 254 {
            lemma_units_bound(h);
            let p = pow2(125) as int;
            let q = pow2((binary32::exponent(r) - 1) as nat) as int;
            let u = units(h);
            let f = 0x80_0000 + binary32::mantissa(r);
            lemma_pow2_adds(41, 125);
            assert(u * p < pow2(41) * p) by (nonlinear_arith)
                requires
                    u < pow2(41),
                    p > 0,
            ;
            lemma_pow2_strictly_increases(166, (binary32::exponent(r) - 1) as nat);
            assert(f * q >= q) by (nonlinear_arith)
                requires
                    f >= 1,
                    q > 0,
            ;
        }
    }
}

/// Half-precision numbers are below `2^17`.
pub proof fn lemma_units_bound(h: u16)
    requires
        is_finite(h),
    ensures
        0 <= units(h) < pow2(41),
{
    let e = exponent(h);
    lemma2_to64();
    lemma2_to64_rest();
    if e > 0 {
        let m = 0x400 + mantissa(h);
        let p = pow2((e - 1) as nat) as int;
        lemma_pow2_pos((e - 1) as nat);
        if e < 30 {
            lemma_pow2_strictly_increases((e - 1) as nat, 29);
        }
        assert(0 <= m * p <= 0x7ff * pow2(29)) by (nonlinear_arith)
            requires
                0 < m <= 0x7ff,
                0 < p <= pow2(29),
        ;
    }
}

/// `r` is the single-precision product of the integer `w` and the
/// half-precision number `h`, which needs no rounding, with the sign of zero
/// and the treatment of infinities and NaNs that IEEE 754 gives it.
pub open spec fn is_exact_multiple(w: int, h: u16, r: u32) -> bool {
    if is_nan(h) || (is_infinite(h) && w == 0) {
        binary32::is_nan(r)
    } else {
        &&& binary32::negative(r) == (negative(h) != (w < 0))
        &&& is_infinite(h) ==> binary32::is_infinite(r)
        &&& is_finite(h) ==> binary32::is_finite(r) && binary32::value(r) == w * value(h) * pow2(
            125,
        )
    }
}

/// Widening a finite number keeps its value.
pub proof fn lemma_widened_value(h: u16)
    requires
        is_finite(h),
    ensures
        binary32::value(widened(h)) == value(h) * pow2(125),
{
    law_widened(h);
    let u = units(h);
    let p = pow2(125) as int;
    assert((-u) * p == -(u * p)) by (nonlinear_arith);
}

/// Widening is a function: no half-precision number has two widened patterns.
pub proof fn law_widened_unique(h: u16, a: u32, b: u32)
    requires
        is_widened(h, a),
        is_widened(h, b),
    ensures
        a == b,
{
    binary32::lemma_sign_split(a);
    binary32::lemma_sign_split(b);
    if is_finite(h) {
        binary32::law_magnitude_order(a, b);
    }
}

/// Widening loses nothing: distinct half-precision numbers other than NaNs have
/// distinct widened patterns.
pub proof fn law_widened_injective(g: u16, h: u16, r: u32)
    requires
        is_widened(g, r),
        is_widened(h, r),
        !is_nan(g),
    ensures
        g == h,
{
    lemma_widened_range(h, r);
    lemma_widened_range(g, r);
    if is_finite(g) {
        let p = pow2(125) as int;
        lemma_pow2_pos(125);
        assert(units(g) == units(h)) by (nonlinear_arith)
            requires
                units(g) * p == units(h) * p,
                p > 0,
        ;
        lemma_units_strict(g, h);
    }
}

/// Finite half-precision numbers of the same absolute value have the same
/// magnitude pattern.
pub(crate) proof fn lemma_units_strict(g: u16, h: u16)
    requires
        is_finite(g),
        is_finite(h),
        units(g) == units(h),
    ensures
        magnitude(g) == magnitude(h),
{
    if magnitude(g) < magnitude(h) {
        lemma_units_order(g, h);
    } else if magnitude(h) < magnitude(g) {
        lemma_units_order(h, g);
    }
}

/// Half-precision magnitudes are ordered as their patterns are.
pub(crate) proof fn lemma_units_order(a: u16, b: u16)
    requires
        magnitude(a) < magnitude(b),
    ensures
        units(a) < units(b),
{
    let ea = exponent(a);
    let eb = exponent(b);
    let ma = 0x400 + mantissa(a);
    let mb = 0x400 + mantissa(b);
    lemma2_to64();
    if eb > 0 {
        lemma_pow2_pos((eb - 1) as nat);
        let pb = pow2((eb - 1) as nat) as int;
        assert(mb * pb >= 0x400 * pb) by (nonlinear_arith)
            requires
                mb >= 0x400,
                pb > 0,
        ;
        if ea == eb {
            assert(ma * pb < mb * pb) by (nonlinear_arith)
                requires
                    ma < mb,
                    pb > 0,
            ;
        } else if ea > 0 {
            let pa = pow2((ea - 1) as nat) as int;
            lemma_pow2_pos((ea - 1) as nat);
            lemma_pow2_unfold(ea as nat);
            if ea < eb - 1 {
                lemma_pow2_strictly_increases(ea as nat, (eb - 1) as nat);
            }
            assert(ma * pa < 0x400 * pb) by (nonlinear_arith)
                requires
                    ma < 0x800,
                    pa > 0,
                    2 * pa <= pb,
            ;
        }
    }
}

/// A multiple of the widened number is a multiple of the number.
pub(crate) proof fn lemma_multiple_of_widened(w: int, h: u16, r: u32)
    requires
        binary32::is_exact_multiple(w, widened(h), r),
    ensures
        is_exact_multiple(w, h, r),
{
    law_widened(h);
    lemma_widened_range(h, widened(h));
    if is_finite(h) {
        let p = pow2(125) as int;
        lemma_widened_value(h);
        lemma_mul_is_associative(w, value(h), p);
    }
}

/// A positive number, infinity among them, widens to a positive number.
pub(crate) proof fn lemma_widened_positive(h: u16, r: u32)
    requires
        0 < h <= 0x7c00,
        is_widened(h, r),
    ensures
        0 < r <= binary32::INFINITY,
{
    binary32::lemma_sign_split(r);
    if is_finite(h) && r == 0 {
        let u = units(h);
        let p = pow2(125) as int;
        lemma_pow2_pos(125);
        if exponent(h) > 0 {
            let m = 0x400 + mantissa(h);
            let q = pow2((exponent(h) - 1) as nat) as int;
            lemma_pow2_pos((exponent(h) - 1) as nat);
            assert(m * q > 0) by (nonlinear_arith)
                requires
                    m > 0,
                    q > 0,
            ;
        }
        assert(u * p > 0) by (nonlinear_arith)
            requires
                u > 0,
                p > 0,
        ;
    }
}

/// One is one in both precisions.
pub(crate) proof fn lemma_widened_one()
    ensures
        widened(0x3c00) == binary32::ONE,
{
    assert(exponent(0x3c00) == 15 && mantissa(0x3c00) == 0);
    lemma_widened_normal(0x3c00, binary32::ONE);
    law_widened(0x3c00);
    law_widened_unique(0x3c00, binary32::ONE, widened(0x3c00));
}

} // verus!
