//! What the laws ask of the conversion to half precision: that it rounds to the
//! nearest number and halves to the even one, as IEEE 754 has it.
use crate::arith::Narrowing;
use crate::binary16;
use crate::binary32;
use crate::ieee::size;
use vstd::arithmetic::power2::*;
use vstd::prelude::*;

verus! {

/// The pattern of `65520.0`, half way from the largest half-precision number to
/// `2^16`: from here on a number is narrowed to infinity.
pub const LIMIT: u32 = 0x477f_f000;

/// How far the absolute values of `h` and `x` are apart, in units of `2^-149`.
pub open spec fn distance(h: u16, x: u32) -> int {
    size(binary16::units(h) * pow2(125) - binary32::units(x))
}

/// `h` is the number `x` in half precision: rounded to the nearest number, and of
/// two that are equally near to the one with an even mantissa.
pub open spec fn is_narrowed(x: u32, h: u16) -> bool {
    if binary32::is_nan(x) {
        binary16::is_nan(h)
    } else {
        &&& binary16::negative(h) == binary32::negative(x)
        &&& if binary32::magnitude(x) >= LIMIT {
            binary16::is_infinite(h)
        } else {
            &&& binary16::is_finite(h)
            &&& forall|k: u16|
                #![trigger binary16::units(k)]
                binary16::is_finite(k) ==> {
                    &&& distance(h, x) <= distance(k, x)
                    &&& distance(h, x) == distance(k, x) && binary16::magnitude(h)
                        != binary16::magnitude(k) ==> binary16::magnitude(h) % 2 == 0
                }
        }
    }
}

/// `g` converts to half precision. Which NaN a NaN becomes stays open.
pub open spec fn is_narrowing(g: Narrowing) -> bool {
    forall|x: u32| is_narrowed(x, #[trigger] g(x))
}

/// The largest half-precision number, and the limit, in units.
proof fn lemma_limit()
    ensures
        binary32::units(LIMIT) == 4095 * pow2(153),
        binary16::units(0x7bff) * pow2(125) == 4094 * pow2(153),
        binary32::is_finite(LIMIT),
        binary32::magnitude(LIMIT) == LIMIT,
        pow2(153) > 0,
{
    binary32::lemma_sign_split(LIMIT);
    lemma2_to64();
    lemma2_to64_rest();
    lemma_pow2_pos(153);
    assert(binary32::exponent(LIMIT) == 142);
    assert(0x80_0000 + binary32::mantissa(LIMIT) == 4095 * 0x1000);
    lemma_pow2_adds(12, 141);
    let p = pow2(141) as int;
    assert((4095 * 0x1000) * p == 4095 * (0x1000 * p)) by (nonlinear_arith);
    assert(binary16::exponent(0x7bff) == 30 && binary16::mantissa(0x7bff) == 0x3ff);
    lemma_pow2_adds(29, 125);
    lemma_pow2_unfold(154);
    let (q, t) = (pow2(29) as int, pow2(125) as int);
    assert((2047 * q) * t == 2047 * (q * t)) by (nonlinear_arith);
}

/// A finite half-precision number lies below the limit.
proof fn lemma_below_limit(k: u16)
    requires
        binary16::is_finite(k),
    ensures
        binary16::units(k) * pow2(125) <= 4094 * pow2(153),
{
    let (u, t, p) = (binary16::units(k), binary16::units(0x7bff), pow2(125) as int);
    lemma_limit();
    lemma_pow2_pos(125);
    assert(u <= t) by {
        if binary16::magnitude(k) < 0x7bff {
            binary16::lemma_units_order(k, 0x7bff);
        }
    }
    assert(u * p <= t * p) by (nonlinear_arith)
        requires
            u <= t,
            p > 0,
    ;
}

/// What half precision holds is narrowed to itself.
pub(crate) proof fn lemma_held(g: Narrowing, h: u16)
    requires
        is_narrowing(g),
        !binary16::is_nan(h),
    ensures
        g(binary16::widened(h)) == h,
{
    let x = binary16::widened(h);
    let k = g(x);
    let p = pow2(125) as int;
    binary16::law_widened(h);
    assert(is_narrowed(x, k));
    lemma_limit();
    if binary16::is_finite(h) {
        lemma_below_limit(h);
        binary32::law_magnitude_order(x, LIMIT);
        assert(distance(k, x) <= distance(h, x));
        let (u, v) = (binary16::units(k), binary16::units(h));
        lemma_pow2_pos(125);
        assert(u == v) by (nonlinear_arith)
            requires
                u * p == v * p,
                p > 0,
        ;
        binary16::lemma_units_strict(k, h);
    }
}

/// A half-precision number is what a number that equals it is narrowed to.
pub(crate) proof fn lemma_exact(x: u32, h: u16)
    requires
        binary16::is_finite(h),
        binary32::is_finite(x),
        binary32::negative(x) == binary16::negative(h),
        binary32::units(x) == binary16::units(h) * pow2(125),
    ensures
        is_narrowed(x, h),
{
    let p = pow2(125) as int;
    lemma_limit();
    lemma_below_limit(h);
    lemma_pow2_pos(125);
    binary32::law_magnitude_order(x, LIMIT);
    assert forall|k: u16| #![trigger binary16::units(k)] binary16::is_finite(k) implies {
        &&& distance(h, x) <= distance(k, x)
        &&& distance(h, x) == distance(k, x) && binary16::magnitude(h) != binary16::magnitude(k)
            ==> binary16::magnitude(h) % 2 == 0
    } by {
        let (u, v) = (binary16::units(h), binary16::units(k));
        if v * p == u * p {
            assert(u == v) by (nonlinear_arith)
                requires
                    v * p == u * p,
                    p > 0,
            ;
            binary16::lemma_units_strict(k, h);
        }
    }
}

/// Narrowing crosses no half-precision number.
pub(crate) proof fn lemma_neighbour(x: u32, h: u16, k: u16)
    requires
        is_narrowed(x, h),
        binary32::is_finite(x),
        binary16::is_finite(k),
    ensures
        binary16::units(k) * pow2(125) <= binary32::units(x) ==> binary16::magnitude(k)
            <= binary16::magnitude(h),
        binary16::units(k) * pow2(125) >= binary32::units(x) ==> binary16::magnitude(h)
            <= binary16::magnitude(k),
{
    let (u, v, p) = (binary16::units(h), binary16::units(k), pow2(125) as int);
    lemma_limit();
    lemma_below_limit(k);
    lemma_pow2_pos(125);
    binary32::law_magnitude_order(x, LIMIT);
    if binary32::magnitude(x) < LIMIT {
        assert(distance(h, x) <= distance(k, x));
        assert((u < v ==> u * p < v * p) && (u > v ==> u * p > v * p)) by (nonlinear_arith)
            requires
                p > 0,
        ;
        if binary16::magnitude(h) < binary16::magnitude(k) {
            binary16::lemma_units_order(h, k);
        } else if binary16::magnitude(k) < binary16::magnitude(h) {
            binary16::lemma_units_order(k, h);
        }
    }
}

/// The largest half-precision number up to `most` that does not exceed `x` in
/// absolute value.
proof fn lemma_largest_below(x: u32, most: u16) -> (h: u16)
    requires
        most < 0x7c00,
    ensures
        h <= most,
        binary16::units(h) * pow2(125) <= binary32::units(x),
        forall|k: u16|
            #![trigger binary16::units(k)]
            h < binary16::magnitude(k) <= most ==> binary16::units(k) * pow2(125)
                > binary32::units(x),
    decreases most,
{
    let p = pow2(125) as int;
    binary32::lemma_units_nonnegative(x);
    if binary16::units(most) * p <= binary32::units(x) {
        most
    } else if most == 0 {
        assert(binary16::units(0) == 0);
        assert(0 * p == 0) by (nonlinear_arith);
        0
    } else {
        let h = lemma_largest_below(x, (most - 1) as u16);
        assert forall|k: u16|
            #![trigger binary16::units(k)]
            h < binary16::magnitude(k) <= most implies binary16::units(k) * pow2(125)
            > binary32::units(x) by {
            if binary16::magnitude(k) == most {
                assert(binary16::units(k) == binary16::units(most));
            }
        }
        h
    }
}

/// The gap above a finite number is one unit, or at most `2^-10` of a normal
/// number.
proof fn lemma_gap(h: u16) -> (g: int)
    requires
        h < 0x7bff,
    ensures
        g > 0,
        binary16::units((h + 1) as u16) == binary16::units(h) + g,
        g == 1 || 0x400 * g <= binary16::units(h),
{
    let k = (h + 1) as u16;
    lemma2_to64();
    let e = binary16::exponent(h);
    if e == 0 {
        1
    } else {
        let g = pow2((e - 1) as nat) as int;
        let m = 0x400 + binary16::mantissa(h);
        lemma_pow2_pos((e - 1) as nat);
        assert((m + 1) * g == m * g + g) by (nonlinear_arith);
        assert(0x400 * g <= m * g) by (nonlinear_arith)
            requires
                m >= 0x400,
                g > 0,
        ;
        if m == 0x7ff {
            lemma_pow2_unfold(e as nat);
            assert(binary16::exponent(k) == e + 1);
            assert(0x400 * (2 * g) == (0x7ff + 1) * g) by (nonlinear_arith);
        }
        g
    }
}

/// A narrowed number is off by at most `2^-11` of it, or by at most `2^-25`.
pub proof fn law_narrowed_near(x: u32, h: u16)
    requires
        is_narrowed(x, h),
        binary32::magnitude(x) < LIMIT,
    ensures
        binary16::is_finite(h),
        distance(h, x) * 2048 <= binary32::units(x) || distance(h, x) * 2 <= pow2(125),
{
    let p = pow2(125) as int;
    lemma_pow2_pos(125);
    lemma_limit();
    binary32::law_magnitude_order(x, LIMIT);
    let a = lemma_largest_below(x, 0x7bff);
    let d = distance(h, x);
    assert(d <= distance(a, x)) by {
        assert(binary16::units(a) == binary16::units(a));
    }
    if a < 0x7bff {
        let b = (a + 1) as u16;
        let g = lemma_gap(a);
        let (u, v) = (binary16::units(a), binary16::units(b));
        assert(d <= distance(b, x));
        assert(v * p == u * p + g * p) by (nonlinear_arith)
            requires
                v == u + g,
        ;
        assert(d * 2 <= g * p);
        if g == 1 {
            assert(1 * p == p) by (nonlinear_arith);
        } else {
            assert(0x400 * (g * p) <= u * p) by (nonlinear_arith)
                requires
                    0x400 * g <= u,
                    p > 0,
            ;
        }
    }
}

/// The largest half-precision number, in units, and how far the limit is from it.
pub(crate) proof fn lemma_largest()
    ensures
        binary16::widened(0x7bff) < LIMIT,
        binary32::units(binary16::widened(0x7bff)) == 4094 * pow2(153),
        binary32::units(LIMIT) == 4095 * pow2(153),
        binary32::magnitude(LIMIT) == LIMIT,
        pow2(153) > 0,
{
    let x = binary16::widened(0x7bff);
    binary16::law_widened(0x7bff);
    lemma_limit();
    binary32::lemma_sign_split(x);
    binary32::law_magnitude_order(x, LIMIT);
}

/// Numbers that half precision has room for are below `2^17`.
pub(crate) proof fn lemma_units_bound(x: u32)
    requires
        binary32::magnitude(x) < LIMIT,
    ensures
        binary32::units(x) <= pow2(166),
{
    lemma_limit();
    lemma_pow2_adds(13, 153);
    lemma2_to64();
    binary32::law_magnitude_order(x, LIMIT);
}

/// The smallest normal half-precision number, in units.
pub(crate) proof fn lemma_smallest_normal()
    ensures
        binary16::widened(0x400) < LIMIT,
        binary32::units(binary16::widened(0x400)) == 1024 * pow2(125),
{
    let x = binary16::widened(0x400);
    binary16::law_widened(0x400);
    lemma2_to64();
    assert(binary16::exponent(0x400) == 1 && binary16::mantissa(0x400) == 0);
    lemma_limit();
    lemma_below_limit(0x400);
    binary32::lemma_sign_split(x);
    binary32::law_magnitude_order(x, LIMIT);
}

/// A number that is not negative can be narrowed.
proof fn lemma_narrowable(x: u32) -> (h: u16)
    requires
        x < LIMIT,
    ensures
        h < 0x7c00,
        is_narrowed(x, h),
{
    let p = pow2(125) as int;
    lemma_pow2_pos(125);
    binary32::lemma_sign_split(x);
    let a = lemma_largest_below(x, 0x7bff);
    let b = (a + 1) as u16;
    let (below, above) = (distance(a, x), distance(b, x));
    let h = if a == 0x7bff || below < above || (below == above && a % 2 == 0) {
        a
    } else {
        b
    };
    assert forall|k: u16| #![trigger binary16::units(k)] binary16::is_finite(k) implies {
        &&& distance(h, x) <= distance(k, x)
        &&& distance(h, x) == distance(k, x) && binary16::magnitude(h) != binary16::magnitude(k)
            ==> binary16::magnitude(h) % 2 == 0
    } by {
        let (u, v, w) = (binary16::units(a), binary16::units(b), binary16::units(k));
        if binary16::magnitude(k) < a {
            binary16::lemma_units_order(k, a);
        } else if a < binary16::magnitude(k) {
            assert(v * p > binary32::units(x));
            if b < binary16::magnitude(k) {
                binary16::lemma_units_order(b, k);
            }
        }
        assert((w < u ==> w * p < u * p) && (w > v ==> w * p > v * p)) by (nonlinear_arith)
            requires
                p > 0,
        ;
    }
    h
}

/// A narrowing that picks some result.
pub open spec fn some_narrowing() -> Narrowing {
    |x: u32| choose|h: u16| is_narrowed(x, h)
}

/// There is a narrowing of this kind: what the laws ask of it can be had.
pub proof fn law_narrowing_exists()
    ensures
        is_narrowing(some_narrowing()),
{
    let g = some_narrowing();
    assert forall|x: u32| is_narrowed(x, #[trigger] g(x)) by {
        let bare = binary32::magnitude(x) as u32;
        binary32::lemma_sign_split(x);
        binary32::lemma_sign_split(bare);
        let h = if binary32::is_nan(x) {
            0x7e00
        } else if bare >= LIMIT {
            0x7c00
        } else {
            lemma_narrowable(bare)
        };
        let r = if binary32::negative(x) {
            (h + 0x8000) as u16
        } else {
            h
        };
        assert(binary16::magnitude(r) == h);
        assert(binary16::units(r) == binary16::units(h));
        assert(binary32::units(x) == binary32::units(bare));
        assert(is_narrowed(x, r));
    }
}

} // verus!
