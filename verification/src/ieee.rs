//! What the laws ask of rounding arithmetic: the operations of IEEE 754, rounding
//! to the nearest number and halves to the even one.
use crate::arith::{Op, Rounding};
use crate::binary32;
use vstd::arithmetic::mul::*;
use vstd::arithmetic::power2::*;
use vstd::prelude::*;

verus! {

/// The absolute value of an integer.
pub open spec fn size(v: int) -> int {
    if v < 0 {
        -v
    } else {
        v
    }
}

/// Half way from the largest finite number to `2^128`, in units of `2^-149`:
/// from here on a result is rounded to infinity.
pub open spec fn limit() -> int {
    pow2(277) - pow2(252)
}

/// How far the absolute value of `x` is from `num / den` units, times `den`.
pub open spec fn distance(x: u32, num: int, den: int) -> int {
    size(binary32::units(x) * den - num)
}

/// In magnitude, `r` is `num / den` units of `2^-149` rounded to the nearest
/// number, and of two that are equally near to the one with an even mantissa.
pub open spec fn is_rounded(r: u32, num: int, den: int) -> bool {
    if num >= den * limit() {
        binary32::is_infinite(r)
    } else {
        &&& binary32::is_finite(r)
        &&& forall|y: u32|
            #![trigger binary32::units(y)]
            binary32::is_finite(y) ==> {
                &&& distance(r, num, den) <= distance(y, num, den)
                &&& distance(r, num, den) == distance(y, num, den) && binary32::magnitude(r)
                    != binary32::magnitude(y) ==> binary32::magnitude(r) % 2 == 0
            }
    }
}

/// `r` is the sum of `a` and `b`. A sum of zero is negative only where both are.
pub open spec fn is_sum(a: u32, b: u32, r: u32) -> bool {
    let (x, y) = (binary32::negative(a), binary32::negative(b));
    if binary32::is_nan(a) || binary32::is_nan(b) {
        binary32::is_nan(r)
    } else if binary32::is_infinite(a) && binary32::is_infinite(b) && x != y {
        binary32::is_nan(r)
    } else if binary32::is_infinite(a) {
        r == a
    } else if binary32::is_infinite(b) {
        r == b
    } else {
        let s = binary32::value(a) + binary32::value(b);
        &&& is_rounded(r, size(s), 1)
        &&& binary32::negative(r) == (s < 0 || (s == 0 && x && y))
    }
}

/// `r` is the product of `a` and `b`.
pub open spec fn is_product(a: u32, b: u32, r: u32) -> bool {
    if binary32::is_nan(a) || binary32::is_nan(b) {
        binary32::is_nan(r)
    } else if binary32::is_infinite(a) && binary32::magnitude(b) == 0 {
        binary32::is_nan(r)
    } else if binary32::is_infinite(b) && binary32::magnitude(a) == 0 {
        binary32::is_nan(r)
    } else {
        &&& binary32::negative(r) == (binary32::negative(a) != binary32::negative(b))
        &&& if binary32::is_infinite(a) || binary32::is_infinite(b) {
            binary32::is_infinite(r)
        } else {
            is_rounded(r, binary32::units(a) * binary32::units(b), pow2(149) as int)
        }
    }
}

/// `r` is the quotient of `a` by `b`.
pub open spec fn is_quotient(a: u32, b: u32, r: u32) -> bool {
    if binary32::is_nan(a) || binary32::is_nan(b) {
        binary32::is_nan(r)
    } else if binary32::is_infinite(a) && binary32::is_infinite(b) {
        binary32::is_nan(r)
    } else if binary32::magnitude(a) == 0 && binary32::magnitude(b) == 0 {
        binary32::is_nan(r)
    } else {
        &&& binary32::negative(r) == (binary32::negative(a) != binary32::negative(b))
        &&& if binary32::is_infinite(a) || binary32::magnitude(b) == 0 {
            binary32::is_infinite(r)
        } else if binary32::is_infinite(b) {
            binary32::magnitude(r) == 0
        } else {
            is_rounded(r, binary32::units(a) * pow2(149), binary32::units(b))
        }
    }
}

/// The operations of `f` are those of IEEE 754. Which NaN a result is stays open.
pub open spec fn is_arithmetic(f: Rounding) -> bool {
    &&& forall|a: u32, b: u32| is_sum(a, b, #[trigger] f(Op::Add, a, b))
    &&& forall|a: u32, b: u32| is_product(a, b, #[trigger] f(Op::Mul, a, b))
    &&& forall|a: u32, b: u32| is_quotient(a, b, #[trigger] f(Op::Div, a, b))
}

/// A result that single precision holds is not rounded.
pub(crate) proof fn lemma_exact(r: u32, num: int, den: int, y: u32)
    requires
        is_rounded(r, num, den),
        den > 0,
        binary32::is_finite(y),
        binary32::units(y) * den == num,
    ensures
        binary32::magnitude(r) == binary32::magnitude(y),
        binary32::units(r) == binary32::units(y),
{
    let (u, v) = (binary32::units(r), binary32::units(y));
    lemma_units_below(y);
    assert(v * den < den * limit()) by (nonlinear_arith)
        requires
            v < limit(),
            den > 0,
    ;
    assert(distance(r, num, den) <= distance(y, num, den));
    assert(u == v) by (nonlinear_arith)
        requires
            u * den == v * den,
            den > 0,
    ;
    binary32::law_magnitude_order(r, y);
}

/// A number that equals the exact result is what it is rounded to.
pub(crate) proof fn lemma_held(r: u32, num: int, den: int)
    requires
        binary32::is_finite(r),
        den > 0,
        binary32::units(r) * den == num,
    ensures
        is_rounded(r, num, den),
{
    let u = binary32::units(r);
    lemma_units_below(r);
    assert(u * den < den * limit()) by (nonlinear_arith)
        requires
            u < limit(),
            den > 0,
    ;
    assert forall|y: u32| #![trigger binary32::units(y)] binary32::is_finite(y) implies {
        &&& distance(r, num, den) <= distance(y, num, den)
        &&& distance(r, num, den) == distance(y, num, den) && binary32::magnitude(r)
            != binary32::magnitude(y) ==> binary32::magnitude(r) % 2 == 0
    } by {
        let v = binary32::units(y);
        if v * den == num {
            assert(u == v) by (nonlinear_arith)
                requires
                    u * den == v * den,
                    den > 0,
            ;
            binary32::law_magnitude_order(r, y);
        }
    }
}

/// Rounding crosses no number: what lies at or below the exact result is at or
/// below the rounded one, and the same above.
pub(crate) proof fn lemma_neighbour(r: u32, num: int, den: int, y: u32)
    requires
        is_rounded(r, num, den),
        den > 0,
        binary32::is_finite(y),
    ensures
        !binary32::is_nan(r),
        binary32::units(y) * den <= num ==> binary32::magnitude(y) <= binary32::magnitude(r),
        binary32::units(y) * den >= num ==> binary32::magnitude(r) <= binary32::magnitude(y),
{
    let (u, v) = (binary32::units(r), binary32::units(y));
    lemma_units_below(y);
    assert(v * den < den * limit()) by (nonlinear_arith)
        requires
            v < limit(),
            den > 0,
    ;
    if num < den * limit() {
        binary32::law_magnitude_order(r, y);
        assert(distance(r, num, den) <= distance(y, num, den));
        assert(u < v ==> u * den < v * den) by (nonlinear_arith)
            requires
                den > 0,
        ;
        assert(u > v ==> u * den > v * den) by (nonlinear_arith)
            requires
                den > 0,
        ;
    }
}

/// No result is rounded to two numbers.
pub(crate) proof fn lemma_unique(a: u32, b: u32, num: int, den: int)
    requires
        is_rounded(a, num, den),
        is_rounded(b, num, den),
        den > 0,
    ensures
        binary32::magnitude(a) == binary32::magnitude(b),
{
    lemma_at_least(a, b, num, den);
    lemma_at_least(b, a, num, den);
}

/// Two numbers that a result could be rounded to are neighbours, so that only one
/// of them is even.
proof fn lemma_at_least(a: u32, b: u32, num: int, den: int)
    requires
        is_rounded(a, num, den),
        is_rounded(b, num, den),
        den > 0,
    ensures
        binary32::magnitude(a) >= binary32::magnitude(b),
{
    if num < den * limit() && binary32::magnitude(a) < binary32::magnitude(b) {
        let (u, v) = (binary32::units(a), binary32::units(b));
        binary32::law_magnitude_order(a, b);
        assert(distance(a, num, den) == distance(b, num, den));
        let m = (binary32::magnitude(a) + 1) as u32;
        binary32::lemma_sign_split(m);
        binary32::lemma_sign_split(b);
        binary32::law_magnitude_order(a, m);
        binary32::law_magnitude_order(m, b);
        let w = binary32::units(m);
        assert(u * den < w * den) by (nonlinear_arith)
            requires
                u < w,
                den > 0,
        ;
        assert(w < v ==> w * den < v * den) by (nonlinear_arith)
            requires
                den > 0,
        ;
        assert(distance(a, num, den) <= distance(m, num, den));
    }
}

/// A common factor of the exact result changes nothing.
pub(crate) proof fn lemma_scaled(r: u32, num: int, den: int, c: int)
    requires
        is_rounded(r, num * c, den * c),
        c > 0,
    ensures
        is_rounded(r, num, den),
{
    let l = limit();
    assert((den * c) * l == (den * l) * c) by (nonlinear_arith);
    assert(num * c >= (den * l) * c <==> num >= den * l) by (nonlinear_arith)
        requires
            c > 0,
    ;
    assert forall|y: u32| #![trigger binary32::units(y)] distance(y, num * c, den * c)
        == distance(y, num, den) * c by {
        let u = binary32::units(y);
        assert(u * (den * c) - num * c == (u * den - num) * c) by (nonlinear_arith);
        let e = u * den - num;
        assert((e * c < 0 <==> e < 0) && (-e) * c == -(e * c)) by (nonlinear_arith)
            requires
                c > 0,
        ;
    }
    if num < den * l {
        let p = distance(r, num, den);
        assert(distance(r, num * c, den * c) == p * c) by {
            assert(binary32::units(r) == binary32::units(r));
        }
        assert forall|y: u32| #![trigger binary32::units(y)] binary32::is_finite(y) implies {
            &&& distance(r, num, den) <= distance(y, num, den)
            &&& distance(r, num, den) == distance(y, num, den) && binary32::magnitude(r)
                != binary32::magnitude(y) ==> binary32::magnitude(r) % 2 == 0
        } by {
            let q = distance(y, num, den);
            assert(distance(y, num * c, den * c) == q * c);
            assert(p * c <= q * c ==> p <= q) by (nonlinear_arith)
                requires
                    c > 0,
            ;
        }
    }
}

/// The largest finite number.
pub(crate) proof fn lemma_top()
    ensures
        binary32::is_finite(0x7f7f_ffff),
        binary32::units(0x7f7f_ffff) == pow2(277) - pow2(253),
        pow2(276) <= pow2(277) - pow2(253) < limit() < pow2(277),
{
    binary32::lemma_sign_split(0x7f7f_ffff);
    lemma2_to64();
    lemma_pow2_adds(24, 253);
    lemma_pow2_unfold(253);
    lemma_pow2_unfold(277);
    lemma_pow2_strictly_increases(253, 276);
    lemma_pow2_pos(252);
    let p = pow2(253) as int;
    assert(0xff_ffff * p == 0x100_0000 * p - p) by (nonlinear_arith);
}

/// Finite numbers lie below the limit.
pub(crate) proof fn lemma_units_below(x: u32)
    requires
        binary32::is_finite(x),
    ensures
        binary32::units(x) < limit(),
{
    lemma_top();
    binary32::lemma_sign_split(0x7f7f_ffff);
    binary32::law_magnitude_order(x, 0x7f7f_ffff);
}

/// A finite number as an integer of up to 24 bits, all of them used above the
/// smallest power, times a power of two.
pub(crate) proof fn lemma_parts(x: u32) -> (r: (int, nat))
    requires
        binary32::is_finite(x),
    ensures
        binary32::units(x) == r.0 * pow2(r.1),
        0 <= r.0 < 0x100_0000,
        r.1 > 0 ==> r.0 >= 0x80_0000,
{
    binary32::lemma_sign_split(x);
    lemma2_to64();
    let e = binary32::exponent(x);
    if e == 0 {
        let m = binary32::mantissa(x);
        lemma_mul_basics(m);
        (m, 0)
    } else {
        (0x80_0000 + binary32::mantissa(x), (e - 1) as nat)
    }
}

/// Integers of up to 24 bits, times a power of two that keeps them in the normal
/// range, are single-precision numbers.
pub(crate) proof fn lemma_representable(v: int, t: nat) -> (y: u32)
    requires
        0 < v < 0x100_0000,
        t <= 250,
        v * pow2(t) >= 0x80_0000,
    ensures
        y < binary32::INFINITY,
        binary32::units(y) == v * pow2(t),
    decreases 0x100_0000 - v,
{
    if v >= 0x80_0000 {
        let y = ((t + 1) * 0x80_0000 + (v - 0x80_0000)) as u32;
        binary32::lemma_sign_split(y);
        assert(binary32::exponent(y) == t + 1);
        assert(binary32::mantissa(y) == v - 0x80_0000);
        y
    } else {
        lemma2_to64();
        if t == 0 {
            lemma_mul_basics(v);
            assert(pow2(t) == 1);
        }
        lemma_pow2_unfold(t);
        let p = pow2((t - 1) as nat) as int;
        assert((2 * v) * p == v * (2 * p)) by (nonlinear_arith);
        lemma_representable(2 * v, (t - 1) as nat)
    }
}

/// The powers of two from `2^-149` to `2^127` are single-precision numbers.
pub(crate) proof fn lemma_power_representable(j: nat) -> (y: u32)
    requires
        j <= 276,
    ensures
        y < binary32::INFINITY,
        binary32::units(y) == pow2(j),
{
    lemma2_to64();
    lemma2_to64_rest();
    if j < 23 {
        lemma_pow2_strictly_increases(j, 23);
        let y = pow2(j) as u32;
        binary32::lemma_sign_split(y);
        y
    } else {
        let y = ((j - 22) * 0x80_0000) as u32;
        binary32::lemma_sign_split(y);
        assert(binary32::exponent(y) == j - 22);
        assert(binary32::mantissa(y) == 0);
        lemma_pow2_adds(23, (j - 23) as nat);
        y
    }
}

/// A positive number has a positive value.
pub(crate) proof fn lemma_units_positive(x: u32)
    requires
        binary32::is_finite(x),
        binary32::magnitude(x) != 0,
    ensures
        binary32::units(x) >= 1,
{
    binary32::lemma_sign_split(x);
    binary32::lemma_sign_split(0);
    assert(binary32::units(0) == 0);
    binary32::law_magnitude_order(0, x);
}

/// The value of one, and of one half, in units.
pub(crate) proof fn lemma_patterns()
    ensures
        binary32::units(binary32::ONE) == pow2(149),
        binary32::units(0x3f00_0000) == pow2(148),
{
    lemma2_to64();
    binary32::lemma_sign_split(binary32::ONE);
    binary32::lemma_sign_split(0x3f00_0000);
    lemma_pow2_adds(23, 126);
    lemma_pow2_adds(23, 125);
}

/// `r` with the sign bit set where `minus` holds.
pub open spec fn with_sign(minus: bool, r: u32) -> u32 {
    if minus {
        binary32::flipped(r)
    } else {
        r
    }
}

/// The largest number up to `limit` that does not exceed `num / den` units.
proof fn lemma_largest_below(num: int, den: int, limit: u32) -> (r: u32)
    requires
        num >= 0,
        den > 0,
        limit < binary32::INFINITY,
    ensures
        r <= limit,
        binary32::units(r) * den <= num,
        forall|y: u32|
            #![trigger binary32::units(y)]
            r < binary32::magnitude(y) <= limit ==> binary32::units(y) * den > num,
    decreases limit,
{
    binary32::lemma_sign_split(limit);
    if binary32::units(limit) * den <= num {
        limit
    } else if limit == 0 {
        assert(binary32::units(0) == 0);
        assert(0 * den == 0) by (nonlinear_arith);
        0
    } else {
        let r = lemma_largest_below(num, den, (limit - 1) as u32);
        assert forall|y: u32|
            #![trigger binary32::units(y)]
            r < binary32::magnitude(y) <= limit implies binary32::units(y) * den > num by {
            if binary32::magnitude(y) == limit {
                binary32::law_magnitude_order(y, limit);
            }
        }
        r
    }
}

/// The gap above a finite number is one unit, or at most `2^-23` of a normal
/// number.
proof fn lemma_gap(x: u32) -> (g: int)
    requires
        x < 0x7f7f_ffff,
    ensures
        g > 0,
        binary32::units((x + 1) as u32) == binary32::units(x) + g,
        g == 1 || 0x80_0000 * g <= binary32::units(x),
{
    let y = (x + 1) as u32;
    binary32::lemma_sign_split(x);
    binary32::lemma_sign_split(y);
    lemma2_to64();
    let e = binary32::exponent(x);
    if e == 0 {
        1
    } else {
        let g = pow2((e - 1) as nat) as int;
        let m = 0x80_0000 + binary32::mantissa(x);
        lemma_pow2_pos((e - 1) as nat);
        assert((m + 1) * g == m * g + g) by (nonlinear_arith);
        assert(0x80_0000 * g <= m * g) by (nonlinear_arith)
            requires
                m >= 0x80_0000,
                g > 0,
        ;
        if m == 0xff_ffff {
            lemma_pow2_unfold(e as nat);
            assert(binary32::exponent(y) == e + 1);
            assert(0x80_0000 * (2 * g) == (0xff_ffff + 1) * g) by (nonlinear_arith);
        }
        g
    }
}

/// A rounded result is off by at most `2^-24` of the exact one, or by at most
/// half a unit; an exact result of whole units by no more than the former.
pub(crate) proof fn lemma_error(r: u32, num: int, den: int)
    requires
        is_rounded(r, num, den),
        den > 0,
        0 <= num,
        num < den * pow2(276) || num < den * limit(),
    ensures
        binary32::is_finite(r),
        distance(r, num, den) * 0x100_0000 <= num || distance(r, num, den) * 2 <= den,
        den == 1 ==> distance(r, num, den) * 0x100_0000 <= num,
{
    let top = 0x7f7f_ffffu32;
    lemma_top();
    let (p, l, most) = (pow2(276) as int, limit(), binary32::units(top));
    assert(den * p <= den * l) by (nonlinear_arith)
        requires
            den > 0,
            p <= l,
    ;
    let x = lemma_largest_below(num, den, top);
    binary32::lemma_sign_split(x);
    let d = distance(r, num, den);
    assert(d <= distance(x, num, den));
    if x == top {
        let h = pow2(252) as int;
        lemma_pow2_adds(24, 252);
        lemma_pow2_unfold(253);
        lemma2_to64();
        assert(den * l == most * den + den * h && 0x100_0000 * (den * h) == den * p && den * p
            <= most * den) by (nonlinear_arith)
            requires
                l == most + h,
                p == 0x100_0000 * h,
                p <= most,
                den > 0,
        ;
    } else {
        let y = (x + 1) as u32;
        let g = lemma_gap(x);
        let (u, v) = (binary32::units(x), binary32::units(y));
        binary32::lemma_sign_split(y);
        assert(v * den == u * den + g * den) by (nonlinear_arith)
            requires
                v == u + g,
        ;
        assert(d <= distance(y, num, den));
        assert(d * 2 <= g * den);
        if g == 1 {
            assert(1 * den == den) by (nonlinear_arith);
        } else {
            assert(0x80_0000 * (g * den) <= u * den) by (nonlinear_arith)
                requires
                    0x80_0000 * g <= u,
                    den > 0,
            ;
        }
    }
}

/// Numbers at or below a power of two stay there where something far smaller is
/// added: the sum is rounded to the power at most.
pub(crate) proof fn lemma_cap(r: u32, num: int, t: nat)
    requires
        is_rounded(r, num, 1),
        23 <= t < 276,
        0 <= num <= pow2(t) + pow2((t - 23) as nat) / 4,
    ensures
        binary32::is_finite(r),
        binary32::units(r) <= pow2(t),
{
    let y = lemma_power_representable(t);
    binary32::lemma_sign_split(y);
    lemma_pow2_pos((t - 23) as nat);
    lemma_pow2_strictly_increases(t, 276);
    if t > 23 {
        lemma_pow2_strictly_increases((t - 23) as nat, t);
    }
    lemma_pow2_unfold(276);
    lemma_pow2_unfold(t + 1);
    if t + 1 < 276 {
        lemma_pow2_strictly_increases(t + 1, 276);
    }
    lemma_top();
    lemma_pow2_adds(23, (t - 23) as nat);
    lemma2_to64();
    assert(num < limit());
    assert(1 * limit() == limit());
    lemma_neighbour(r, num, 1, y);
    binary32::law_magnitude_order(r, y);
    if binary32::magnitude(r) > y {
        binary32::law_magnitude_order(y, 0x7f7f_ffff);
        binary32::lemma_sign_split(0x7f7f_ffff);
        let g = lemma_gap(y);
        let z = (y + 1) as u32;
        binary32::lemma_sign_split(z);
        binary32::law_magnitude_order(z, r);
        lemma_power_gap(t, y, g);
        assert(distance(r, num, 1) <= distance(y, num, 1));
        assert(false);
    }
}

/// Above a power of two the gap is `2^-23` of it.
proof fn lemma_power_gap(t: nat, y: u32, g: int)
    requires
        23 <= t < 276,
        y < 0x7f7f_ffff,
        binary32::units(y) == pow2(t),
        binary32::units((y + 1) as u32) == binary32::units(y) + g,
    ensures
        g == pow2((t - 23) as nat),
{
    let x = ((t - 22) * 0x80_0000) as u32;
    binary32::lemma_sign_split(x);
    assert(binary32::exponent(x) == t - 22);
    assert(binary32::mantissa(x) == 0);
    lemma2_to64();
    lemma_pow2_adds(23, (t - 23) as nat);
    binary32::lemma_sign_split(y);
    binary32::law_magnitude_order(x, y);
    let z = (x + 1) as u32;
    binary32::lemma_sign_split(z);
    assert(binary32::exponent(z) == t - 22);
    assert(binary32::mantissa(z) == 1);
    let p = pow2((t - 23) as nat) as int;
    assert((0x80_0000 + 1) * p == 0x80_0000 * p + p) by (nonlinear_arith);
}

/// Small integers are single-precision numbers.
pub(crate) proof fn lemma_integer(s: int)
    requires
        -0x100_0000 < s < 0x100_0000,
    ensures
        binary32::is_integer(s, binary32::integer(s)),
{
    let p = pow2(149) as int;
    lemma2_to64();
    lemma_pow2_strictly_increases(23, 149);
    if s == 0 {
        binary32::lemma_sign_split(0);
        lemma_mul_basics(p);
        assert(binary32::is_integer(0, 0));
    } else {
        assert(size(s) * p >= p) by (nonlinear_arith)
            requires
                size(s) >= 1,
                p > 0,
        ;
        let y = lemma_representable(size(s), 149);
        binary32::lemma_sign_split(y);
        binary32::lemma_flipped(y);
        assert((-s) * p == -(s * p)) by (nonlinear_arith);
        assert(binary32::is_integer(s, with_sign(s < 0, y)));
    }
}

/// Every exact result can be rounded.
proof fn lemma_roundable(num: int, den: int) -> (r: u32)
    requires
        num >= 0,
        den > 0,
    ensures
        r <= binary32::INFINITY,
        is_rounded(r, num, den),
{
    let top = 0x7f7f_ffffu32;
    if num >= den * limit() {
        binary32::lemma_sign_split(binary32::INFINITY);
        binary32::INFINITY
    } else {
        let x = lemma_largest_below(num, den, top);
        let y = (x + 1) as u32;
        binary32::lemma_sign_split(x);
        binary32::lemma_sign_split(y);
        let (below, above) = (distance(x, num, den), distance(y, num, den));
        let r = if x == top || below < above || (below == above && x % 2 == 0) {
            x
        } else {
            y
        };
        assert forall|z: u32| #![trigger binary32::units(z)] binary32::is_finite(z) implies {
            &&& distance(r, num, den) <= distance(z, num, den)
            &&& distance(r, num, den) == distance(z, num, den) && binary32::magnitude(r)
                != binary32::magnitude(z) ==> binary32::magnitude(r) % 2 == 0
        } by {
            let (u, v, w) = (binary32::units(x), binary32::units(y), binary32::units(z));
            binary32::law_magnitude_order(z, x);
            if x < top {
                binary32::law_magnitude_order(z, y);
                assert(v * den > num);
            }
            assert((w < u ==> w * den < u * den) && (w > v ==> w * den > v * den))
                by (nonlinear_arith)
                requires
                    den > 0,
            ;
            binary32::lemma_sign_split(z);
        }
        r
    }
}

/// Every exact result can be rounded to a number of either sign.
proof fn lemma_signed(minus: bool, num: int, den: int) -> (r: u32)
    requires
        num >= 0,
        den > 0,
    ensures
        is_rounded(r, num, den),
        binary32::negative(r) == minus,
{
    let x = lemma_roundable(num, den);
    let r = with_sign(minus, x);
    binary32::lemma_flipped(x);
    binary32::lemma_sign_split(x);
    binary32::lemma_sign_split(r);
    r
}

/// Arithmetic that picks some result.
pub open spec fn some_arithmetic() -> Rounding {
    |o: Op, a: u32, b: u32|
        match o {
            Op::Add => choose|r: u32| is_sum(a, b, r),
            Op::Mul => choose|r: u32| is_product(a, b, r),
            Op::Div => choose|r: u32| is_quotient(a, b, r),
        }
}

/// Special results.
proof fn lemma_special()
    ensures
        binary32::is_nan(binary32::QUIET_NAN),
        binary32::is_infinite(binary32::INFINITY),
        binary32::is_infinite(with_sign(true, binary32::INFINITY)),
        binary32::negative(with_sign(true, binary32::INFINITY)),
        binary32::magnitude(with_sign(true, 0)) == 0,
        binary32::negative(with_sign(true, 0)),
{
    binary32::lemma_flipped(binary32::INFINITY);
    binary32::lemma_flipped(0);
}

proof fn lemma_sum_exists(a: u32, b: u32)
    ensures
        exists|r: u32| is_sum(a, b, r),
{
    lemma_special();
    let s = binary32::value(a) + binary32::value(b);
    let minus = s < 0 || (s == 0 && binary32::negative(a) && binary32::negative(b));
    let r = if binary32::is_finite(a) && binary32::is_finite(b) {
        lemma_signed(minus, size(s), 1)
    } else if binary32::is_infinite(a) && !binary32::is_nan(b) && (!binary32::is_infinite(b)
        || binary32::negative(a) == binary32::negative(b)) {
        a
    } else if binary32::is_infinite(b) && binary32::is_finite(a) {
        b
    } else {
        binary32::QUIET_NAN
    };
    assert(is_sum(a, b, r));
}

proof fn lemma_product_exists(a: u32, b: u32)
    ensures
        exists|r: u32| is_product(a, b, r),
{
    lemma_special();
    let minus = binary32::negative(a) != binary32::negative(b);
    let (u, v) = (binary32::units(a), binary32::units(b));
    binary32::lemma_units_nonnegative(a);
    binary32::lemma_units_nonnegative(b);
    lemma_pow2_pos(149);
    assert(u * v >= 0) by (nonlinear_arith)
        requires
            u >= 0,
            v >= 0,
    ;
    let r = if binary32::is_finite(a) && binary32::is_finite(b) {
        lemma_signed(minus, u * v, pow2(149) as int)
    } else if binary32::is_nan(a) || binary32::is_nan(b) || binary32::magnitude(a) == 0
        || binary32::magnitude(b) == 0 {
        binary32::QUIET_NAN
    } else {
        with_sign(minus, binary32::INFINITY)
    };
    assert(is_product(a, b, r));
}

proof fn lemma_quotient_exists(a: u32, b: u32)
    ensures
        exists|r: u32| is_quotient(a, b, r),
{
    lemma_special();
    let minus = binary32::negative(a) != binary32::negative(b);
    let (u, p) = (binary32::units(a), pow2(149) as int);
    binary32::lemma_units_nonnegative(a);
    lemma_pow2_pos(149);
    assert(u * p >= 0) by (nonlinear_arith)
        requires
            u >= 0,
            p >= 0,
    ;
    let r = if binary32::is_nan(a) || binary32::is_nan(b) || (binary32::is_infinite(a)
        && binary32::is_infinite(b)) || (binary32::magnitude(a) == 0 && binary32::magnitude(b)
        == 0) {
        binary32::QUIET_NAN
    } else if binary32::is_infinite(a) || binary32::magnitude(b) == 0 {
        with_sign(minus, binary32::INFINITY)
    } else if binary32::is_infinite(b) {
        with_sign(minus, 0)
    } else {
        lemma_units_positive(b);
        lemma_signed(minus, u * p, binary32::units(b))
    };
    assert(is_quotient(a, b, r));
}

/// There is arithmetic of this kind: what the laws ask of it can be had.
pub proof fn law_arithmetic_exists()
    ensures
        is_arithmetic(some_arithmetic()),
{
    let f = some_arithmetic();
    assert forall|a: u32, b: u32| is_sum(a, b, #[trigger] f(Op::Add, a, b)) by {
        lemma_sum_exists(a, b);
    }
    assert forall|a: u32, b: u32| is_product(a, b, #[trigger] f(Op::Mul, a, b)) by {
        lemma_product_exists(a, b);
    }
    assert forall|a: u32, b: u32| is_quotient(a, b, #[trigger] f(Op::Div, a, b)) by {
        lemma_quotient_exists(a, b);
    }
}

} // verus!
