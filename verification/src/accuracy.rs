//! What rounding and quantising do to a dot product: it never overflows, it splits
//! at block boundaries, it mirrors, and it stays near the dense dot product.
use crate::arith::{Narrowing, Op, Rounding};
use crate::binary16;
use crate::binary32;
use crate::ieee;
use crate::ieee::size;
use crate::laws::sum;
use crate::laws;
use crate::narrowing;
use crate::q8_0;
use crate::quants;
use crate::quants::{exact, inner, single, Quants};
use vstd::arithmetic::power2::*;
use vstd::prelude::*;

verus! {

/// The first `nb` weight blocks are such as the formats hold: 128 weights of
/// magnitude at most two under a finite scale.
pub open spec fn regular_weights(xs: Seq<Quants>, nb: nat) -> bool {
    &&& xs.len() >= nb
    &&& forall|i: int|
        0 <= i < nb ==> (#[trigger] xs[i]).q.len() == 128 && binary16::is_finite(xs[i].d)
    &&& forall|i: int, e: int| 0 <= i < nb && 0 <= e < 128 ==> -2 <= #[trigger] xs[i].q[e] <= 2
}

/// The first `nb` weight blocks, and the activation blocks that pair with them,
/// are such as the formats hold: 32 activations of magnitude at most 128 under a
/// finite scale.
pub open spec fn is_regular(xs: Seq<Quants>, ys: Seq<Quants>, nb: nat) -> bool {
    &&& regular_weights(xs, nb)
    &&& ys.len() >= 4 * nb
    &&& forall|j: int|
        0 <= j < 4 * nb ==> (#[trigger] ys[j]).q.len() == 32 && binary16::is_finite(ys[j].d)
    &&& forall|j: int, t: int|
        0 <= j < 4 * nb && 0 <= t < 32 ==> -128 <= #[trigger] ys[j].q[t] <= 128
}

/// The magnitudes of the scales and integers of `xs`.
pub open spec fn sizes(xs: Seq<Quants>) -> Seq<Quants> {
    Seq::new(
        xs.len(),
        |i: int|
            Quants {
                d: binary16::magnitude(xs[i].d) as u16,
                q: Seq::new(xs[i].q.len(), |e: int| size(xs[i].q[e])),
            },
    )
}

/// The integer sum of group `k` of weight block `i`.
pub open spec fn group(xs: Seq<Quants>, ys: Seq<Quants>, i: int, k: int) -> int {
    inner(xs[i].q, 32 * k, ys[4 * i + k].q, 0, 32)
}

proof fn lemma_group_bound(xs: Seq<Quants>, ys: Seq<Quants>, nb: nat, i: int, k: int)
    requires
        is_regular(xs, ys, nb),
        0 <= i < nb,
        0 <= k < 4,
    ensures
        -8192 <= group(xs, ys, i, k) <= 8192,
{
    quants::law_inner_bound(xs[i].q, 32 * k, ys[4 * i + k].q, 0, 32, 2);
}

/// The absolute value of a product.
proof fn lemma_size_product(a: int, b: int)
    ensures
        size(a * b) == size(a) * size(b),
{
    assert(size(a * b) == size(a) * size(b)) by (nonlinear_arith)
        requires
            size(a * b) == (if a * b < 0 {
                -(a * b)
            } else {
                a * b
            }),
            size(a) == (if a < 0 {
                -a
            } else {
                a
            }),
            size(b) == (if b < 0 {
                -b
            } else {
                b
            }),
    ;
}

/// The product of a half-precision number and a small integer is off by at most
/// `2^-24` of it.
proof fn lemma_term(f: Rounding, h: u16, s: int)
    requires
        ieee::is_arithmetic(f),
        binary16::is_finite(h),
        -8192 <= s <= 8192,
    ensures
        ({
            let t = f(Op::Mul, binary16::widened(h), binary32::integer(s));
            let exact = binary32::value(binary16::widened(h)) * s;
            &&& binary32::is_finite(t)
            &&& binary32::units(t) <= pow2(179)
            &&& ieee::is_rounded(t, size(exact), 1)
            &&& exact == 0 ==> binary32::units(t) == 0
            &&& exact != 0 ==> binary32::negative(t) == (exact < 0)
            &&& size(binary32::value(t) - exact) * 0x100_0000 <= size(exact)
        }),
{
    let w = binary16::widened(h);
    let n = binary32::integer(s);
    let t = f(Op::Mul, w, n);
    let exact = binary32::value(w) * s;
    let (u, p, q) = (binary32::units(w), pow2(149) as int, pow2(125) as int);
    ieee::lemma_integer(s);
    binary16::law_widened(h);
    binary16::lemma_units_bound(h);
    binary32::lemma_units_nonnegative(w);
    binary32::lemma_units_nonnegative(n);
    binary32::lemma_units_nonnegative(t);
    lemma_pow2_pos(149);
    lemma_pow2_pos(125);
    assert(size(s * p) == size(s) * p) by {
        lemma_size_product(s, p);
    }
    assert(binary32::units(n) == size(s) * p);
    lemma_size_product(binary32::value(w), s);
    assert(size(exact) == u * size(s));
    assert(u * (size(s) * p) == (u * size(s)) * p) by (nonlinear_arith);
    assert(ieee::is_product(w, n, t));
    ieee::lemma_scaled(t, size(exact), 1, p);
    let b = pow2(166) as int;
    lemma_pow2_adds(41, 125);
    lemma_pow2_adds(166, 13);
    lemma2_to64();
    let g = binary16::units(h);
    assert(g * q <= pow2(41) * q) by (nonlinear_arith)
        requires
            g <= pow2(41),
            q > 0,
    ;
    assert(0 <= u * size(s) <= b * 8192) by (nonlinear_arith)
        requires
            0 <= u <= b,
            0 <= size(s) <= 8192,
    ;
    let y = ieee::lemma_power_representable(179);
    lemma_pow2_strictly_increases(179, 276);
    ieee::lemma_error(t, size(exact), 1);
    ieee::lemma_neighbour(t, size(exact), 1, y);
    binary32::law_magnitude_order(t, y);
    if exact != 0 {
        assert(s != 0 && u != 0) by {
            assert(binary32::value(w) * 0 == 0 && 0 * s == 0) by (nonlinear_arith);
        }
        let v = binary32::value(w);
        assert(v * s < 0 <==> (v < 0) != (s < 0)) by (nonlinear_arith)
            requires
                v != 0,
                s != 0,
        ;
    }
}

/// A sum of two numbers is off by at most `2^-24` of it, and is zero only where
/// they cancel.
proof fn lemma_sum(f: Rounding, a: u32, b: u32)
    requires
        ieee::is_arithmetic(f),
        binary32::is_finite(a),
        binary32::is_finite(b),
        binary32::units(a) + binary32::units(b) < pow2(276),
    ensures
        ({
            let r = f(Op::Add, a, b);
            let s = binary32::value(a) + binary32::value(b);
            &&& binary32::is_finite(r)
            &&& ieee::is_rounded(r, size(s), 1)
            &&& binary32::magnitude(r) == 0 <==> s == 0
            &&& binary32::negative(r) == (s < 0 || (s == 0 && binary32::negative(a)
                && binary32::negative(b)))
            &&& size(binary32::value(r) - s) * 0x100_0000 <= size(s)
        }),
{
    let r = f(Op::Add, a, b);
    let s = binary32::value(a) + binary32::value(b);
    assert(ieee::is_sum(a, b, r));
    binary32::lemma_units_nonnegative(a);
    binary32::lemma_units_nonnegative(b);
    binary32::lemma_units_nonnegative(r);
    ieee::lemma_error(r, size(s), 1);
    binary32::lemma_sign_split(0);
    binary32::lemma_sign_split(1);
    binary32::lemma_sign_split(r);
    assert(binary32::units(0) == 0 && binary32::units(1) == 1);
    if s == 0 {
        ieee::lemma_exact(r, 0, 1, 0);
    } else {
        ieee::lemma_neighbour(r, size(s), 1, 1);
    }
}

/// A sum of two numbers up to a power of two is at most the next power.
proof fn lemma_sum_bound(f: Rounding, a: u32, b: u32, t: nat)
    requires
        ieee::is_arithmetic(f),
        binary32::is_finite(a),
        binary32::is_finite(b),
        binary32::units(a) <= pow2(t),
        binary32::units(b) <= pow2(t),
        t < 275,
    ensures
        binary32::is_finite(f(Op::Add, a, b)),
        binary32::units(f(Op::Add, a, b)) <= pow2(t + 1),
{
    let r = f(Op::Add, a, b);
    let v = binary32::value(a) + binary32::value(b);
    binary32::lemma_units_nonnegative(a);
    binary32::lemma_units_nonnegative(b);
    lemma_pow2_unfold(t + 1);
    lemma_pow2_strictly_increases(t + 1, 276);
    lemma_sum(f, a, b);
    let y = ieee::lemma_power_representable(t + 1);
    ieee::lemma_neighbour(r, size(v), 1, y);
    binary32::lemma_sign_split(y);
    binary32::law_magnitude_order(r, y);
}

/// What group `k` of weight block `i` adds to its share.
spec fn term(f: Rounding, xs: Seq<Quants>, ys: Seq<Quants>, i: int, k: int) -> u32 {
    f(Op::Mul, binary16::widened(ys[4 * i + k].d), binary32::integer(group(xs, ys, i, k)))
}

/// The share of a weight block is added up from the left.
proof fn lemma_share_step(f: Rounding, xs: Seq<Quants>, ys: Seq<Quants>, i: int, k: nat)
    ensures
        quants::share(single(f), xs, ys, i, k + 1) == f(
            Op::Add,
            quants::share(single(f), xs, ys, i, k),
            term(f, xs, ys, i, k as int),
        ),
{
    assert(4 * i + (k + 1) - 1 == 4 * i + k);
    assert(32 * ((k + 1) - 1) == 32 * k);
}

/// The share of a weight block is far from overflow.
proof fn lemma_share_bound(
    f: Rounding,
    xs: Seq<Quants>,
    ys: Seq<Quants>,
    nb: nat,
    i: int,
    k: nat,
)
    requires
        ieee::is_arithmetic(f),
        is_regular(xs, ys, nb),
        0 <= i < nb,
        k <= 4,
    ensures
        binary32::is_finite(quants::share(single(f), xs, ys, i, k)),
        binary32::units(quants::share(single(f), xs, ys, i, k)) <= pow2(179 + k),
    decreases k,
{
    if k == 0 {
        lemma_pow2_pos(179);
        binary32::lemma_sign_split(0);
    } else {
        let j = (k - 1) as nat;
        lemma_share_bound(f, xs, ys, nb, i, j);
        lemma_group_bound(xs, ys, nb, i, j as int);
        lemma_term(f, ys[4 * i + j].d, group(xs, ys, i, j as int));
        if j > 0 {
            lemma_pow2_strictly_increases(179, 179 + j);
        }
        lemma_share_step(f, xs, ys, i, j);
        lemma_sum_bound(
            f,
            quants::share(single(f), xs, ys, i, j),
            term(f, xs, ys, i, j as int),
            179 + j,
        );
    }
}

/// What a weight block adds to the dot product.
spec fn part(f: Rounding, xs: Seq<Quants>, ys: Seq<Quants>, i: int) -> u32 {
    f(Op::Mul, binary16::widened(xs[i].d), quants::share(single(f), xs, ys, i, 4))
}

/// What a weight block adds is far from overflow.
proof fn lemma_part_bound(f: Rounding, xs: Seq<Quants>, ys: Seq<Quants>, nb: nat, i: int)
    requires
        ieee::is_arithmetic(f),
        is_regular(xs, ys, nb),
        0 <= i < nb,
    ensures
        binary32::is_finite(part(f, xs, ys, i)),
        binary32::units(part(f, xs, ys, i)) <= pow2(200),
        binary32::units(binary16::widened(xs[i].d)) * binary32::units(
            quants::share(single(f), xs, ys, i, 4),
        ) <= pow2(200) * pow2(149),
{
    let h = xs[i].d;
    let (w, s) = (binary16::widened(h), quants::share(single(f), xs, ys, i, 4));
    let (u, v, q) = (binary32::units(w), binary32::units(s), pow2(125) as int);
    lemma_share_bound(f, xs, ys, nb, i, 4);
    binary16::law_widened(h);
    binary16::lemma_units_bound(h);
    binary32::lemma_units_nonnegative(w);
    binary32::lemma_units_nonnegative(s);
    lemma_pow2_pos(125);
    lemma_pow2_pos(149);
    lemma_pow2_adds(41, 125);
    lemma_pow2_adds(166, 183);
    lemma_pow2_adds(200, 149);
    let g = binary16::units(h);
    assert(g * q <= pow2(41) * q) by (nonlinear_arith)
        requires
            g <= pow2(41),
            q > 0,
    ;
    assert(u * v <= pow2(166) * pow2(183)) by (nonlinear_arith)
        requires
            0 <= u <= pow2(166),
            0 <= v <= pow2(183),
    ;
    let r = part(f, xs, ys, i);
    assert(ieee::is_product(w, s, r));
    let y = ieee::lemma_power_representable(200);
    ieee::lemma_neighbour(r, u * v, pow2(149) as int, y);
    binary32::lemma_sign_split(r);
    binary32::lemma_sign_split(y);
    binary32::law_magnitude_order(r, y);
}

/// A dot product never overflows and is no negative zero.
pub proof fn law_dot_finite(f: Rounding, xs: Seq<Quants>, ys: Seq<Quants>, nb: nat)
    requires
        ieee::is_arithmetic(f),
        is_regular(xs, ys, nb),
    ensures
        binary32::is_finite(quants::dot(single(f), xs, ys, nb)),
        binary32::units(quants::dot(single(f), xs, ys, nb)) <= pow2(226),
        quants::dot(single(f), xs, ys, nb) != binary32::SIGN,
    decreases nb,
{
    lemma_pow2_pos(226);
    binary32::lemma_sign_split(0);
    if nb > 0 {
        let i = (nb - 1) as nat;
        law_dot_finite(f, xs, ys, i);
        lemma_part_bound(f, xs, ys, nb, i as int);
        let (p, x) = (quants::dot(single(f), xs, ys, i), part(f, xs, ys, i as int));
        lemma_pow2_strictly_increases(200, 226);
        lemma_pow2_strictly_increases(200, 203);
        lemma_pow2_unfold(203);
        lemma_pow2_unfold(202);
        lemma_pow2_unfold(201);
        lemma_pow2_unfold(227);
        lemma_pow2_strictly_increases(227, 276);
        lemma_sum(f, p, x);
        let r = f(Op::Add, p, x);
        let v = binary32::value(p) + binary32::value(x);
        ieee::lemma_cap(r, size(v), 226);
        binary32::lemma_sign_split(p);
        binary32::lemma_sign_split(r);
        binary32::lemma_sign_split(binary32::SIGN);
        binary32::lemma_units_nonnegative(x);
        binary32::lemma_units_nonnegative(p);
        assert(quants::dot(single(f), xs, ys, nb) == r);
        if r == binary32::SIGN {
            assert(binary32::negative(p) && binary32::negative(x));
            ieee::lemma_units_positive(p);
        }
    }
}

/// The dot product is added up from the left.
proof fn lemma_dot_step(f: Rounding, xs: Seq<Quants>, ys: Seq<Quants>, i: nat)
    ensures
        quants::dot(single(f), xs, ys, i + 1) == f(
            Op::Add,
            quants::dot(single(f), xs, ys, i),
            part(f, xs, ys, i as int),
        ),
{
}

/// A dot product, block by block and group by group.
pub(crate) proof fn lemma_dot_unrolled(f: Rounding, xs: Seq<Quants>, ys: Seq<Quants>, i: nat)
    ensures
        ({
            let (j, k) = (i as int, 4 * i);
            let t0 = f(
                Op::Mul,
                binary16::widened(ys[k as int + 0].d),
                binary32::integer(group(xs, ys, j, 0)),
            );
            let t1 = f(
                Op::Mul,
                binary16::widened(ys[k as int + 1].d),
                binary32::integer(group(xs, ys, j, 1)),
            );
            let t2 = f(
                Op::Mul,
                binary16::widened(ys[k as int + 2].d),
                binary32::integer(group(xs, ys, j, 2)),
            );
            let t3 = f(
                Op::Mul,
                binary16::widened(ys[k as int + 3].d),
                binary32::integer(group(xs, ys, j, 3)),
            );
            let u1 = f(Op::Add, 0, t0);
            let u2 = f(Op::Add, u1, t1);
            let u3 = f(Op::Add, u2, t2);
            let u4 = f(Op::Add, u3, t3);
            quants::dot(single(f), xs, ys, i + 1) == f(
                Op::Add,
                quants::dot(single(f), xs, ys, i),
                f(Op::Mul, binary16::widened(xs[j].d), u4),
            )
        }),
{
    lemma_dot_step(f, xs, ys, i);
    lemma_share_step(f, xs, ys, i as int, 0);
    lemma_share_step(f, xs, ys, i as int, 1);
    lemma_share_step(f, xs, ys, i as int, 2);
    lemma_share_step(f, xs, ys, i as int, 3);
    assert(quants::share(single(f), xs, ys, i as int, 0) == 0);
}

/// A share depends on its own blocks only.
proof fn lemma_share_skipped(f: Rounding, xs: Seq<Quants>, ys: Seq<Quants>, a: nat, k: nat)
    requires
        a < xs.len(),
        4 * a + 4 <= ys.len(),
        k <= 4,
    ensures
        quants::share(single(f), xs.skip(a as int), ys.skip(4 * a as int), 0, k) == quants::share(
            single(f),
            xs,
            ys,
            a as int,
            k,
        ),
    decreases k,
{
    if k > 0 {
        let j = (k - 1) as nat;
        lemma_share_skipped(f, xs, ys, a, j);
        lemma_share_step(f, xs, ys, a as int, j);
        lemma_share_step(f, xs.skip(a as int), ys.skip(4 * a as int), 0, j);
        assert(xs.skip(a as int)[0] == xs[a as int]);
        assert(ys.skip(4 * a as int)[j as int] == ys[4 * a + j as int]);
    }
}

/// Zero plus a number is the number, and zero for a negative zero.
proof fn lemma_zero_plus(f: Rounding, x: u32)
    requires
        ieee::is_arithmetic(f),
        binary32::is_finite(x),
        binary32::units(x) < pow2(276),
    ensures
        f(Op::Add, 0, x) == if x == binary32::SIGN {
            0
        } else {
            x
        },
{
    let r = f(Op::Add, 0, x);
    binary32::lemma_sign_split(0);
    assert(binary32::units(0) == 0);
    lemma_sum(f, 0, x);
    binary32::lemma_units_nonnegative(x);
    ieee::lemma_exact(r, binary32::units(x), 1, x);
    binary32::lemma_sign_split(x);
    binary32::lemma_sign_split(r);
    if binary32::magnitude(x) != 0 {
        ieee::lemma_units_positive(x);
    }
}

/// Adding either zero is the same, but to a negative zero.
proof fn lemma_plus_zero(f: Rounding, p: u32)
    requires
        ieee::is_arithmetic(f),
        binary32::is_finite(p),
        binary32::units(p) < pow2(276),
        p != binary32::SIGN,
    ensures
        f(Op::Add, p, binary32::SIGN) == f(Op::Add, p, 0),
{
    let (a, b) = (f(Op::Add, p, binary32::SIGN), f(Op::Add, p, 0));
    binary32::lemma_sign_split(0);
    binary32::lemma_sign_split(binary32::SIGN);
    assert(binary32::units(0) == 0 && binary32::units(binary32::SIGN) == 0);
    lemma_sum(f, p, binary32::SIGN);
    lemma_sum(f, p, 0);
    ieee::lemma_unique(a, b, size(binary32::value(p)), 1);
    binary32::lemma_sign_split(a);
    binary32::lemma_sign_split(b);
    binary32::lemma_sign_split(p);
    if binary32::magnitude(p) != 0 {
        ieee::lemma_units_positive(p);
    }
}

/// A dot product over one more block is the dot product so far plus that of the
/// block alone, in one addition; over no blocks it is zero.
pub proof fn law_dot_appended(f: Rounding, xs: Seq<Quants>, ys: Seq<Quants>, a: nat)
    requires
        ieee::is_arithmetic(f),
        is_regular(xs, ys, a + 1),
    ensures
        quants::dot(single(f), xs, ys, a + 1) == f(
            Op::Add,
            quants::dot(single(f), xs, ys, a),
            quants::dot(single(f), xs.skip(a as int), ys.skip(4 * a as int), 1),
        ),
        quants::dot(single(f), xs, ys, 0) == 0,
{
    let p = quants::dot(single(f), xs, ys, a);
    let x = part(f, xs, ys, a as int);
    let (one, four) = (xs.skip(a as int), ys.skip(4 * a as int));
    lemma_dot_step(f, xs, ys, a);
    lemma_dot_step(f, one, four, 0);
    assert(one[0] == xs[a as int]);
    lemma_share_skipped(f, xs, ys, a, 4);
    assert(part(f, one, four, 0) == x);
    assert(quants::dot(single(f), one, four, 0) == 0);
    law_dot_finite(f, xs, ys, a);
    lemma_part_bound(f, xs, ys, a + 1, a as int);
    lemma_pow2_strictly_increases(200, 276);
    lemma_pow2_strictly_increases(226, 276);
    lemma_zero_plus(f, x);
    lemma_plus_zero(f, p);
}

/// `b` is the negation of `a`; a zero is that of either zero.
pub open spec fn opposite(a: u32, b: u32) -> bool {
    &&& binary32::magnitude(a) == binary32::magnitude(b)
    &&& binary32::magnitude(a) != 0 ==> binary32::negative(a) != binary32::negative(b)
}

proof fn lemma_opposite_value(a: u32, b: u32)
    requires
        opposite(a, b),
    ensures
        binary32::units(a) == binary32::units(b),
        binary32::value(b) == -binary32::value(a),
        binary32::magnitude(a) == 0 ==> binary32::units(a) == 0,
{
    binary32::lemma_sign_split(a);
}

proof fn lemma_opposite_sum(f: Rounding, a: u32, b: u32, c: u32, d: u32)
    requires
        ieee::is_arithmetic(f),
        opposite(a, c),
        opposite(b, d),
        binary32::is_finite(a),
        binary32::is_finite(b),
        binary32::units(a) + binary32::units(b) < pow2(276),
    ensures
        opposite(f(Op::Add, a, b), f(Op::Add, c, d)),
{
    lemma_opposite_value(a, c);
    lemma_opposite_value(b, d);
    lemma_sum(f, a, b);
    lemma_sum(f, c, d);
    let s = binary32::value(a) + binary32::value(b);
    ieee::lemma_unique(f(Op::Add, a, b), f(Op::Add, c, d), size(s), 1);
}

proof fn lemma_opposite_product(f: Rounding, w: u32, a: u32, c: u32)
    requires
        ieee::is_arithmetic(f),
        opposite(a, c),
        binary32::is_finite(w),
        binary32::is_finite(a),
    ensures
        opposite(f(Op::Mul, w, a), f(Op::Mul, w, c)),
{
    let (r, t) = (f(Op::Mul, w, a), f(Op::Mul, w, c));
    let (u, p) = (binary32::units(w), pow2(149) as int);
    lemma_opposite_value(a, c);
    lemma_pow2_pos(149);
    assert(ieee::is_product(w, a, r));
    assert(ieee::is_product(w, c, t));
    ieee::lemma_unique(r, t, u * binary32::units(a), p);
    if binary32::magnitude(a) == 0 {
        binary32::lemma_sign_split(0);
        assert(binary32::units(0) == 0);
        assert(u * 0 == 0 && 0 * p == 0) by (nonlinear_arith);
        ieee::lemma_exact(r, 0, p, 0);
    }
}

proof fn lemma_opposite_term(f: Rounding, h: u16, s: int)
    requires
        ieee::is_arithmetic(f),
        binary16::is_finite(h),
        -8192 <= s <= 8192,
    ensures
        opposite(
            f(Op::Mul, binary16::widened(h), binary32::integer(s)),
            f(Op::Mul, binary16::widened(h), binary32::integer(-s)),
        ),
{
    let w = binary16::widened(h);
    let (r, t) = (f(Op::Mul, w, binary32::integer(s)), f(Op::Mul, w, binary32::integer(-s)));
    lemma_term(f, h, s);
    lemma_term(f, h, -s);
    let v = binary32::value(w);
    assert(v * (-s) == -(v * s)) by (nonlinear_arith);
    ieee::lemma_unique(r, t, size(v * s), 1);
    if v * s == 0 {
        binary32::lemma_sign_split(0);
        assert(binary32::units(0) == 0);
        binary32::law_magnitude_order(r, 0);
    }
}

/// The blocks `us` and `vs` have the scales of `xs` and `ys`, and their integer
/// sums are the negated ones.
pub open spec fn mirrors(
    xs: Seq<Quants>,
    ys: Seq<Quants>,
    us: Seq<Quants>,
    vs: Seq<Quants>,
    nb: nat,
) -> bool {
    &&& forall|i: int| 0 <= i < nb ==> (#[trigger] us[i]).d == xs[i].d
    &&& forall|j: int| 0 <= j < 4 * nb ==> (#[trigger] vs[j]).d == ys[j].d
    &&& forall|i: int, k: int|
        0 <= i < nb && 0 <= k < 4 ==> #[trigger] group(us, vs, i, k) == -group(xs, ys, i, k)
}

proof fn lemma_opposite_share(
    f: Rounding,
    xs: Seq<Quants>,
    ys: Seq<Quants>,
    us: Seq<Quants>,
    vs: Seq<Quants>,
    nb: nat,
    i: int,
    k: nat,
)
    requires
        ieee::is_arithmetic(f),
        is_regular(xs, ys, nb),
        mirrors(xs, ys, us, vs, nb),
        0 <= i < nb,
        k <= 4,
    ensures
        opposite(
            quants::share(single(f), xs, ys, i, k),
            quants::share(single(f), us, vs, i, k),
        ),
    decreases k,
{
    if k > 0 {
        let j = (k - 1) as nat;
        let h = ys[4 * i + j].d;
        lemma_opposite_share(f, xs, ys, us, vs, nb, i, j);
        lemma_group_bound(xs, ys, nb, i, j as int);
        assert(group(us, vs, i, j as int) == -group(xs, ys, i, j as int));
        assert(vs[4 * i + j].d == h);
        lemma_opposite_term(f, h, group(xs, ys, i, j as int));
        lemma_term(f, h, group(xs, ys, i, j as int));
        lemma_share_bound(f, xs, ys, nb, i, j);
        lemma_share_step(f, xs, ys, i, j);
        lemma_share_step(f, us, vs, i, j);
        lemma_pow2_strictly_increases(179 + j, 275);
        lemma_pow2_strictly_increases(179, 275);
        lemma_pow2_unfold(276);
        lemma_opposite_sum(
            f,
            quants::share(single(f), xs, ys, i, j),
            term(f, xs, ys, i, j as int),
            quants::share(single(f), us, vs, i, j),
            term(f, us, vs, i, j as int),
        );
    }
}

/// Where every integer sum is negated, the dot product is negated, exactly.
pub proof fn law_dot_mirrored(
    f: Rounding,
    xs: Seq<Quants>,
    ys: Seq<Quants>,
    us: Seq<Quants>,
    vs: Seq<Quants>,
    nb: nat,
)
    requires
        ieee::is_arithmetic(f),
        is_regular(xs, ys, nb),
        mirrors(xs, ys, us, vs, nb),
    ensures
        opposite(quants::dot(single(f), xs, ys, nb), quants::dot(single(f), us, vs, nb)),
    decreases nb,
{
    if nb > 0 {
        let i = (nb - 1) as nat;
        law_dot_mirrored(f, xs, ys, us, vs, i);
        lemma_opposite_share(f, xs, ys, us, vs, nb, i as int, 4);
        lemma_share_bound(f, xs, ys, nb, i as int, 4);
        let w = binary16::widened(xs[i as int].d);
        binary16::law_widened(xs[i as int].d);
        assert(us[i as int].d == xs[i as int].d);
        lemma_opposite_product(
            f,
            w,
            quants::share(single(f), xs, ys, i as int, 4),
            quants::share(single(f), us, vs, i as int, 4),
        );
        law_dot_finite(f, xs, ys, i);
        lemma_part_bound(f, xs, ys, nb, i as int);
        lemma_dot_step(f, xs, ys, i);
        lemma_dot_step(f, us, vs, i);
        lemma_pow2_strictly_increases(200, 275);
        lemma_pow2_strictly_increases(226, 275);
        lemma_pow2_unfold(276);
        lemma_opposite_sum(
            f,
            quants::dot(single(f), xs, ys, i),
            part(f, xs, ys, i as int),
            quants::dot(single(f), us, vs, i),
            part(f, us, vs, i as int),
        );
    }
}

/// The negation of a number, where a zero stays as it is.
pub open spec fn negation(x: u32) -> u32 {
    if x == 0 {
        0
    } else {
        binary32::flipped(x)
    }
}

/// Two opposite numbers of which none is a negative zero are each the negation of
/// the other.
pub(crate) proof fn lemma_negation(a: u32, b: u32)
    requires
        opposite(a, b),
        a != binary32::SIGN,
        b != binary32::SIGN,
    ensures
        b == negation(a),
        binary32::value(b) == -binary32::value(a),
{
    lemma_opposite_value(a, b);
    binary32::lemma_sign_split(a);
    binary32::lemma_sign_split(b);
}

/// An inner product with one side negated is negated.
pub(crate) proof fn lemma_inner_negated(
    a: Seq<int>,
    i: int,
    b: Seq<int>,
    c: Seq<int>,
    d: Seq<int>,
    n: nat,
)
    requires
        forall|t: int|
            0 <= t < n ==> (#[trigger] c[i + t] == a[i + t] && d[t] == -b[t]) || (c[i + t]
                == -a[i + t] && d[t] == b[t]),
    ensures
        inner(c, i, d, 0, n) == -inner(a, i, b, 0, n),
    decreases n,
{
    if n > 0 {
        let t = n - 1;
        lemma_inner_negated(a, i, b, c, d, t as nat);
        let (x, y) = (a[i + t], b[t]);
        assert(c[i + t] == x || c[i + t] == -x);
        assert(x * (-y) == -(x * y) && (-x) * y == -(x * y)) by (nonlinear_arith);
    }
}

/// One addition on top of two values that are off: `p` is near `y` and `x` near
/// `v`, each within a multiple of `2^-24` of a bound, and so `r` is near their sum.
proof fn lemma_error_step(
    p: int,
    x: int,
    r: int,
    y: int,
    v: int,
    z: int,
    a: int,
    c: int,
    e: int,
)
    requires
        size(r - (p + x)) * 0x100_0000 <= size(p + x),
        size(p - y) * 0x100_0000 <= c * z,
        size(x - v) * 0x100_0000 <= e * a,
        size(y) <= z,
        size(v) <= a,
        0 <= e <= c <= 0x100_0000,
    ensures
        size(r - (y + v)) * 0x100_0000 <= (c + 2) * (z + a),
        size(y + v) <= z + a,
{
    assert(c * z <= 0x100_0000 * z) by (nonlinear_arith)
        requires
            c <= 0x100_0000,
            z >= 0,
    ;
    assert(e * a <= c * a && e * a <= 0x100_0000 * a) by (nonlinear_arith)
        requires
            e <= c <= 0x100_0000,
            a >= 0,
    ;
    assert((c + 2) * (z + a) == c * z + c * a + 2 * z + 2 * a) by (nonlinear_arith);
}

/// The magnitude of a half-precision number widens to the magnitude.
proof fn lemma_widened_size(h: u16)
    requires
        binary16::is_finite(h),
    ensures
        binary16::is_finite(binary16::magnitude(h) as u16),
        binary32::value(binary16::widened(binary16::magnitude(h) as u16)) == binary32::units(
            binary16::widened(h),
        ),
{
    binary16::law_widened(h);
    binary16::law_widened(binary16::magnitude(h) as u16);
}

/// An inner product is bounded by that of the magnitudes.
proof fn lemma_inner_size(a: Seq<int>, i: int, b: Seq<int>, c: Seq<int>, d: Seq<int>, n: nat)
    requires
        forall|t: int|
            0 <= t < n ==> #[trigger] c[i + t] == size(a[i + t]) && d[t] == size(b[t]),
    ensures
        size(inner(a, i, b, 0, n)) <= inner(c, i, d, 0, n),
    decreases n,
{
    if n > 0 {
        let t = n - 1;
        lemma_inner_size(a, i, b, c, d, t as nat);
        assert(c[i + t] == size(a[i + t]));
        lemma_size_product(a[i + t], b[t]);
    }
}

/// What an exact share adds for group `k` is bounded by what that of the
/// magnitudes adds.
proof fn lemma_exact_term(xs: Seq<Quants>, ys: Seq<Quants>, nb: nat, i: int, k: int)
    requires
        is_regular(xs, ys, nb),
        0 <= i < nb,
        0 <= k < 4,
    ensures
        size(binary32::value(binary16::widened(ys[4 * i + k].d)) * group(xs, ys, i, k))
            <= binary32::value(binary16::widened(sizes(ys)[4 * i + k].d)) * group(
            sizes(xs),
            sizes(ys),
            i,
            k,
        ),
{
    let (x, y) = (xs[i], ys[4 * i + k]);
    let (a, b) = (sizes(xs)[i], sizes(ys)[4 * i + k]);
    let v = binary32::value(binary16::widened(y.d));
    assert(x.q.len() == 128 && y.q.len() == 32);
    assert forall|t: int| 0 <= t < 32 implies #[trigger] a.q[32 * k + t] == size(x.q[32 * k + t])
        && b.q[t] == size(y.q[t]) by {}
    lemma_inner_size(x.q, 32 * k, y.q, a.q, b.q, 32);
    lemma_widened_size(y.d);
    binary32::lemma_units_nonnegative(binary16::widened(y.d));
    let (g, h) = (group(xs, ys, i, k), group(sizes(xs), sizes(ys), i, k));
    lemma_size_product(v, g);
    assert(size(v) * size(g) <= size(v) * h) by (nonlinear_arith)
        requires
            size(v) >= 0,
            size(g) <= h,
    ;
}

/// The exact share is added up from the left.
proof fn lemma_exact_step(xs: Seq<Quants>, ys: Seq<Quants>, i: int, k: nat)
    ensures
        quants::share(exact(), xs, ys, i, k + 1) == quants::share(exact(), xs, ys, i, k)
            + binary32::value(binary16::widened(ys[4 * i + k].d)) * group(xs, ys, i, k as int),
{
    assert(4 * i + (k + 1) - 1 == 4 * i + k);
    assert(32 * ((k + 1) - 1) == 32 * k);
}

/// A share is near the exact one.
proof fn lemma_share_error(
    f: Rounding,
    xs: Seq<Quants>,
    ys: Seq<Quants>,
    nb: nat,
    i: int,
    k: nat,
)
    requires
        ieee::is_arithmetic(f),
        is_regular(xs, ys, nb),
        0 <= i < nb,
        k <= 4,
    ensures
        size(
            binary32::value(quants::share(single(f), xs, ys, i, k)) - quants::share(
                exact(),
                xs,
                ys,
                i,
                k,
            ),
        ) * 0x100_0000 <= (1 + 2 * k) * quants::share(exact(), sizes(xs), sizes(ys), i, k),
        size(quants::share(exact(), xs, ys, i, k)) <= quants::share(
            exact(),
            sizes(xs),
            sizes(ys),
            i,
            k,
        ),
    decreases k,
{
    if k == 0 {
        binary32::lemma_sign_split(0);
        assert(binary32::value(0) == 0);
    } else {
        let j = (k - 1) as nat;
        let (h, g) = (ys[4 * i + j].d, group(xs, ys, i, j as int));
        lemma_share_error(f, xs, ys, nb, i, j);
        lemma_group_bound(xs, ys, nb, i, j as int);
        lemma_term(f, h, g);
        lemma_exact_term(xs, ys, nb, i, j as int);
        lemma_share_bound(f, xs, ys, nb, i, j);
        lemma_share_step(f, xs, ys, i, j);
        lemma_exact_step(xs, ys, i, j);
        lemma_exact_step(sizes(xs), sizes(ys), i, j);
        lemma_pow2_strictly_increases(179 + j, 275);
        lemma_pow2_strictly_increases(179, 275);
        lemma_pow2_unfold(276);
        let (s, t) = (quants::share(single(f), xs, ys, i, j), term(f, xs, ys, i, j as int));
        lemma_sum(f, s, t);
        let v = binary32::value(binary16::widened(h)) * g;
        let a = binary32::value(binary16::widened(sizes(ys)[4 * i + j].d)) * group(
            sizes(xs),
            sizes(ys),
            i,
            j as int,
        );
        lemma_error_step(
            binary32::value(s),
            binary32::value(t),
            binary32::value(f(Op::Add, s, t)),
            quants::share(exact(), xs, ys, i, j),
            v,
            quants::share(exact(), sizes(xs), sizes(ys), i, j),
            a,
            (1 + 2 * j) as int,
            1,
        );
    }
}

/// Multiplying by a scale: where `s` is near `t`, the rounded product `x` of `v`
/// and `s` is near `v * t`. The products are `d` and `a` in larger units.
proof fn lemma_error_scaled(
    v: int,
    s: int,
    t: int,
    z: int,
    x: int,
    d: int,
    a: int,
    p: int,
    q: int,
)
    requires
        size(s - t) * 0x100_0000 <= 9 * z,
        size(t) <= z,
        v * t == d * (p * q),
        size(v) * z == a * (p * q),
        size(x * p - v * s) * 0x100_0000 <= size(v * s) || size(x * p - v * s) * 2 <= p,
        v * s == 0 ==> x == 0,
        p > 0,
        q >= 0x80_0000,
    ensures
        size(x - d * q) * 0x100_0000 <= 11 * (a * q),
        size(d) <= a,
{
    let m = p * q;
    let (e, w) = (x * p - v * s, size(v));
    assert(m > 0 && 0x80_0000 * p <= m) by (nonlinear_arith)
        requires
            p > 0,
            q >= 0x80_0000,
            m == p * q,
    ;
    lemma_size_product(v, t);
    lemma_size_product(d, m);
    assert(w * size(t) <= w * z) by (nonlinear_arith)
        requires
            w >= 0,
            size(t) <= z,
    ;
    assert(size(d) <= a) by (nonlinear_arith)
        requires
            size(d) * m <= a * m,
            m > 0,
    ;
    lemma_size_product(v, s);
    lemma_size_product(v, s - t);
    assert(w * size(s) <= w * (2 * z)) by (nonlinear_arith)
        requires
            w >= 0,
            size(s) <= 2 * z,
    ;
    assert(w * (2 * z) == 2 * (w * z)) by (nonlinear_arith);
    assert((w * size(s - t)) * 0x100_0000 <= 9 * (w * z)) by (nonlinear_arith)
        requires
            w >= 0,
            size(s - t) * 0x100_0000 <= 9 * z,
    ;
    if a == 0 {
        assert(0 * m == 0 && 0 * q == 0) by (nonlinear_arith);
        assert(w == 0 || z == 0) by (nonlinear_arith)
            requires
                w * z == 0,
        ;
        assert(0 * s == 0 && v * 0 == 0) by (nonlinear_arith);
        assert(x == 0);
        assert(d == 0);
    } else {
        assert(a * m >= m) by (nonlinear_arith)
            requires
                a >= 1,
                m > 0,
        ;
        assert(size(e) * 0x100_0000 <= 2 * (a * m));
        assert(v * (s - t) == v * s - v * t) by (nonlinear_arith);
        let g = x - d * q;
        assert(g * p == x * p - d * m) by (nonlinear_arith)
            requires
                g == x - d * q,
                m == p * q,
        ;
        assert(g * p == e + v * (s - t));
        lemma_size_product(g, p);
        assert((size(g) * p) * 0x100_0000 <= 11 * (a * m));
        assert(size(g) * 0x100_0000 <= 11 * (a * q)) by (nonlinear_arith)
            requires
                (size(g) * p) * 0x100_0000 <= 11 * (a * m),
                m == p * q,
                p > 0,
        ;
    }
}

/// What a weight block adds is near the dense dot product that it covers.
proof fn lemma_part_error(f: Rounding, xs: Seq<Quants>, ys: Seq<Quants>, nb: nat, i: int)
    requires
        ieee::is_arithmetic(f),
        is_regular(xs, ys, nb),
        0 <= i < nb,
    ensures
        ({
            let d = quants::dense(xs, ys, 128 * i + 128) - quants::dense(xs, ys, 128 * i);
            let a = quants::dense(sizes(xs), sizes(ys), 128 * i + 128) - quants::dense(
                sizes(xs),
                sizes(ys),
                128 * i,
            );
            &&& size(binary32::value(part(f, xs, ys, i)) - d * pow2(101)) * 0x100_0000 <= 11 * (a
                * pow2(101))
            &&& size(d) <= a
        }),
{
    let h = xs[i].d;
    let (w, s, x) = (
        binary16::widened(h),
        quants::share(single(f), xs, ys, i, 4),
        part(f, xs, ys, i),
    );
    let (u, v, p) = (binary32::units(w), binary32::units(s), pow2(149) as int);
    assert forall|k: int| 0 <= k < 4 implies binary16::is_finite((#[trigger] ys[4 * i + k]).d)
        && binary16::is_finite((#[trigger] sizes(ys)[4 * i + k]).d) by {
        lemma_widened_size(ys[4 * i + k].d);
    }
    lemma_widened_size(h);
    quants::lemma_dense_block(xs, ys, i);
    quants::lemma_dense_block(sizes(xs), sizes(ys), i);
    lemma_share_error(f, xs, ys, nb, i, 4);
    lemma_share_bound(f, xs, ys, nb, i, 4);
    lemma_part_bound(f, xs, ys, nb, i);
    binary16::law_widened(h);
    binary32::lemma_units_nonnegative(w);
    binary32::lemma_units_nonnegative(s);
    binary32::lemma_units_nonnegative(x);
    lemma_pow2_pos(149);
    lemma_pow2_adds(149, 101);
    lemma_pow2_strictly_increases(23, 101);
    lemma2_to64();
    assert(ieee::is_product(w, s, x));
    assert(0 <= u * v) by (nonlinear_arith)
        requires
            u >= 0,
            v >= 0,
    ;
    lemma_pow2_strictly_increases(200, 276);
    assert(pow2(200) * p < p * pow2(276)) by (nonlinear_arith)
        requires
            pow2(200) < pow2(276),
            p > 0,
    ;
    ieee::lemma_error(x, u * v, p);
    let (a, b, c) = (binary32::value(w), binary32::value(s), binary32::value(x));
    lemma_size_product(a, b);
    assert(size(c * p - a * b) == size(binary32::units(x) * p - u * v)) by {
        let k = binary32::units(x);
        assert((-u) * v == -(u * v) && u * (-v) == -(u * v) && (-u) * (-v) == u * v && (-k) * p
            == -(k * p)) by (nonlinear_arith);
    }
    if a * b == 0 {
        binary32::lemma_sign_split(0);
        assert(binary32::units(0) == 0);
        assert(0 * p == 0) by (nonlinear_arith);
        ieee::lemma_exact(x, 0, p, 0);
    }
    let d = quants::dense(xs, ys, 128 * i + 128) - quants::dense(xs, ys, 128 * i);
    let e = quants::dense(sizes(xs), sizes(ys), 128 * i + 128) - quants::dense(
        sizes(xs),
        sizes(ys),
        128 * i,
    );
    lemma_error_scaled(
        a,
        b,
        quants::share(exact(), xs, ys, i, 4),
        quants::share(exact(), sizes(xs), sizes(ys), i, 4),
        c,
        d,
        e,
        p,
        pow2(101) as int,
    );
}

/// The error of a dot product, block by block.
proof fn lemma_dot_error(f: Rounding, xs: Seq<Quants>, ys: Seq<Quants>, nb: nat)
    requires
        ieee::is_arithmetic(f),
        is_regular(xs, ys, nb),
        nb <= 0x40_0000,
    ensures
        size(
            binary32::value(quants::dot(single(f), xs, ys, nb)) - quants::dense(
                xs,
                ys,
                128 * nb as int,
            ) * pow2(101),
        ) * 0x100_0000 <= (2 * nb + 12) * (quants::dense(sizes(xs), sizes(ys), 128 * nb as int)
            * pow2(101)),
        size(quants::dense(xs, ys, 128 * nb as int) * pow2(101)) <= quants::dense(
            sizes(xs),
            sizes(ys),
            128 * nb as int,
        ) * pow2(101),
    decreases nb,
{
    let q = pow2(101) as int;
    lemma_pow2_pos(101);
    if nb == 0 {
        binary32::lemma_sign_split(0);
        assert(binary32::value(0) == 0);
        assert(0 * q == 0) by (nonlinear_arith);
    } else {
        let i = (nb - 1) as nat;
        lemma_dot_error(f, xs, ys, i);
        assert(128 * nb == 128 * i + 128);
        lemma_part_error(f, xs, ys, nb, i as int);
        law_dot_finite(f, xs, ys, i);
        lemma_part_bound(f, xs, ys, nb, i as int);
        lemma_dot_step(f, xs, ys, i);
        lemma_pow2_strictly_increases(200, 275);
        lemma_pow2_strictly_increases(226, 275);
        lemma_pow2_unfold(276);
        let (p, x) = (quants::dot(single(f), xs, ys, i), part(f, xs, ys, i as int));
        lemma_sum(f, p, x);
        let (y, y1) = (
            quants::dense(xs, ys, 128 * i as int),
            quants::dense(xs, ys, 128 * nb as int),
        );
        let (z, z1) = (
            quants::dense(sizes(xs), sizes(ys), 128 * i as int),
            quants::dense(sizes(xs), sizes(ys), 128 * nb as int),
        );
        let (d, a) = (y1 - y, z1 - z);
        assert(y * q + d * q == y1 * q && z * q + a * q == z1 * q) by (nonlinear_arith)
            requires
                d == y1 - y,
                a == z1 - z,
        ;
        lemma_size_product(d, q);
        assert(size(d) * q <= a * q) by (nonlinear_arith)
            requires
                size(d) <= a,
                q > 0,
        ;
        lemma_error_step(
            binary32::value(p),
            binary32::value(x),
            binary32::value(f(Op::Add, p, x)),
            y * q,
            d * q,
            z * q,
            a * q,
            (2 * i + 12) as int,
            11,
        );
    }
}

/// The packed dot product is the dense one up to rounding: it is off by at most
/// `(nb + 8) * 2^-23` of the dense dot product of the magnitudes. The dense
/// products are in units of `2^-48`, the packed one in units of `2^-149`.
pub proof fn law_dot_near_dense(f: Rounding, xs: Seq<Quants>, ys: Seq<Quants>, nb: nat)
    requires
        ieee::is_arithmetic(f),
        is_regular(xs, ys, nb),
        nb <= 0x40_0000,
    ensures
        binary32::is_finite(quants::dot(single(f), xs, ys, nb)),
        size(
            binary32::value(quants::dot(single(f), xs, ys, nb)) - quants::dense(
                xs,
                ys,
                128 * nb as int,
            ) * pow2(101),
        ) * 0x80_0000 <= (nb + 8) * (quants::dense(sizes(xs), sizes(ys), 128 * nb as int) * pow2(
            101,
        )),
{
    law_dot_finite(f, xs, ys, nb);
    lemma_dot_error(f, xs, ys, nb);
    let z = quants::dense(sizes(xs), sizes(ys), 128 * nb as int) * pow2(101);
    assert((2 * nb + 12) * z <= 2 * ((nb + 8) * z)) by (nonlinear_arith)
        requires
            z >= 0,
    ;
}

/// The dot product of the first `n` weights, unpacked, with the first `n` of the
/// activations `acts`, not quantised, without any rounding, in units of `2^-173`.
pub open spec fn dense_input(xs: Seq<Quants>, acts: Seq<u32>, n: int) -> int
    decreases n,
{
    if n <= 0 {
        0
    } else {
        dense_input(xs, acts, n - 1) + quants::element_value(xs, 128, n - 1) * binary32::value(
            acts[n - 1],
        )
    }
}

/// The sum of the magnitudes of the first `n` weights, each times the step of the
/// activation that it meets, in units of `2^-173`.
pub open spec fn steps_met(f: Rounding, xs: Seq<Quants>, acts: Seq<u32>, n: int) -> int
    decreases n,
{
    if n <= 0 {
        0
    } else {
        steps_met(f, xs, acts, n - 1) + size(quants::element_value(xs, 128, n - 1)) * q8_0::reach(
            q8_0::step(f, q8_0::group(acts, (n - 1) / 32)),
        )
    }
}

/// The first `n` groups of the activations are finite, and half precision has room
/// for their scales.
pub open spec fn moderate(f: Rounding, acts: Seq<u32>, n: nat) -> bool {
    &&& acts.len() >= 32 * n
    &&& forall|e: int| 0 <= e < 32 * n ==> binary32::is_finite(#[trigger] acts[e])
    &&& forall|j: int|
        0 <= j < n ==> q8_0::step(f, #[trigger] q8_0::group(acts, j)) < narrowing::LIMIT
}

/// Quantising the activations moves a dense dot product by at most 9/16 of the
/// steps that the weights meet.
pub proof fn law_dense_near_input(
    f: Rounding,
    g: Narrowing,
    xs: Seq<Quants>,
    acts: Seq<u32>,
    nb: nat,
    n: nat,
)
    requires
        ieee::is_arithmetic(f),
        narrowing::is_narrowing(g),
        moderate(f, acts, 4 * nb),
        n <= 128 * nb,
    ensures
        16 * size(
            quants::dense(xs, q8_0::blocks(f, g, acts, 4 * nb), n as int) * pow2(125)
                - dense_input(xs, acts, n as int),
        ) <= 9 * steps_met(f, xs, acts, n as int),
    decreases n,
{
    let ys = q8_0::blocks(f, g, acts, 4 * nb);
    let p = pow2(125) as int;
    if n == 0 {
        assert(0 * p == 0) by (nonlinear_arith);
    } else {
        let e = n - 1;
        law_dense_near_input(f, g, xs, acts, nb, e as nat);
        let (j, t) = (e / 32, e % 32);
        let group = q8_0::group(acts, j);
        assert(group[t] == acts[e]);
        assert(binary32::is_finite(acts[e]));
        q8_0::law_activation_near(f, g, group, t);
        assert(ys[j] == q8_0::quantized(f, g, group));
        binary16::lemma_widened_value(ys[j].d);
        let (w, a, x) = (
            quants::element_value(xs, 128, e),
            quants::element_value(ys, 32, e),
            binary32::value(acts[e]),
        );
        let (v, q) = (binary16::value(ys[j].d), ys[j].q[t]);
        assert(a * p == (v * p) * q) by (nonlinear_arith)
            requires
                a == v * q,
        ;
        let r = q8_0::reach(q8_0::step(f, group));
        lemma_size_product(w, a * p - x);
        assert(16 * (size(w) * size(a * p - x)) <= 9 * (size(w) * r)) by (nonlinear_arith)
            requires
                size(w) >= 0,
                16 * size(a * p - x) <= 9 * r,
        ;
        let d = quants::dense(xs, ys, e);
        assert((d + w * a) * p == d * p + w * (a * p)) by (nonlinear_arith);
        assert(w * (a * p - x) == w * (a * p) - w * x) by (nonlinear_arith);
    }
}

/// Blocks of quantised activations are such as the laws of rounding ask for.
pub(crate) proof fn lemma_blocks_regular(
    f: Rounding,
    g: Narrowing,
    xs: Seq<Quants>,
    acts: Seq<u32>,
    nb: nat,
)
    requires
        ieee::is_arithmetic(f),
        narrowing::is_narrowing(g),
        regular_weights(xs, nb),
        moderate(f, acts, 4 * nb),
    ensures
        is_regular(xs, q8_0::blocks(f, g, acts, 4 * nb), nb),
{
    let ys = q8_0::blocks(f, g, acts, 4 * nb);
    assert forall|j: int| 0 <= j < 4 * nb implies (#[trigger] ys[j]).q.len() == 32
        && binary16::is_finite(ys[j].d) by {
        let group = q8_0::group(acts, j);
        assert(group[0] == acts[32 * j]);
        assert(binary32::is_finite(acts[32 * j]));
        q8_0::law_activation_near(f, g, group, 0);
    }
    assert forall|j: int, t: int| 0 <= j < 4 * nb && 0 <= t < 32 implies -128
        <= #[trigger] ys[j].q[t] <= 128 by {
        let group = q8_0::group(acts, j);
        let d = q8_0::step(f, group);
        binary32::law_rounded(f(Op::Mul, group[t], q8_0::inverse(f, d)), 127);
    }
}

/// The dot product of packed weights with quantised activations is near the dense
/// one of the unpacked weights with the activations themselves: it is off by at
/// most `(nb + 8) * 2^-23` of the dense dot product of the magnitudes, for the
/// rounding, and 9/16 of the steps that the weights meet, for the quantising. All
/// is in units of `2^-173`.
pub proof fn law_dot_near_input(
    f: Rounding,
    g: Narrowing,
    xs: Seq<Quants>,
    acts: Seq<u32>,
    nb: nat,
)
    requires
        ieee::is_arithmetic(f),
        narrowing::is_narrowing(g),
        regular_weights(xs, nb),
        moderate(f, acts, 4 * nb),
        nb <= 0x40_0000,
    ensures
        ({
            let ys = q8_0::blocks(f, g, acts, 4 * nb);
            let r = quants::dot(single(f), xs, ys, nb);
            let off = size(
                binary32::value(r) * pow2(24) - dense_input(xs, acts, 128 * nb as int),
            );
            &&& binary32::is_finite(r)
            &&& off * 0x800_0000 <= 16 * ((nb + 8) * (quants::dense(
                sizes(xs),
                sizes(ys),
                128 * nb as int,
            ) * pow2(125))) + 0x480_0000 * steps_met(f, xs, acts, 128 * nb as int)
        }),
{
    let ys = q8_0::blocks(f, g, acts, 4 * nb);
    let n = 128 * nb as int;
    lemma_blocks_regular(f, g, xs, acts, nb);
    law_dot_near_dense(f, xs, ys, nb);
    law_dense_near_input(f, g, xs, acts, nb, 128 * nb);
    let v = binary32::value(quants::dot(single(f), xs, ys, nb));
    let (d, s) = (quants::dense(xs, ys, n), quants::dense(sizes(xs), sizes(ys), n));
    let (p, q, t) = (pow2(101) as int, pow2(24) as int, pow2(125) as int);
    lemma_pow2_adds(101, 24);
    lemma_pow2_pos(24);
    assert((v - d * p) * q == v * q - d * t) by (nonlinear_arith)
        requires
            t == p * q,
    ;
    lemma_size_product(v - d * p, q);
    let b = (nb + 8) as int;
    assert((size(v - d * p) * q) * 0x80_0000 <= b * (s * t)) by (nonlinear_arith)
        requires
            size(v - d * p) * 0x80_0000 <= b * (s * p),
            t == p * q,
            q > 0,
    ;
}

/// The dot product of the first `n` of the weights `ws` with the first `n` of the
/// activations `acts`, none of them quantised, without any rounding, in units of
/// `2^-298`.
pub open spec fn dense_raw(ws: Seq<u32>, acts: Seq<u32>, n: int) -> int
    decreases n,
{
    if n <= 0 {
        0
    } else {
        dense_raw(ws, acts, n - 1) + binary32::value(ws[n - 1]) * binary32::value(acts[n - 1])
    }
}

/// The sum of the magnitudes of the first `n` activations, each times the scale of
/// the weight that it meets, in units of `2^-298`.
pub open spec fn scales_met(scales: Seq<u32>, acts: Seq<u32>, n: int) -> int
    decreases n,
{
    if n <= 0 {
        0
    } else {
        scales_met(scales, acts, n - 1) + binary32::units(scales[(n - 1) / 128]) * binary32::units(
            acts[n - 1],
        )
    }
}

/// The first `nb` blocks stand for the weights `ws` up to `c / m` of their scales.
pub open spec fn stand_for(
    xs: Seq<Quants>,
    ws: Seq<u32>,
    scales: Seq<u32>,
    nb: nat,
    c: int,
    m: int,
) -> bool {
    forall|e: int|
        0 <= e < 128 * nb ==> size(
            #[trigger] quants::element_value(xs, 128, e) * pow2(125) - binary32::value(ws[e]),
        ) * m <= c * binary32::units(scales[e / 128])
}

/// Quantising the weights moves a dense dot product by as much of the scales that
/// the activations meet as it moves the weights.
pub proof fn law_input_near_raw(
    xs: Seq<Quants>,
    ws: Seq<u32>,
    scales: Seq<u32>,
    acts: Seq<u32>,
    nb: nat,
    n: nat,
    c: int,
    m: int,
)
    requires
        stand_for(xs, ws, scales, nb, c, m),
        n <= 128 * nb,
        m > 0,
    ensures
        size(dense_input(xs, acts, n as int) * pow2(125) - dense_raw(ws, acts, n as int)) * m <= c
            * scales_met(scales, acts, n as int),
    decreases n,
{
    let p = pow2(125) as int;
    if n == 0 {
        assert(0 * p == 0 && 0 * m == 0 && c * 0 == 0) by (nonlinear_arith);
    } else {
        let e = n - 1;
        law_input_near_raw(xs, ws, scales, acts, nb, e as nat, c, m);
        let (w, v, x) = (
            quants::element_value(xs, 128, e),
            binary32::value(ws[e]),
            binary32::value(acts[e]),
        );
        let (u, z) = (binary32::units(scales[e / 128]), binary32::units(acts[e]));
        binary32::lemma_units_nonnegative(acts[e]);
        let (a, b) = (dense_input(xs, acts, e), dense_raw(ws, acts, e));
        let k = w * p - v;
        lemma_size_product(k, x);
        assert((size(k) * z) * m <= c * (u * z)) by (nonlinear_arith)
            requires
                size(k) * m <= c * u,
                z >= 0,
        ;
        let (s, t) = (a * p - b, k * x);
        assert((a + w * x) * p - (b + v * x) == s + t) by (nonlinear_arith)
            requires
                s == a * p - b,
                t == k * x,
                k == w * p - v,
        ;
        assert(size(s + t) * m <= size(s) * m + size(t) * m) by (nonlinear_arith)
            requires
                size(s + t) <= size(s) + size(t),
                m > 0,
        ;
        let y = scales_met(scales, acts, e);
        assert(c * (y + u * z) == c * y + c * (u * z)) by (nonlinear_arith);
    }
}

/// The dot product of packed weights with quantised activations is near the dense
/// one of weights and activations before either was quantised. All is in units of
/// `2^-298`.
pub(crate) proof fn lemma_dot_near_raw(
    f: Rounding,
    g: Narrowing,
    xs: Seq<Quants>,
    ws: Seq<u32>,
    scales: Seq<u32>,
    acts: Seq<u32>,
    nb: nat,
    c: int,
    m: int,
    k: int,
)
    requires
        ieee::is_arithmetic(f),
        narrowing::is_narrowing(g),
        regular_weights(xs, nb),
        stand_for(xs, ws, scales, nb, c, m),
        moderate(f, acts, 4 * nb),
        nb <= 0x40_0000,
        m > 0,
        k > 0,
        m * k == 0x800_0000,
    ensures
        ({
            let ys = q8_0::blocks(f, g, acts, 4 * nb);
            let r = quants::dot(single(f), xs, ys, nb);
            let n = 128 * nb as int;
            &&& binary32::is_finite(r)
            &&& size(binary32::value(r) * pow2(149) - dense_raw(ws, acts, n)) * 0x800_0000 <= 16 * ((
            nb + 8) * (quants::dense(sizes(xs), sizes(ys), n) * pow2(250))) + 0x480_0000 * (
            steps_met(f, xs, acts, n) * pow2(125)) + k * c * scales_met(scales, acts, n)
        }),
{
    let ys = q8_0::blocks(f, g, acts, 4 * nb);
    let n = 128 * nb as int;
    law_dot_near_input(f, g, xs, acts, nb);
    law_input_near_raw(xs, ws, scales, acts, nb, 128 * nb, c, m);
    let v = binary32::value(quants::dot(single(f), xs, ys, nb));
    let (i, b, s) = (
        dense_input(xs, acts, n),
        dense_raw(ws, acts, n),
        quants::dense(sizes(xs), sizes(ys), n),
    );
    let (t, z) = (steps_met(f, xs, acts, n), scales_met(scales, acts, n));
    let (p, q) = (pow2(24) as int, pow2(125) as int);
    lemma_pow2_adds(24, 125);
    lemma_pow2_adds(125, 125);
    lemma_pow2_pos(125);
    let e = v * p - i;
    assert(v * (p * q) - b == e * q + (i * q - b)) by (nonlinear_arith)
        requires
            e == v * p - i,
    ;
    lemma_size_product(e, q);
    let h = (nb + 8) as int;
    let (bound, goal) = (h * (s * q), h * (s * (q * q)));
    assert(bound * q == goal) by (nonlinear_arith)
        requires
            bound == h * (s * q),
            goal == h * (s * (q * q)),
    ;
    assert((size(e) * q) * 0x800_0000 <= 16 * (bound * q) + 0x480_0000 * (t * q))
        by (nonlinear_arith)
        requires
            size(e) * 0x800_0000 <= 16 * bound + 0x480_0000 * t,
            q > 0,
    ;
    let d = size(i * q - b);
    assert(d * (m * k) <= k * c * z) by (nonlinear_arith)
        requires
            d * m <= c * z,
            k > 0,
    ;
}

/// The magnitude of a product of elements is the product of their magnitudes.
pub(crate) proof fn lemma_sizes_element(xs: Seq<Quants>, n: int, e: int)
    requires
        0 <= e,
        n > 0,
        e / n < xs.len(),
        xs[e / n].q.len() == n,
    ensures
        quants::element_value(sizes(xs), n, e) == size(quants::element_value(xs, n, e)),
{
    let b = xs[e / n];
    assert(0 <= e / n && 0 <= e % n < n) by {
        vstd::arithmetic::div_mod::lemma_mod_bound(e, n);
        vstd::arithmetic::div_mod::lemma_div_pos_is_pos(e, n);
    }
    lemma_size_product(binary16::value(b.d), b.q[e % n]);
    assert(binary16::value(sizes(xs)[e / n].d) == size(binary16::value(b.d))) by {
        let h = b.d;
        let m = binary16::magnitude(h) as u16;
        assert(binary16::units(m) == binary16::units(h));
        assert(binary16::units(h) >= 0) by {
            if binary16::exponent(h) > 0 {
                let (a, p) = (
                    0x400 + binary16::mantissa(h),
                    pow2((binary16::exponent(h) - 1) as nat) as int,
                );
                assert(a * p >= 0) by (nonlinear_arith)
                    requires
                        a >= 0,
                        p >= 0,
                ;
            }
        }
    }
}

/// A dense dot product is the sum of its terms.
pub(crate) proof fn lemma_dense_sum(
    xs: Seq<Quants>,
    ys: Seq<Quants>,
    terms: Seq<int>,
    n: nat,
)
    requires
        n <= terms.len(),
        forall|e: int|
            0 <= e < n ==> #[trigger] terms[e] == quants::element_value(xs, 128, e)
                * quants::element_value(ys, 32, e),
    ensures
        quants::dense(xs, ys, n as int) == sum(terms.take(n as int)),
    decreases n,
{
    if n > 0 {
        lemma_dense_sum(xs, ys, terms, (n - 1) as nat);
        laws::lemma_sum_take(terms, n - 1);
    }
}

/// A dot product is near the sum of its terms.
pub(crate) proof fn lemma_dot_near_sum(
    f: Rounding,
    xs: Seq<Quants>,
    ys: Seq<Quants>,
    nb: nat,
    terms: Seq<int>,
    parts: Seq<int>,
)
    requires
        ieee::is_arithmetic(f),
        is_regular(xs, ys, nb),
        nb <= 0x40_0000,
        terms.len() == 128 * nb,
        parts.len() == 128 * nb,
        forall|e: int|
            0 <= e < 128 * nb ==> #[trigger] terms[e] == quants::element_value(xs, 128, e)
                * quants::element_value(ys, 32, e),
        forall|e: int| 0 <= e < 128 * nb ==> #[trigger] parts[e] == size(terms[e]),
    ensures
        binary32::is_finite(quants::dot(single(f), xs, ys, nb)),
        size(
            binary32::value(quants::dot(single(f), xs, ys, nb)) - sum(terms) * pow2(101),
        ) * 0x80_0000 <= (nb + 8) * (sum(parts) * pow2(101)),
{
    law_dot_near_dense(f, xs, ys, nb);
    lemma_dense_sum(xs, ys, terms, 128 * nb);
    assert(terms.take(128 * nb as int) =~= terms);
    assert(parts.take(128 * nb as int) =~= parts);
    assert forall|e: int| 0 <= e < 128 * nb implies #[trigger] parts[e] == quants::element_value(
        sizes(xs),
        128,
        e,
    ) * quants::element_value(sizes(ys), 32, e) by {
        assert(xs[e / 128].q.len() == 128 && ys[e / 32].q.len() == 32);
        lemma_sizes_element(xs, 128, e);
        lemma_sizes_element(ys, 32, e);
        lemma_size_product(
            quants::element_value(xs, 128, e),
            quants::element_value(ys, 32, e),
        );
        assert(terms[e] == quants::element_value(xs, 128, e) * quants::element_value(ys, 32, e));
    }
    lemma_dense_sum(sizes(xs), sizes(ys), parts, 128 * nb);
}

/// What a step is counted as where the activations of its group are bounded by
/// `top`, times 126.
pub open spec fn counted(top: u32) -> int {
    if binary32::units(top) >= 126 * (1024 * pow2(125)) {
        binary32::units(top)
    } else {
        126 * (1024 * pow2(125)) as int
    }
}

/// The step of a group of bounded activations.
pub(crate) proof fn lemma_step_bounded(f: Rounding, acts: Seq<u32>, top: u32)
    requires
        ieee::is_arithmetic(f),
        top <= 0x4af4_2400,
        forall|t: int| 0 <= t < acts.len() ==> binary32::magnitude(#[trigger] acts[t]) <= top,
    ensures
        q8_0::step(f, acts) < narrowing::LIMIT,
        126 * q8_0::reach(q8_0::step(f, acts)) <= counted(top),
{
    let most = binary32::largest(acts);
    let d = q8_0::step(f, acts);
    binary32::law_largest(acts);
    assert(most <= top);
    q8_0::law_step_near(f, acts);
    binary32::lemma_sign_split(most);
    binary32::lemma_sign_split(top);
    binary32::lemma_sign_split(d);
    binary32::lemma_sign_split(0x4af4_2400);
    binary32::law_magnitude_order(most, top);
    binary32::law_magnitude_order(top, 0x4af4_2400);
    binary32::lemma_units_nonnegative(d);
    binary32::lemma_units_nonnegative(most);
    narrowing::lemma_largest();
    lemma2_to64();
    let p = pow2(148) as int;
    assert(binary32::exponent(0x4af4_2400) == 149);
    assert(binary32::units(0x4af4_2400) == 16_000_000 * p);
    lemma_pow2_adds(5, 148);
    lemma_pow2_adds(23, 125);
    lemma_pow2_strictly_increases(23, 125);
    assert(0x80_0000 * pow2(125) == p);
    binary32::law_magnitude_order(d, narrowing::LIMIT);
}

/// Activations that are bounded are moderate.
proof fn lemma_bounded_moderate(f: Rounding, acts: Seq<u32>, tops: Seq<u32>, n: nat)
    requires
        ieee::is_arithmetic(f),
        acts.len() == 32 * n,
        forall|e: int|
            0 <= e < 32 * n ==> binary32::magnitude(#[trigger] acts[e]) <= tops[e / 32]
                <= 0x4af4_2400,
    ensures
        moderate(f, acts, n),
        forall|j: int|
            0 <= j < n ==> 126 * q8_0::reach(q8_0::step(f, #[trigger] q8_0::group(acts, j)))
                <= counted(tops[j]),
{
    assert forall|j: int| 0 <= j < n implies q8_0::step(f, #[trigger] q8_0::group(acts, j))
        < narrowing::LIMIT && 126 * q8_0::reach(q8_0::step(f, q8_0::group(acts, j))) <= counted(
        tops[j],
    ) by {
        let group = q8_0::group(acts, j);
        assert forall|t: int| 0 <= t < group.len() implies binary32::magnitude(#[trigger] group[t])
            <= tops[j] by {
            let e = 32 * j + t;
            assert(group[t] == acts[e] && e / 32 == j);
        }
        assert(binary32::magnitude(acts[32 * j]) <= tops[(32 * j) / 32] <= 0x4af4_2400);
        lemma_step_bounded(f, group, tops[j]);
    }
}

/// The sums over the activations themselves, term by term.
proof fn lemma_input_sums(
    f: Rounding,
    g: Narrowing,
    xs: Seq<Quants>,
    acts: Seq<u32>,
    nb: nat,
    tops: Seq<u32>,
    terms: Seq<int>,
    parts: Seq<int>,
    steps: Seq<int>,
    n: nat,
)
    requires
        ieee::is_arithmetic(f),
        narrowing::is_narrowing(g),
        regular_weights(xs, nb),
        moderate(f, acts, 4 * nb),
        n <= 128 * nb,
        terms.len() == 128 * nb,
        parts.len() == 128 * nb,
        steps.len() == 128 * nb,
        forall|j: int|
            0 <= j < 4 * nb ==> 126 * q8_0::reach(
                q8_0::step(f, #[trigger] q8_0::group(acts, j)),
            ) <= counted(tops[j]),
        forall|e: int|
            0 <= e < 128 * nb ==> #[trigger] terms[e] == quants::element_value(xs, 128, e)
                * binary32::value(acts[e]),
        forall|e: int| 0 <= e < 128 * nb ==> #[trigger] parts[e] == size(terms[e]),
        forall|e: int|
            0 <= e < 128 * nb ==> #[trigger] steps[e] == size(quants::element_value(xs, 128, e))
                * counted(tops[e / 32]),
    ensures
        dense_input(xs, acts, n as int) == sum(terms.take(n as int)),
        126 * steps_met(f, xs, acts, n as int) <= sum(steps.take(n as int)),
        16 * (quants::dense(sizes(xs), sizes(q8_0::blocks(f, g, acts, 4 * nb)), n as int) * pow2(
            125,
        )) <= 16 * sum(parts.take(n as int)) + 9 * steps_met(f, xs, acts, n as int),
        steps_met(f, xs, acts, n as int) >= 0,
        sum(parts.take(n as int)) >= 0,
    decreases n,
{
    let ys = q8_0::blocks(f, g, acts, 4 * nb);
    let p = pow2(125) as int;
    if n == 0 {
        assert(0 * p == 0) by (nonlinear_arith);
    } else {
        let e = n - 1;
        lemma_input_sums(f, g, xs, acts, nb, tops, terms, parts, steps, e as nat);
        laws::lemma_sum_take(terms, e);
        laws::lemma_sum_take(parts, e);
        laws::lemma_sum_take(steps, e);
        let (j, t) = (e / 32, e % 32);
        let group = q8_0::group(acts, j);
        assert(group[t] == acts[e]);
        assert(binary32::is_finite(acts[e]));
        q8_0::law_activation_near(f, g, group, t);
        assert(ys[j] == q8_0::quantized(f, g, group));
        binary16::lemma_widened_value(ys[j].d);
        let (w, a, x) = (
            quants::element_value(xs, 128, e),
            quants::element_value(ys, 32, e),
            binary32::value(acts[e]),
        );
        let (v, q) = (binary16::value(ys[j].d), ys[j].q[t]);
        assert(a * p == (v * p) * q) by (nonlinear_arith)
            requires
                a == v * q,
        ;
        let r = q8_0::reach(q8_0::step(f, group));
        assert(xs[e / 128].q.len() == 128 && ys[j].q.len() == 32);
        lemma_sizes_element(xs, 128, e);
        lemma_sizes_element(ys, 32, e);
        lemma_size_product(w, x);
        assert(terms[e] == w * x && parts[e] == size(terms[e]));
        let (k, y, z) = (size(w), size(a), size(x));
        lemma_pow2_pos(125);
        lemma_size_product(a, p);
        assert(16 * (y * p) <= 16 * z + 9 * r);
        assert(16 * ((k * y) * p) <= 16 * (k * z) + 9 * (k * r)) by (nonlinear_arith)
            requires
                k >= 0,
                16 * (y * p) <= 16 * z + 9 * r,
        ;
        let d = quants::dense(sizes(xs), sizes(ys), e);
        assert((d + k * y) * p == d * p + (k * y) * p) by (nonlinear_arith);
        let c = counted(tops[j]);
        assert(steps[e] == k * c);
        assert(126 * (k * r) <= k * c && k * r >= 0 && k * z >= 0) by (nonlinear_arith)
            requires
                k >= 0,
                126 * r <= c,
                r >= 0,
                z >= 0,
        ;
    }
}

/// A dot product with quantised activations is near the sum of the products of the
/// unpacked weights and the activations themselves.
pub(crate) proof fn lemma_dot_near_terms(
    f: Rounding,
    g: Narrowing,
    xs: Seq<Quants>,
    acts: Seq<u32>,
    nb: nat,
    tops: Seq<u32>,
    terms: Seq<int>,
    parts: Seq<int>,
    steps: Seq<int>,
)
    requires
        ieee::is_arithmetic(f),
        narrowing::is_narrowing(g),
        regular_weights(xs, nb),
        nb <= 0x40_0000,
        acts.len() == 128 * nb,
        terms.len() == 128 * nb,
        parts.len() == 128 * nb,
        steps.len() == 128 * nb,
        forall|e: int|
            0 <= e < 128 * nb ==> binary32::magnitude(#[trigger] acts[e]) <= tops[e / 32]
                <= 0x4af4_2400,
        forall|e: int|
            0 <= e < 128 * nb ==> #[trigger] terms[e] == quants::element_value(xs, 128, e)
                * binary32::value(acts[e]),
        forall|e: int| 0 <= e < 128 * nb ==> #[trigger] parts[e] == size(terms[e]),
        forall|e: int|
            0 <= e < 128 * nb ==> #[trigger] steps[e] == size(quants::element_value(xs, 128, e)) * (
            if binary32::units(tops[e / 32]) >= 126 * (1024 * pow2(125)) {
                binary32::units(tops[e / 32])
            } else {
                126 * (1024 * pow2(125)) as int
            }),
    ensures
        ({
            let r = quants::dot(single(f), xs, q8_0::blocks(f, g, acts, 4 * nb), nb);
            &&& binary32::is_finite(r)
            &&& size(binary32::value(r) * pow2(24) - sum(terms)) * 0x3_f000_0000 <= 2016 * ((nb + 8)
                * sum(parts)) + 9 * ((0x80_0000 + nb + 8) * sum(steps))
        }),
{
    let ys = q8_0::blocks(f, g, acts, 4 * nb);
    let n = 128 * nb as int;
    lemma_bounded_moderate(f, acts, tops, 4 * nb);
    lemma_input_sums(f, g, xs, acts, nb, tops, terms, parts, steps, 128 * nb);
    assert(terms.take(n) =~= terms);
    assert(parts.take(n) =~= parts);
    assert(steps.take(n) =~= steps);
    law_dot_near_input(f, g, xs, acts, nb);
    let (s, z, t, u) = (
        quants::dense(sizes(xs), sizes(ys), n) * pow2(125),
        sum(parts),
        steps_met(f, xs, acts, n),
        sum(steps),
    );
    let b = (nb + 8) as int;
    assert(16 * (b * s) <= 16 * (b * z) + 9 * (b * t)) by (nonlinear_arith)
        requires
            16 * s <= 16 * z + 9 * t,
            b > 0,
    ;
    assert(126 * (b * t) <= b * u) by (nonlinear_arith)
        requires
            126 * t <= u,
            b > 0,
    ;
    assert((0x80_0000 + b) * u == 0x80_0000 * u + b * u) by (nonlinear_arith);
}

} // verus!
