//! The mathematical model of a quantised block, and of a dot product of blocks.
use crate::arith;
use crate::arith::{Op, Rounding};
use crate::binary16;
use crate::binary32;
use vstd::arithmetic::mul::*;
use vstd::arithmetic::power2::*;
use vstd::prelude::*;

verus! {

/// Weights per packed weight block.
pub const BLOCK: usize = 128;

/// What a quantised block stands for: the half-precision pattern of its scale
/// and the integers that the scale multiplies.
pub ghost struct Quants {
    pub d: u16,
    pub q: Seq<int>,
}

/// The blocks that `xs` stand for.
pub open spec fn models<B: View<V = Quants>>(xs: Seq<B>) -> Seq<Quants> {
    Seq::new(xs.len(), |i: int| xs[i]@)
}

/// How many blocks of `size` numbers are converted between `numbers` numbers
/// and `blocks` blocks: only whole blocks count.
pub open spec fn converted(numbers: nat, size: nat, blocks: nat) -> int {
    if numbers / size < blocks {
        (numbers / size) as int
    } else {
        blocks as int
    }
}

/// The inner product of the `n` integers of `a` from index `i` on with the `n`
/// integers of `b` from index `j` on.
pub open spec fn inner(a: Seq<int>, i: int, b: Seq<int>, j: int, n: nat) -> int
    decreases n,
{
    if n == 0 {
        0
    } else {
        inner(a, i, b, j, (n - 1) as nat) + a[i + n - 1] * b[j + n - 1]
    }
}

/// One more term of an inner product.
pub(crate) proof fn lemma_inner_one(a: Seq<int>, i: int, b: Seq<int>, j: int, n: nat)
    ensures
        inner(a, i, b, j, n + 1) == inner(a, i, b, j, n) + a[i + n] * b[j + n],
{
}

/// Four more terms of an inner product.
pub(crate) proof fn lemma_inner_four(a: Seq<int>, i: int, b: Seq<int>, j: int, n: nat)
    ensures
        inner(a, i, b, j, n + 4) == inner(a, i, b, j, n) + a[i + n] * b[j + n] + a[i + n + 1] * b[j
            + n + 1] + a[i + n + 2] * b[j + n + 2] + a[i + n + 3] * b[j + n + 3],
{
    lemma_inner_one(a, i, b, j, n);
    lemma_inner_one(a, i, b, j, n + 1);
    lemma_inner_one(a, i, b, j, n + 2);
    lemma_inner_one(a, i, b, j, n + 3);
}

/// A number system to compute a dot product in: zero, the product of a scale
/// and an integer, the product of a scale and a number, and the sum of two
/// numbers. Its operations may round.
#[verifier::reject_recursive_types(R)]
pub ghost struct Numbers<R> {
    pub zero: R,
    pub term: spec_fn(u32, int) -> R,
    pub scale: spec_fn(u32, R) -> R,
    pub plus: spec_fn(R, R) -> R,
}

/// What the first `k` activation blocks that pair with weight block `i` give,
/// added up from the left: each is the product of the activation scale and the
/// inner product of the integers.
pub open spec fn share<R>(f: Numbers<R>, xs: Seq<Quants>, ys: Seq<Quants>, i: int, k: nat) -> R
    decreases k,
{
    if k == 0 {
        f.zero
    } else {
        let y = ys[4 * i + k - 1];
        (f.plus)(
            share(f, xs, ys, i, (k - 1) as nat),
            (f.term)(binary16::widened(y.d), inner(xs[i].q, 32 * (k - 1), y.q, 0, 32)),
        )
    }
}

/// The dot product of the first `nb` weight blocks with the activation blocks,
/// four to each: the products of the weight scales with the shares of their
/// blocks, added up from the left.
pub open spec fn dot<R>(f: Numbers<R>, xs: Seq<Quants>, ys: Seq<Quants>, nb: nat) -> R
    decreases nb,
{
    if nb == 0 {
        f.zero
    } else {
        let i = nb - 1;
        (f.plus)(
            dot(f, xs, ys, i as nat),
            (f.scale)(binary16::widened(xs[i].d), share(f, xs, ys, i, 4)),
        )
    }
}

/// Single precision as a number system, with the operations of `f`.
pub open spec fn single(f: Rounding) -> Numbers<u32> {
    Numbers {
        zero: 0,
        term: |d: u32, s: int| f(Op::Mul, d, binary32::integer(s)),
        scale: |d: u32, x: u32| f(Op::Mul, d, x),
        plus: |a: u32, b: u32| f(Op::Add, a, b),
    }
}

/// The integers as a number system that never rounds. A term is in units of
/// `2^-149`, and what a scale multiplies in units of `2^-298`.
pub open spec fn exact() -> Numbers<int> {
    Numbers {
        zero: 0,
        term: |d: u32, s: int| binary32::value(d) * s,
        scale: |d: u32, x: int| binary32::value(d) * x,
        plus: |a: int, b: int| a + b,
    }
}

/// `r` is the dot product of the first `nb` weight blocks with the activation
/// blocks in the arithmetic that `op` computes.
pub open spec fn is_dot<O: Fn(Op, u32, u32) -> u32>(
    op: &O,
    xs: Seq<Quants>,
    ys: Seq<Quants>,
    nb: int,
    r: u32,
) -> bool {
    forall|f: Rounding| #[trigger]
        arith::computes(f, op) ==> r == dot(single(f), xs, ys, nb as nat)
}

/// The weights of block `i` of the weights `ws`.
pub open spec fn weights_of(ws: Seq<u32>, i: int) -> Seq<u32> {
    ws.subrange(128 * i, 128 * i + 128)
}

/// Tests whether two blocks hold the same packed bytes.
pub(crate) fn same_bytes(a: &[u8], b: &[u8]) -> (r: bool)
    requires
        a@.len() == b@.len(),
    ensures
        r == (a@ == b@),
{
    for i in 0..a.len()
        invariant
            a@.len() == b@.len(),
            forall|t: int| 0 <= t < i ==> #[trigger] a@[t] == b@[t],
    {
        if a[i] != b[i] {
            return false;
        }
    }
    assert(a@ =~= b@);
    true
}

/// Copies chunk `i` of `xs`, of the length of a weight block.
pub(crate) fn chunk(xs: &[u32], i: usize) -> (r: [u32; 128])
    requires
        128 * i + 128 <= xs.len(),
    ensures
        r@ == xs@.subrange(128 * i, 128 * i + 128),
{
    let mut r: [u32; 128] = [0u32; 128];
    for e in 0..BLOCK
        invariant
            128 * i + 128 <= xs.len(),
            forall|t: int| 0 <= t < e ==> #[trigger] r@[t] == xs@[128 * i + t],
    {
        r[e] = xs[BLOCK * i + e];
    }
    r
}

/// The number that element `e` of blocks of `size` elements stands for, in
/// units of `2^-24`.
pub open spec fn element_value(xs: Seq<Quants>, size: int, e: int) -> int {
    binary16::value(xs[e / size].d) * xs[e / size].q[e % size]
}

/// The dot product of the first `n` weights with the first `n` activations,
/// all unpacked, without any rounding, in units of `2^-48`.
pub open spec fn dense(xs: Seq<Quants>, ys: Seq<Quants>, n: int) -> int
    decreases n,
{
    if n <= 0 {
        0
    } else {
        dense(xs, ys, n - 1) + element_value(xs, 128, n - 1) * element_value(ys, 32, n - 1)
    }
}

/// The scales of the first `nb` weight blocks, and of the activation blocks that
/// pair with them, are finite.
pub open spec fn finite_scales(xs: Seq<Quants>, ys: Seq<Quants>, nb: nat) -> bool {
    &&& forall|i: int| 0 <= i < nb ==> binary16::is_finite((#[trigger] xs[i]).d)
    &&& forall|j: int| 0 <= j < 4 * nb ==> binary16::is_finite((#[trigger] ys[j]).d)
}

/// Within a group of 32 elements the scales factor out.
proof fn lemma_dense_group(xs: Seq<Quants>, ys: Seq<Quants>, i: int, k: int, t: int)
    requires
        0 <= i,
        0 <= k < 4,
        0 <= t <= 32,
    ensures
        dense(xs, ys, 128 * i + 32 * k + t) == dense(xs, ys, 128 * i + 32 * k) + binary16::value(
            xs[i].d,
        ) * (binary16::value(ys[4 * i + k].d) * inner(
            xs[i].q,
            32 * k,
            ys[4 * i + k].q,
            0,
            t as nat,
        )),
    decreases t,
{
    let d0 = binary16::value(xs[i].d);
    let d1 = binary16::value(ys[4 * i + k].d);
    let a = xs[i].q;
    let b = ys[4 * i + k].q;
    if t == 0 {
        assert(inner(a, 32 * k, b, 0, 0) == 0);
        assert(d0 * (d1 * 0) == 0) by (nonlinear_arith);
    } else {
        let u = t - 1;
        lemma_dense_group(xs, ys, i, k, u);
        let e = 128 * i + 32 * k + u;
        assert(e / 128 == i && e % 128 == 32 * k + u);
        assert(e / 32 == 4 * i + k && e % 32 == u);
        let s = inner(a, 32 * k, b, 0, u as nat);
        let w = a[32 * k + u];
        let q = b[u];
        assert(inner(a, 32 * k, b, 0, t as nat) == s + w * q);
        assert(d0 * (d1 * (s + w * q)) == d0 * (d1 * s) + (d0 * w) * (d1 * q)) by (nonlinear_arith);
        assert(128 * i + 32 * k + t == e + 1);
    }
}

/// A common factor of two scales can be taken out of their product.
proof fn lemma_pull_out(d: int, e: int, s: int, p: int)
    ensures
        (d * p) * ((e * p) * s) == (d * (e * s)) * (p * p),
{
    assert((d * p) * ((e * p) * s) == (d * (e * s)) * (p * p)) by (nonlinear_arith);
}

/// A weight block gives the dot product of the 128 weights and activations that
/// it covers.
pub(crate) proof fn lemma_dense_block(xs: Seq<Quants>, ys: Seq<Quants>, i: int)
    requires
        0 <= i,
        binary16::is_finite(xs[i].d),
        forall|k: int| 0 <= k < 4 ==> binary16::is_finite((#[trigger] ys[4 * i + k]).d),
    ensures
        binary32::value(binary16::widened(xs[i].d)) * share(exact(), xs, ys, i, 4) == (dense(
            xs,
            ys,
            128 * i + 128,
        ) - dense(xs, ys, 128 * i)) * pow2(250),
{
    let p = pow2(125) as int;
    let x = xs[i];
    let d0 = binary16::value(x.d);
    lemma_dense_group(xs, ys, i, 0, 32);
    lemma_dense_group(xs, ys, i, 1, 32);
    lemma_dense_group(xs, ys, i, 2, 32);
    lemma_dense_group(xs, ys, i, 3, 32);
    let (y0, y1, y2, y3) = (ys[4 * i + 0], ys[4 * i + 1], ys[4 * i + 2], ys[4 * i + 3]);
    binary16::lemma_widened_value(x.d);
    binary16::lemma_widened_value(y0.d);
    binary16::lemma_widened_value(y1.d);
    binary16::lemma_widened_value(y2.d);
    binary16::lemma_widened_value(y3.d);
    let e0 = binary16::value(y0.d);
    let e1 = binary16::value(y1.d);
    let e2 = binary16::value(y2.d);
    let e3 = binary16::value(y3.d);
    let s0 = inner(x.q, 0, y0.q, 0, 32);
    let s1 = inner(x.q, 32, y1.q, 0, 32);
    let s2 = inner(x.q, 64, y2.q, 0, 32);
    let s3 = inner(x.q, 96, y3.q, 0, 32);
    lemma_pow2_adds(125, 125);
    let f = d0 * p;
    let (t0, t1, t2, t3) = ((e0 * p) * s0, (e1 * p) * s1, (e2 * p) * s2, (e3 * p) * s3);
    let (g0, g1, g2, g3) = (d0 * (e0 * s0), d0 * (e1 * s1), d0 * (e2 * s2), d0 * (e3 * s3));
    let q = p * p;
    assert(share(exact(), xs, ys, i, 4) == t0 + t1 + t2 + t3) by {
        reveal_with_fuel(share, 5);
    }
    lemma_pull_out(d0, e0, s0, p);
    lemma_pull_out(d0, e1, s1, p);
    lemma_pull_out(d0, e2, s2, p);
    lemma_pull_out(d0, e3, s3, p);
    assert(f * (t0 + t1 + t2 + t3) == f * t0 + f * t1 + f * t2 + f * t3) by (nonlinear_arith);
    assert((g0 + g1 + g2 + g3) * q == g0 * q + g1 * q + g2 * q + g3 * q) by (nonlinear_arith);
    assert(128 * i + 32 * 3 + 32 == 128 * i + 128);
}

/// The packed dot product is the dense one: computed without rounding, in units
/// of `2^-298`, it is the dot product of the unpacked weights and activations.
/// Scales that are infinite or NaN have no such product.
pub proof fn law_dot_is_dense(xs: Seq<Quants>, ys: Seq<Quants>, nb: nat)
    requires
        finite_scales(xs, ys, nb),
    ensures
        dot(exact(), xs, ys, nb) == dense(xs, ys, 128 * nb as int) * pow2(250),
    decreases nb,
{
    let p = pow2(250) as int;
    if nb == 0 {
        assert(dense(xs, ys, 0) == 0);
        lemma_mul_basics(p);
    } else {
        let i = nb - 1;
        law_dot_is_dense(xs, ys, i as nat);
        lemma_dense_block(xs, ys, i);
        let a = dense(xs, ys, 128 * i);
        let b = dense(xs, ys, 128 * i + 128);
        assert(a * p + (b - a) * p == b * p) by (nonlinear_arith);
    }
}

/// An inner product of `n` integers of magnitude at most `w` with as many
/// signed bytes has magnitude at most `128 * w * n`, so that the sums of the
/// kernel stay far below the limits of their type.
pub proof fn law_inner_bound(a: Seq<int>, i: int, b: Seq<int>, j: int, n: nat, w: int)
    requires
        0 <= w,
        forall|t: int| i <= t < i + n ==> -w <= #[trigger] a[t] <= w,
        forall|t: int| j <= t < j + n ==> -128 <= #[trigger] b[t] <= 128,
    ensures
        -(128 * w * n) <= inner(a, i, b, j, n) <= 128 * w * n,
    decreases n,
{
    if n > 0 {
        law_inner_bound(a, i, b, j, (n - 1) as nat, w);
        let x = a[i + n - 1];
        let y = b[j + n - 1];
        assert(-(128 * w) <= x * y <= 128 * w) by (nonlinear_arith)
            requires
                -w <= x <= w,
                -128 <= y <= 128,
        ;
        assert(128 * w * n == 128 * w * (n - 1) + 128 * w) by (nonlinear_arith);
    } else {
        assert(128 * w * n == 0) by (nonlinear_arith)
            requires
                n == 0,
        ;
    }
}

} // verus!
