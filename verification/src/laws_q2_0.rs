//! What the operations on ternary blocks do, said of their inputs and results.
use crate::accuracy;
use crate::arith;
use crate::arith::{Narrowing, Op, Rounding};
use crate::binary16;
use crate::binary32;
use crate::dtype::GgmlDType;
use crate::error::MatmulError;
use crate::ieee;
use crate::k_quants_q2_0;
use crate::k_quants_q2_0::BlockQ2_0;
use crate::kernel;
use crate::laws;
use crate::laws::sum;
use crate::narrowing;
use crate::q8_0;
use crate::q8_0::BlockQ8_0;
use crate::quants;
use crate::quants::Quants;
use vstd::arithmetic::power2::*;
use vstd::prelude::*;
use vstd::std_specs::cmp::PartialEqSpec;

verus! {

/// Element `e` of a block is two bits of byte `e / 4`, from bit `2 * (e % 4)` on,
/// less one.
pub proof fn law_bits(block: BlockQ2_0, e: int)
    requires
        0 <= e < 128,
    ensures
        block@.d == block.d,
        block@.q.len() == 128,
        block@.q[e] == (block.qs@[e / 4] as int / pow2((2 * (e % 4)) as nat) as int % 4 - 1),
        -1 <= block@.q[e] <= 2,
{
    lemma2_to64();
    let p = e % 4;
    assert((2 * p) as nat == 0 || (2 * p) as nat == 2 || (2 * p) as nat == 4 || (2 * p) as nat == 6);
    assert(block@.q[e] == k_quants_q2_0::slot(block.qs@[e / 4], p) - 1);
}

/// Unpacking fills every whole chunk of 128 that a block is there for, and changes
/// nothing else. The number at `j` is the integer in the bits of element `j % 128`
/// of block `j / 128`, times the scale of the block: exact where the scale is
/// finite, with the sign of a zero, and otherwise infinite or a NaN as the product
/// is.
pub proof fn law_unpacked(xs: Seq<BlockQ2_0>, before: Seq<u32>, after: Seq<u32>, j: int)
    requires
        k_quants_q2_0::is_unpacked(xs, before, after),
        0 <= j < before.len(),
    ensures
        after.len() == before.len(),
        j / 128 < xs.len() && 128 * (j / 128) + 128 <= before.len() ==> {
            let x = xs[j / 128];
            let w = (x.qs@[(j % 128) / 4] as int / pow2((2 * ((j % 128) % 4)) as nat) as int % 4 - 1);
            let r = after[j];
            &&& x.d as int % 0x8000 < 0x7c00 ==> {
                &&& r as int % 0x8000_0000 < 0x7f80_0000
                &&& binary32::value(r) == w * binary16::value(x.d) * pow2(125)
            }
            &&& x.d as int % 0x8000 == 0x7c00 && w != 0 ==> r as int % 0x8000_0000 == 0x7f80_0000
            &&& x.d as int % 0x8000 == 0x7c00 && w == 0 ==> r as int % 0x8000_0000 > 0x7f80_0000
            &&& x.d as int % 0x8000 > 0x7c00 ==> r as int % 0x8000_0000 > 0x7f80_0000
            &&& x.d as int % 0x8000 < 0x7c00 || (x.d as int % 0x8000 == 0x7c00 && w != 0) ==> (r
                >= 0x8000_0000 <==> (x.d >= 0x8000) != (w < 0))
        },
        j / 128 >= xs.len() || 128 * (j / 128) + 128 > before.len() ==> after[j] == before[j],
{
    if j / 128 < xs.len() {
        law_bits(xs[j / 128], j % 128);
    }
}

/// Quantising converts every whole chunk of 128 that a block is there for, each as
/// it would be converted alone, and no other block.
pub proof fn law_packed(
    f: Rounding,
    g: Narrowing,
    xs: Seq<u32>,
    before: Seq<BlockQ2_0>,
    after: Seq<BlockQ2_0>,
)
    requires
        k_quants_q2_0::is_packed(f, g, xs, before, after),
    ensures
        after.len() == before.len(),
        forall|i: int|
            0 <= i < before.len() && 128 * i + 128 <= xs.len() ==> (#[trigger] after[i])@
                == k_quants_q2_0::quantized(f, g, xs.subrange(128 * i, 128 * i + 128)),
        forall|i: int|
            0 <= i < before.len() && 128 * i + 128 > xs.len() ==> #[trigger] after[i] == before[i],
{
}

/// Blocks are equal where their scales are the same number and all their bytes are
/// equal.
pub proof fn law_equal(a: BlockQ2_0, b: BlockQ2_0)
    ensures
        BlockQ2_0::obeys_eq_spec(),
        a.eq_spec(&b) <==> {
            &&& a.d as int % 0x8000 <= 0x7c00
            &&& b.d as int % 0x8000 <= 0x7c00
            &&& a.d == b.d || (a.d as int % 0x8000 == 0 && b.d as int % 0x8000 == 0)
            &&& forall|t: int| 0 <= t < 32 ==> #[trigger] a.qs@[t] == b.qs@[t]
        },
{
    if forall|t: int| 0 <= t < 32 ==> #[trigger] a.qs@[t] == b.qs@[t] {
        assert(a.qs@ =~= b.qs@);
    }
}

/// A dot product over no blocks is zero.
pub proof fn law_dot_empty<O: Fn(Op, u32, u32) -> u32>(
    op: &O,
    f: Rounding,
    xs: Seq<BlockQ2_0>,
    ys: Seq<BlockQ8_0>,
    r: u32,
)
    requires
        forall|o: Op, a: u32, b: u32, r: u32| #[trigger]
            op.ensures((o, a, b), r) ==> r == f(o, a, b),
        quants::is_dot(op, quants::models(xs), quants::models(ys), 0, r),
    ensures
        r == 0,
{
    assert(arith::computes(f, op));
}

/// How a dot product grows by a block, bit for bit and for whatever the operation
/// computes: the products of the integers of the weights and of the activations
/// are summed in four groups of 32; each sum is multiplied by the scale of its
/// activation block; these are added up from zero, in order; what comes out is
/// multiplied by the scale of the weight block and added to the dot product of
/// the blocks before.
pub proof fn law_dot_step<O: Fn(Op, u32, u32) -> u32>(
    op: &O,
    f: Rounding,
    xs: Seq<BlockQ2_0>,
    ys: Seq<BlockQ8_0>,
    i: int,
    products: Seq<int>,
    before: u32,
    after: u32,
)
    requires
        forall|o: Op, a: u32, b: u32, r: u32| #[trigger]
            op.ensures((o, a, b), r) ==> r == f(o, a, b),
        0 <= i < xs.len(),
        ys.len() >= 4 * i + 4,
        products.len() == 128,
        forall|e: int|
            0 <= e < 128 ==> #[trigger] products[e] == (xs[i].qs@[e / 4] as int / pow2((2 * (e % 4)) as nat) as int % 4 - 1)
                * ys[4 * i + e / 32].qs@[e % 32],
        quants::is_dot(op, quants::models(xs), quants::models(ys), i, before),
        quants::is_dot(op, quants::models(xs), quants::models(ys), i + 1, after),
    ensures
        ({
            let (s0, s1) = (sum(products.subrange(0, 32)), sum(products.subrange(32, 64)));
            let (s2, s3) = (sum(products.subrange(64, 96)), sum(products.subrange(96, 128)));
            let t0 = f(Op::Mul, binary16::widened(ys[4 * i + 0].d), binary32::integer(s0));
            let t1 = f(Op::Mul, binary16::widened(ys[4 * i + 1].d), binary32::integer(s1));
            let t2 = f(Op::Mul, binary16::widened(ys[4 * i + 2].d), binary32::integer(s2));
            let t3 = f(Op::Mul, binary16::widened(ys[4 * i + 3].d), binary32::integer(s3));
            let u1 = f(Op::Add, 0, t0);
            let u2 = f(Op::Add, u1, t1);
            let u3 = f(Op::Add, u2, t2);
            let u4 = f(Op::Add, u3, t3);
            after == f(Op::Add, before, f(Op::Mul, binary16::widened(xs[i].d), u4))
        }),
{
    let (ws, zs) = (quants::models(xs), quants::models(ys));
    assert(arith::computes(f, op));
    assert forall|k: int| 0 <= k < 4 implies #[trigger] accuracy::group(ws, zs, i, k) == sum(
        products.subrange(32 * k, 32 * k + 32),
    ) by {
        let (q, z) = (ws[i].q, zs[4 * i + k].q);
        assert forall|t: int| 0 <= t < 32 implies #[trigger] products[32 * k + t] == q[32 * k + t]
            * z[t] by {
            let e = 32 * k + t;
            assert(e / 32 == k && e % 32 == t);
            law_bits(xs[i], e);
            assert(products[e] == (xs[i].qs@[e / 4] as int / pow2((2 * (e % 4)) as nat) as int % 4 - 1) * ys[4 * i + e / 32].qs@[e % 32]);
        }
        laws::lemma_inner_sum(q, 32 * k, z, products, 32 * k, 32);
    }
    assert(accuracy::group(ws, zs, i, 0) == sum(products.subrange(0, 32)));
    assert(accuracy::group(ws, zs, i, 1) == sum(products.subrange(32, 64)));
    assert(accuracy::group(ws, zs, i, 2) == sum(products.subrange(64, 96)));
    assert(accuracy::group(ws, zs, i, 3) == sum(products.subrange(96, 128)));
    accuracy::lemma_dot_unrolled(f, ws, zs, i as nat);
}

/// A dot product is near the sum of the products of the numbers that the blocks
/// stand for: where all scales are finite, it is off by at most `(nb + 8) * 2^-23`
/// of the sum of the magnitudes. The terms are in units of `2^-48`, the dot
/// product in units of `2^-149`.
pub proof fn law_dot_near<O: Fn(Op, u32, u32) -> u32>(
    op: &O,
    f: Rounding,
    xs: Seq<BlockQ2_0>,
    ys: Seq<BlockQ8_0>,
    nb: nat,
    terms: Seq<int>,
    parts: Seq<int>,
    r: u32,
)
    requires
        forall|o: Op, a: u32, b: u32, r: u32| #[trigger]
            op.ensures((o, a, b), r) ==> r == f(o, a, b),
        ieee::is_arithmetic(f),
        nb <= 0x40_0000,
        xs.len() >= nb,
        ys.len() >= 4 * nb,
        forall|i: int| 0 <= i < nb ==> (#[trigger] xs[i]).d as int % 0x8000 < 0x7c00,
        forall|j: int| 0 <= j < 4 * nb ==> (#[trigger] ys[j]).d as int % 0x8000 < 0x7c00,
        terms.len() == 128 * nb,
        parts.len() == 128 * nb,
        forall|e: int|
            0 <= e < 128 * nb ==> #[trigger] terms[e] == (binary16::value(xs[e / 128].d)
                * (xs[e / 128].qs@[(e % 128) / 4] as int / pow2((2 * ((e % 128) % 4)) as nat) as int % 4 - 1)) * (binary16::value(ys[e / 32].d)
                * ys[e / 32].qs@[e % 32]),
        forall|e: int| 0 <= e < 128 * nb ==> #[trigger] parts[e] == ieee::size(terms[e]),
        quants::is_dot(op, quants::models(xs), quants::models(ys), nb as int, r),
    ensures
        r as int % 0x8000_0000 < 0x7f80_0000,
        ieee::size(binary32::value(r) - sum(terms) * pow2(101)) * 0x80_0000 <= (nb + 8) * (sum(parts)
            * pow2(101)),
{
    let (ws, zs) = (quants::models(xs), quants::models(ys));
    assert(arith::computes(f, op));
    assert forall|i: int| 0 <= i < nb implies (#[trigger] ws[i]).q.len() == 128
        && binary16::is_finite(ws[i].d) by {
        assert(xs[i].d as int % 0x8000 < 0x7c00);
    }
    assert forall|i: int, e: int| 0 <= i < nb && 0 <= e < 128 implies -2 <= #[trigger] ws[i].q[e]
        <= 2 by {
        law_bits(xs[i], e);
    }
    assert forall|j: int| 0 <= j < 4 * nb implies (#[trigger] zs[j]).q.len() == 32
        && binary16::is_finite(zs[j].d) by {
        assert(ys[j].d as int % 0x8000 < 0x7c00);
    }
    assert forall|e: int| 0 <= e < 128 * nb implies #[trigger] terms[e] == quants::element_value(
        ws,
        128,
        e,
    ) * quants::element_value(zs, 32, e) by {
        law_bits(xs[e / 128], e % 128);
    }
    accuracy::lemma_dot_near_sum(f, ws, zs, nb, terms, parts);
}

/// The element of a product in row `row` and column `col` is the dot product of
/// blocks `col * (k / 128)` to `(col + 1) * (k / 128)` of the weights with row
/// `row` of the activations, quantised 32 by 32.
pub proof fn law_product_element<O: Fn(Op, u32, u32) -> u32, N: Fn(u32) -> u16>(
    op: &O,
    narrow: &N,
    f: Rounding,
    g: Narrowing,
    mkn: (usize, usize, usize),
    lhs: &[u32],
    rhs_t: Seq<BlockQ2_0>,
    before: Seq<u32>,
    after: Seq<u32>,
    row: int,
    col: int,
    ys: Seq<BlockQ8_0>,
    r: u32,
)
    requires
        forall|o: Op, a: u32, b: u32, r: u32| #[trigger]
            op.ensures((o, a, b), r) ==> r == f(o, a, b),
        forall|x: u32, r: u16| #[trigger] narrow.ensures((x,), r) ==> r == g(x),
        kernel::is_product(
            op,
            narrow,
            GgmlDType::Q2_0,
            mkn,
            lhs,
            quants::models(rhs_t),
            before,
            after,
            Ok::<(), MatmulError>(()),
        ),
        0 <= row < mkn.0,
        0 <= col < mkn.2,
        rhs_t.len() >= mkn.2 * (mkn.1 as int / 128),
        ys.len() == mkn.1 as int / 32,
        forall|j: int|
            0 <= j < mkn.1 as int / 32 ==> (#[trigger] ys[j])@ == q8_0::quantized(
                f,
                g,
                lhs@.subrange(row * mkn.1 + 32 * j, row * mkn.1 + 32 * j + 32),
            ),
        quants::is_dot(
            op,
            quants::models(
                rhs_t.subrange(col * (mkn.1 as int / 128), (col + 1) * (mkn.1 as int / 128)),
            ),
            quants::models(ys),
            mkn.1 as int / 128,
            r,
        ),
    ensures
        after[row * mkn.2 + col] == r,
{
    let k = mkn.1 as int;
    laws::law_computes(f, g, op, narrow);
    laws::law_product_shape(
        op,
        narrow,
        GgmlDType::Q2_0,
        mkn,
        lhs,
        quants::models(rhs_t),
        before,
        after,
        Ok::<(), MatmulError>(()),
    );
    kernel::lemma_element(f, g, mkn, lhs@, quants::models(rhs_t), row, col, quants::models(ys));
    let kb = k / 128;
    assert(0 <= col * kb && (col + 1) * kb == col * kb + kb && (col + 1) * kb <= mkn.2 * kb)
        by (nonlinear_arith)
        requires
            0 <= col < mkn.2,
            kb >= 0,
    ;
    assert(quants::models(rhs_t.subrange(col * kb, (col + 1) * kb)) =~= quants::models(
        rhs_t,
    ).subrange(col * kb, (col + 1) * kb));
}

/// Position `e` of weight row `col` is position `col * k + e` of all weights.
proof fn lemma_position(
    mkn: (usize, usize, usize),
    rhs_t: Seq<BlockQ2_0>,
    col: int,
    xs: Seq<Quants>,
    e: int,
)
    requires
        mkn.1 as int % 128 == 0,
        0 <= col < mkn.2,
        rhs_t.len() >= mkn.2 * (mkn.1 as int / 128),
        xs == quants::models(rhs_t).subrange(
            col * (mkn.1 as int / 128),
            (col + 1) * (mkn.1 as int / 128),
        ),
        0 <= e < mkn.1,
    ensures
        xs.len() == mkn.1 as int / 128,
        xs[e / 128] == rhs_t[(col * mkn.1 + e) / 128]@,
        quants::element_value(xs, 128, e) == binary16::value(rhs_t[(col * mkn.1 + e) / 128].d)
            * (rhs_t[(col * mkn.1 + e) / 128].qs@[((col * mkn.1 + e) % 128) / 4] as int / pow2((2 * (((col * mkn.1 + e) % 128) % 4)) as nat) as int % 4 - 1),
{
    let (k, n) = (mkn.1 as int, mkn.2 as int);
    let kb = k / 128;
    assert(0 <= col * kb && (col + 1) * kb == col * kb + kb && (col + 1) * kb <= n * kb && col * k
        == 128 * (col * kb)) by (nonlinear_arith)
        requires
            0 <= col < n,
            kb >= 0,
            k == 128 * kb,
    ;
    let at = (col * k + e) / 128;
    assert(at == col * kb + e / 128 && (col * k + e) % 128 == e % 128);
    law_bits(rhs_t[at], e % 128);
}

/// The element of a product in row `row` and column `col` is near the sum of the
/// activations at `row * k + t` times the numbers that the weights stand for at
/// `col * k + t`, for `t` up to `k`: where the scales of these weights are finite
/// and the activations of each group of 32 are bounded by `tops`, of at most eight
/// million, it is off by at most `(k / 128 + 8) * 2^-23` of the sum of the
/// magnitudes, and 9/16 of the steps that the weights meet, and a little of both.
/// A step is the bound over 126, but no less than the smallest normal
/// half-precision number. The terms are in units of `2^-173`.
pub proof fn law_product_near<O: Fn(Op, u32, u32) -> u32, N: Fn(u32) -> u16>(
    op: &O,
    narrow: &N,
    f: Rounding,
    g: Narrowing,
    mkn: (usize, usize, usize),
    lhs: &[u32],
    rhs_t: Seq<BlockQ2_0>,
    before: Seq<u32>,
    after: Seq<u32>,
    row: int,
    col: int,
    tops: Seq<u32>,
    terms: Seq<int>,
    parts: Seq<int>,
    steps: Seq<int>,
)
    requires
        forall|o: Op, a: u32, b: u32, r: u32| #[trigger]
            op.ensures((o, a, b), r) ==> r == f(o, a, b),
        forall|x: u32, r: u16| #[trigger] narrow.ensures((x,), r) ==> r == g(x),
        ieee::is_arithmetic(f),
        narrowing::is_narrowing(g),
        kernel::is_product(
            op,
            narrow,
            GgmlDType::Q2_0,
            mkn,
            lhs,
            quants::models(rhs_t),
            before,
            after,
            Ok::<(), MatmulError>(()),
        ),
        0 <= row < mkn.0,
        0 <= col < mkn.2,
        mkn.1 <= 0x2000_0000,
        rhs_t.len() >= mkn.2 * (mkn.1 as int / 128),
        forall|t: int|
            0 <= t < mkn.1 ==> rhs_t[(#[trigger] (col * mkn.1 + t)) / 128].d as int % 0x8000
                < 0x7c00,
        forall|t: int|
            0 <= t < mkn.1 ==> lhs@[#[trigger] (row * mkn.1 + t)] as int % 0x8000_0000 <= tops[t
                / 32] <= 0x4af4_2400,
        terms.len() == mkn.1,
        parts.len() == mkn.1,
        steps.len() == mkn.1,
        forall|t: int|
            0 <= t < mkn.1 ==> #[trigger] terms[t] == (binary16::value(
                rhs_t[(col * mkn.1 + t) / 128].d,
            ) * (rhs_t[(col * mkn.1 + t) / 128].qs@[((col * mkn.1 + t) % 128) / 4] as int / pow2((2 * (((col * mkn.1 + t) % 128) % 4)) as nat) as int % 4 - 1)) * binary32::value(
                lhs@[row * mkn.1 + t],
            ),
        forall|t: int| 0 <= t < mkn.1 ==> #[trigger] parts[t] == ieee::size(terms[t]),
        forall|t: int|
            0 <= t < mkn.1 ==> #[trigger] steps[t] == ieee::size(
                binary16::value(rhs_t[(col * mkn.1 + t) / 128].d)
                    * (rhs_t[(col * mkn.1 + t) / 128].qs@[((col * mkn.1 + t) % 128) / 4] as int / pow2((2 * (((col * mkn.1 + t) % 128) % 4)) as nat) as int % 4 - 1),
            ) * (if binary32::units(tops[t / 32]) >= 126 * (1024 * pow2(125)) {
                binary32::units(tops[t / 32])
            } else {
                126 * (1024 * pow2(125)) as int
            }),
    ensures
        ({
            let r = after[row * mkn.2 + col];
            let b = mkn.1 as int / 128 + 8;
            &&& r as int % 0x8000_0000 < 0x7f80_0000
            &&& ieee::size(binary32::value(r) * pow2(24) - sum(terms)) * 0x3_f000_0000 <= 2016 * (b
                * sum(parts)) + 9 * ((0x80_0000 + b) * sum(steps))
        }),
{
    let kb = mkn.1 as int / 128;
    let rhs = quants::models(rhs_t);
    let xs = rhs.subrange(col * kb, (col + 1) * kb);
    let acts = lhs@.subrange(row * mkn.1, row * mkn.1 + mkn.1);
    laws::law_computes(f, g, op, narrow);
    laws::law_product_shape(
        op,
        narrow,
        GgmlDType::Q2_0,
        mkn,
        lhs,
        rhs,
        before,
        after,
        Ok::<(), MatmulError>(()),
    );
    let (m, k) = (mkn.0 as int, mkn.1 as int);
    assert(0 <= row * k && row * k + k <= m * k) by (nonlinear_arith)
        requires
            0 <= row < m,
            k >= 0,
    ;
    assert forall|i: int| 0 <= i < kb implies (#[trigger] xs[i]).q.len() == 128
        && binary16::is_finite(xs[i].d) && forall|e: int|
        0 <= e < 128 ==> -2 <= #[trigger] xs[i].q[e] <= 2 by {
        let t = 128 * i;
        lemma_position(mkn, rhs_t, col, xs, t);
        let b = rhs_t[(col * mkn.1 + t) / 128];
        assert(b.d as int % 0x8000 < 0x7c00);
        assert forall|e: int| 0 <= e < 128 implies -2 <= #[trigger] xs[i].q[e] <= 2 by {
            law_bits(b, e);
        }
        law_bits(b, 0);
    }
    assert(xs.len() == kb) by {
        if kb > 0 {
            lemma_position(mkn, rhs_t, col, xs, 0);
        } else {
            assert(col * 0 == 0 && (col + 1) * 0 == 0) by (nonlinear_arith);
        }
    }
    assert forall|e: int| 0 <= e < k implies binary32::magnitude(#[trigger] acts[e]) <= tops[e / 32]
        <= 0x4af4_2400 by {
        assert(lhs@[row * mkn.1 + e] as int % 0x8000_0000 <= tops[e / 32]);
    }
    assert forall|e: int| 0 <= e < k implies #[trigger] terms[e] == quants::element_value(
        xs,
        128,
        e,
    ) * binary32::value(acts[e]) by {
        lemma_position(mkn, rhs_t, col, xs, e);
        assert(acts[e] == lhs@[row * mkn.1 + e]);
    }
    assert forall|e: int| 0 <= e < k implies #[trigger] steps[e] == ieee::size(
        quants::element_value(xs, 128, e),
    ) * (if binary32::units(tops[e / 32]) >= 126 * (1024 * pow2(125)) {
        binary32::units(tops[e / 32])
    } else {
        126 * (1024 * pow2(125)) as int
    }) by {
        lemma_position(mkn, rhs_t, col, xs, e);
    }
    kernel::lemma_element_near(
        f,
        g,
        mkn,
        lhs@,
        rhs,
        row,
        col,
        xs,
        acts,
        tops,
        terms,
        parts,
        steps,
    );
}

/// How 128 weights are quantised: the scale is the largest magnitude, that of a
/// weight, which no other exceeds, and one where all are zero or NaN. For whatever
/// the operation computes, each integer is the nearest of `-1`, `0` and `1` to the
/// quotient of the weight by the scale.
pub proof fn law_quantized(
    f: Rounding,
    g: Narrowing,
    weights: Seq<u32>,
    block: BlockQ2_0,
    e: int,
) -> (s: u32)
    requires
        weights.len() == 128,
        block@ == k_quants_q2_0::quantized(f, g, weights),
        0 <= e < 128,
    ensures
        block.d == g(s),
        0 < s <= 0x7f80_0000,
        (exists|t: int| 0 <= t < 128 && (#[trigger] weights[t]) as int % 0x8000_0000 == s) || (s
            == 0x3f80_0000 && forall|t: int|
            0 <= t < 128 ==> (#[trigger] weights[t]) as int % 0x8000_0000 == 0 || weights[t] as int
                % 0x8000_0000 > 0x7f80_0000),
        forall|t: int|
            0 <= t < 128 ==> (#[trigger] weights[t]) as int % 0x8000_0000 <= s || weights[t] as int
                % 0x8000_0000 > 0x7f80_0000,
        ({
            let w = (block.qs@[e / 4] as int / pow2((2 * (e % 4)) as nat) as int % 4 - 1);
            let y = f(Op::Div, weights[e], s);
            let n = ieee::size(w);
            &&& n <= 1
            &&& y as int % 0x8000_0000 > 0x7f80_0000 ==> w == 0
            &&& y == 0x7f80_0000 ==> w == 1
            &&& y == 0xff80_0000 ==> w == -1
            &&& y as int % 0x8000_0000 < 0x7f80_0000 ==> {
                &&& y >= 0x8000_0000 ==> w <= 0
                &&& y < 0x8000_0000 ==> w >= 0
                &&& (2 * n - 1) * pow2(149) <= 2 * binary32::units(y)
                &&& n < 1 ==> 2 * binary32::units(y) < (2 * n + 1) * pow2(149)
            }
        }),
{
    let s = k_quants_q2_0::scale_of(weights);
    let top = laws::law_largest_magnitude(weights);
    assert(block@.d == g(s));
    let y = f(Op::Div, weights[e], s);
    law_bits(block, e);
    assert(block@.q[e] == binary32::rounded(y, 1));
    binary32::law_rounded(y, 1);
    laws::law_rounded_nearest(y, 1);
    s
}

/// Each integer is the nearest to the weight over the scale: a weight is quantised
/// to its sign exactly where twice its magnitude reaches the scale, and otherwise,
/// or where it is a NaN or the scale is infinite, to zero.
pub proof fn law_nearest(
    f: Rounding,
    g: Narrowing,
    weights: Seq<u32>,
    block: BlockQ2_0,
    e: int,
) -> (s: u32)
    requires
        ieee::is_arithmetic(f),
        weights.len() == 128,
        block@ == k_quants_q2_0::quantized(f, g, weights),
        0 <= e < 128,
    ensures
        block.d == g(s),
        0 < s <= 0x7f80_0000,
        (exists|t: int| 0 <= t < 128 && (#[trigger] weights[t]) as int % 0x8000_0000 == s) || (s
            == 0x3f80_0000 && forall|t: int|
            0 <= t < 128 ==> (#[trigger] weights[t]) as int % 0x8000_0000 == 0 || weights[t] as int
                % 0x8000_0000 > 0x7f80_0000),
        forall|t: int|
            0 <= t < 128 ==> (#[trigger] weights[t]) as int % 0x8000_0000 <= s || weights[t] as int
                % 0x8000_0000 > 0x7f80_0000,
        ({
            let w = (block.qs@[e / 4] as int / pow2((2 * (e % 4)) as nat) as int % 4 - 1);
            let x = weights[e];
            if s == 0x7f80_0000 || x as int % 0x8000_0000 > 0x7f80_0000 {
                w == 0
            } else if 2 * binary32::units(x) < binary32::units(s) {
                w == 0
            } else if x >= 0x8000_0000 {
                w == -1
            } else {
                w == 1
            }
        }),
{
    let s = law_quantized(f, g, weights, block, e);
    let x = weights[e];
    let y = f(Op::Div, x, s);
    assert(ieee::is_quotient(x, s, y));
    binary32::lemma_sign_split(s);
    binary32::lemma_sign_split(x);
    binary32::lemma_sign_split(y);
    if x as int % 0x8000_0000 < 0x7f80_0000 {
        k_quants_q2_0::lemma_nearest_code(f, s, x);
        lemma_codes_agree(y, (block.qs@[e / 4] as int / pow2((2 * (e % 4)) as nat) as int % 4 - 1));
        if s < 0x7f80_0000 {
            ieee::lemma_units_positive(s);
        }
        if binary32::magnitude(x) == 0 {
            assert(binary32::units(x) == 0);
        }
    }
    s
}

/// The nearest integer within one is unique.
proof fn lemma_codes_agree(y: u32, w: int)
    requires
        y as int % 0x8000_0000 > 0x7f80_0000 ==> w == 0,
        y == 0x7f80_0000 ==> w == 1,
        y == 0xff80_0000 ==> w == -1,
        y as int % 0x8000_0000 < 0x7f80_0000 ==> {
            let n = ieee::size(w);
            &&& n <= 1
            &&& y >= 0x8000_0000 ==> w <= 0
            &&& y < 0x8000_0000 ==> w >= 0
            &&& (2 * n - 1) * pow2(149) <= 2 * binary32::units(y)
            &&& n < 1 ==> 2 * binary32::units(y) < (2 * n + 1) * pow2(149)
        },
    ensures
        w == binary32::rounded(y, 1),
{
    laws::law_rounded_nearest(y, 1);
    binary32::law_rounded(y, 1);
    lemma_pow2_pos(149);
    lemma_pow2_unfold(149);
    let p = pow2(149) as int;
    assert((2 * 1 - 1) * p == p && (2 * 0 + 1) * p == p) by (nonlinear_arith);
    binary32::lemma_sign_split(y);
}

} // verus!
