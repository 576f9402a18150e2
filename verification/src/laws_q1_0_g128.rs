//! What the operations on 1-bit blocks do, said of their inputs and results.
use crate::accuracy;
use crate::arith;
use crate::arith::{Narrowing, Op, Rounding};
use crate::binary16;
use crate::binary32;
use crate::dtype::GgmlDType;
use crate::error::MatmulError;
use crate::ieee;
use crate::k_quants_q1_0_g128;
use crate::k_quants_q1_0_g128::BlockQ1_0_g128;
use crate::kernel;
use crate::laws;
use crate::laws::sum;
use crate::narrowing;
use crate::q8_0;
use crate::q8_0::BlockQ8_0;
use crate::quants;
use crate::quants::Quants;
use vstd::arithmetic::power2::*;
use vstd::prelude::*;
use vstd::std_specs::cmp::PartialEqSpec;

verus! {

/// Element `e` of a block is bit `e % 8` of byte `e / 8`: one for `1`, zero for `-1`.
pub proof fn law_bits(block: BlockQ1_0_g128, e: int)
    requires
        0 <= e < 128,
    ensures
        block@.d == block.d,
        block@.q.len() == 128,
        block@.q[e] == (2 * (block.qs@[e / 8] as int / pow2((e % 8) as nat) as int % 2) - 1),
        block@.q[e] == 1 || block@.q[e] == -1,
{
}

/// Unpacking fills every whole chunk of 128 that a block is there for, and changes
/// nothing else. The number at `j` is the scale of block `j / 128`, widened, for a
/// set bit, and that with the sign inverted for a clear one.
pub proof fn law_unpacked(xs: Seq<BlockQ1_0_g128>, before: Seq<u32>, after: Seq<u32>, j: int)
    requires
        k_quants_q1_0_g128::is_unpacked(xs, before, after),
        0 <= j < before.len(),
    ensures
        after.len() == before.len(),
        j / 128 < xs.len() && 128 * (j / 128) + 128 <= before.len() ==> {
            let x = xs[j / 128];
            let w = (2 * (x.qs@[(j % 128) / 8] as int / pow2(((j % 128) % 8) as nat) as int % 2) - 1);
            let wide = binary16::widened(x.d);
            &&& w == 1 ==> after[j] == wide
            &&& w != 1 && wide < 0x8000_0000 ==> after[j] == wide + 0x8000_0000
            &&& w != 1 && wide >= 0x8000_0000 ==> after[j] == wide - 0x8000_0000
        },
        j / 128 >= xs.len() || 128 * (j / 128) + 128 > before.len() ==> after[j] == before[j],
{
    if j / 128 < xs.len() {
        law_bits(xs[j / 128], j % 128);
    }
}

/// Quantising converts every whole chunk of 128 that a block is there for, each as
/// it would be converted alone, and no other block.
pub proof fn law_packed(
    f: Rounding,
    g: Narrowing,
    xs: Seq<u32>,
    before: Seq<BlockQ1_0_g128>,
    after: Seq<BlockQ1_0_g128>,
)
    requires
        k_quants_q1_0_g128::is_packed(f, g, xs, before, after),
    ensures
        after.len() == before.len(),
        forall|i: int|
            0 <= i < before.len() && 128 * i + 128 <= xs.len() ==> (#[trigger] after[i])@
                == k_quants_q1_0_g128::quantized(f, g, xs.subrange(128 * i, 128 * i + 128)),
        forall|i: int|
            0 <= i < before.len() && 128 * i + 128 > xs.len() ==> #[trigger] after[i] == before[i],
{
}

/// Blocks are equal where their scales are the same number and all their bytes are
/// equal.
pub proof fn law_equal(a: BlockQ1_0_g128, b: BlockQ1_0_g128)
    ensures
        BlockQ1_0_g128::obeys_eq_spec(),
        a.eq_spec(&b) <==> {
            &&& a.d as int % 0x8000 <= 0x7c00
            &&& b.d as int % 0x8000 <= 0x7c00
            &&& a.d == b.d || (a.d as int % 0x8000 == 0 && b.d as int % 0x8000 == 0)
            &&& forall|t: int| 0 <= t < 16 ==> #[trigger] a.qs@[t] == b.qs@[t]
        },
{
    if forall|t: int| 0 <= t < 16 ==> #[trigger] a.qs@[t] == b.qs@[t] {
        assert(a.qs@ =~= b.qs@);
    }
}

/// A dot product over no blocks is zero.
pub proof fn law_dot_empty<O: Fn(Op, u32, u32) -> u32>(
    op: &O,
    f: Rounding,
    xs: Seq<BlockQ1_0_g128>,
    ys: Seq<BlockQ8_0>,
    r: u32,
)
    requires
        forall|o: Op, a: u32, b: u32, r: u32| #[trigger]
            op.ensures((o, a, b), r) ==> r == f(o, a, b),
        quants::is_dot(op, quants::models(xs), quants::models(ys), 0, r),
    ensures
        r == 0,
{
    assert(arith::computes(f, op));
}

/// How a dot product grows by a block, bit for bit and for whatever the operation
/// computes: the products of the integers of the weights and of the activations
/// are summed in four groups of 32; each sum is multiplied by the scale of its
/// activation block; these are added up from zero, in order; what comes out is
/// multiplied by the scale of the weight block and added to the dot product of
/// the blocks before.
pub proof fn law_dot_step<O: Fn(Op, u32, u32) -> u32>(
    op: &O,
    f: Rounding,
    xs: Seq<BlockQ1_0_g128>,
    ys: Seq<BlockQ8_0>,
    i: int,
    products: Seq<int>,
    before: u32,
    after: u32,
)
    requires
        forall|o: Op, a: u32, b: u32, r: u32| #[trigger]
            op.ensures((o, a, b), r) ==> r == f(o, a, b),
        0 <= i < xs.len(),
        ys.len() >= 4 * i + 4,
        products.len() == 128,
        forall|e: int|
            0 <= e < 128 ==> #[trigger] products[e] == (2 * (xs[i].qs@[e / 8] as int / pow2((e % 8) as nat) as int % 2) - 1)
                * ys[4 * i + e / 32].qs@[e % 32],
        quants::is_dot(op, quants::models(xs), quants::models(ys), i, before),
        quants::is_dot(op, quants::models(xs), quants::models(ys), i + 1, after),
    ensures
        ({
            let (s0, s1) = (sum(products.subrange(0, 32)), sum(products.subrange(32, 64)));
            let (s2, s3) = (sum(products.subrange(64, 96)), sum(products.subrange(96, 128)));
            let t0 = f(Op::Mul, binary16::widened(ys[4 * i + 0].d), binary32::integer(s0));
            let t1 = f(Op::Mul, binary16::widened(ys[4 * i + 1].d), binary32::integer(s1));
            let t2 = f(Op::Mul, binary16::widened(ys[4 * i + 2].d), binary32::integer(s2));
            let t3 = f(Op::Mul, binary16::widened(ys[4 * i + 3].d), binary32::integer(s3));
            let u1 = f(Op::Add, 0, t0);
            let u2 = f(Op::Add, u1, t1);
            let u3 = f(Op::Add, u2, t2);
            let u4 = f(Op::Add, u3, t3);
            after == f(Op::Add, before, f(Op::Mul, binary16::widened(xs[i].d), u4))
        }),
{
    let (ws, zs) = (quants::models(xs), quants::models(ys));
    assert(arith::computes(f, op));
    assert forall|k: int| 0 <= k < 4 implies #[trigger] accuracy::group(ws, zs, i, k) == sum(
        products.subrange(32 * k, 32 * k + 32),
    ) by {
        let (q, z) = (ws[i].q, zs[4 * i + k].q);
        assert forall|t: int| 0 <= t < 32 implies #[trigger] products[32 * k + t] == q[32 * k + t]
            * z[t] by {
            let e = 32 * k + t;
            assert(e / 32 == k && e % 32 == t);
            law_bits(xs[i], e);
            assert(products[e] == (2 * (xs[i].qs@[e / 8] as int / pow2((e % 8) as nat) as int % 2) - 1) * ys[4 * i + e / 32].qs@[e % 32]);
        }
        laws::lemma_inner_sum(q, 32 * k, z, products, 32 * k, 32);
    }
    assert(accuracy::group(ws, zs, i, 0) == sum(products.subrange(0, 32)));
    assert(accuracy::group(ws, zs, i, 1) == sum(products.subrange(32, 64)));
    assert(accuracy::group(ws, zs, i, 2) == sum(products.subrange(64, 96)));
    assert(accuracy::group(ws, zs, i, 3) == sum(products.subrange(96, 128)));
    accuracy::lemma_dot_unrolled(f, ws, zs, i as nat);
}

/// A dot product is near the sum of the products of the numbers that the blocks
/// stand for: where all scales are finite, it is off by at most `(nb + 8) * 2^-23`
/// of the sum of the magnitudes. The terms are in units of `2^-48`, the dot
/// product in units of `2^-149`.
pub proof fn law_dot_near<O: Fn(Op, u32, u32) -> u32>(
    op: &O,
    f: Rounding,
    xs: Seq<BlockQ1_0_g128>,
    ys: Seq<BlockQ8_0>,
    nb: nat,
    terms: Seq<int>,
    parts: Seq<int>,
    r: u32,
)
    requires
        forall|o: Op, a: u32, b: u32, r: u32| #[trigger]
            op.ensures((o, a, b), r) ==> r == f(o, a, b),
        ieee::is_arithmetic(f),
        nb <= 0x40_0000,
        xs.len() >= nb,
        ys.len() >= 4 * nb,
        forall|i: int| 0 <= i < nb ==> (#[trigger] xs[i]).d as int % 0x8000 < 0x7c00,
        forall|j: int| 0 <= j < 4 * nb ==> (#[trigger] ys[j]).d as int % 0x8000 < 0x7c00,
        terms.len() == 128 * nb,
        parts.len() == 128 * nb,
        forall|e: int|
            0 <= e < 128 * nb ==> #[trigger] terms[e] == (binary16::value(xs[e / 128].d)
                * (2 * (xs[e / 128].qs@[(e % 128) / 8] as int / pow2(((e % 128) % 8) as nat) as int % 2) - 1)) * (binary16::value(ys[e / 32].d)
                * ys[e / 32].qs@[e % 32]),
        forall|e: int| 0 <= e < 128 * nb ==> #[trigger] parts[e] == ieee::size(terms[e]),
        quants::is_dot(op, quants::models(xs), quants::models(ys), nb as int, r),
    ensures
        r as int % 0x8000_0000 < 0x7f80_0000,
        ieee::size(binary32::value(r) - sum(terms) * pow2(101)) * 0x80_0000 <= (nb + 8) * (sum(parts)
            * pow2(101)),
{
    let (ws, zs) = (quants::models(xs), quants::models(ys));
    assert(arith::computes(f, op));
    assert forall|i: int| 0 <= i < nb implies (#[trigger] ws[i]).q.len() == 128
        && binary16::is_finite(ws[i].d) by {
        assert(xs[i].d as int % 0x8000 < 0x7c00);
    }
    assert forall|i: int, e: int| 0 <= i < nb && 0 <= e < 128 implies -2 <= #[trigger] ws[i].q[e]
        <= 2 by {
        law_bits(xs[i], e);
    }
    assert forall|j: int| 0 <= j < 4 * nb implies (#[trigger] zs[j]).q.len() == 32
        && binary16::is_finite(zs[j].d) by {
        assert(ys[j].d as int % 0x8000 < 0x7c00);
    }
    assert forall|e: int| 0 <= e < 128 * nb implies #[trigger] terms[e] == quants::element_value(
        ws,
        128,
        e,
    ) * quants::element_value(zs, 32, e) by {
        law_bits(xs[e / 128], e % 128);
    }
    accuracy::lemma_dot_near_sum(f, ws, zs, nb, terms, parts);
}

/// The element of a product in row `row` and column `col` is the dot product of
/// blocks `col * (k / 128)` to `(col + 1) * (k / 128)` of the weights with row
/// `row` of the activations, quantised 32 by 32.
pub proof fn law_product_element<O: Fn(Op, u32, u32) -> u32, N: Fn(u32) -> u16>(
    op: &O,
    narrow: &N,
    f: Rounding,
    g: Narrowing,
    mkn: (usize, usize, usize),
    lhs: &[u32],
    rhs_t: Seq<BlockQ1_0_g128>,
    before: Seq<u32>,
    after: Seq<u32>,
    row: int,
    col: int,
    ys: Seq<BlockQ8_0>,
    r: u32,
)
    requires
        forall|o: Op, a: u32, b: u32, r: u32| #[trigger]
            op.ensures((o, a, b), r) ==> r == f(o, a, b),
        forall|x: u32, r: u16| #[trigger] narrow.ensures((x,), r) ==> r == g(x),
        kernel::is_product(
            op,
            narrow,
            GgmlDType::Q1_0_g128,
            mkn,
            lhs,
            quants::models(rhs_t),
            before,
            after,
            Ok::<(), MatmulError>(()),
        ),
        0 <= row < mkn.0,
        0 <= col < mkn.2,
        rhs_t.len() >= mkn.2 * (mkn.1 as int / 128),
        ys.len() == mkn.1 as int / 32,
        forall|j: int|
            0 <= j < mkn.1 as int / 32 ==> (#[trigger] ys[j])@ == q8_0::quantized(
                f,
                g,
                lhs@.subrange(row * mkn.1 + 32 * j, row * mkn.1 + 32 * j + 32),
            ),
        quants::is_dot(
            op,
            quants::models(
                rhs_t.subrange(col * (mkn.1 as int / 128), (col + 1) * (mkn.1 as int / 128)),
            ),
            quants::models(ys),
            mkn.1 as int / 128,
            r,
        ),
    ensures
        after[row * mkn.2 + col] == r,
{
    let k = mkn.1 as int;
    laws::law_computes(f, g, op, narrow);
    laws::law_product_shape(
        op,
        narrow,
        GgmlDType::Q1_0_g128,
        mkn,
        lhs,
        quants::models(rhs_t),
        before,
        after,
        Ok::<(), MatmulError>(()),
    );
    kernel::lemma_element(f, g, mkn, lhs@, quants::models(rhs_t), row, col, quants::models(ys));
    let kb = k / 128;
    assert(0 <= col * kb && (col + 1) * kb == col * kb + kb && (col + 1) * kb <= mkn.2 * kb)
        by (nonlinear_arith)
        requires
            0 <= col < mkn.2,
            kb >= 0,
    ;
    assert(quants::models(rhs_t.subrange(col * kb, (col + 1) * kb)) =~= quants::models(
        rhs_t,
    ).subrange(col * kb, (col + 1) * kb));
}

/// Position `e` of weight row `col` is position `col * k + e` of all weights.
proof fn lemma_position(
    mkn: (usize, usize, usize),
    rhs_t: Seq<BlockQ1_0_g128>,
    col: int,
    xs: Seq<Quants>,
    e: int,
)
    requires
        mkn.1 as int % 128 == 0,
        0 <= col < mkn.2,
        rhs_t.len() >= mkn.2 * (mkn.1 as int / 128),
        xs == quants::models(rhs_t).subrange(
            col * (mkn.1 as int / 128),
            (col + 1) * (mkn.1 as int / 128),
        ),
        0 <= e < mkn.1,
    ensures
        xs.len() == mkn.1 as int / 128,
        xs[e / 128] == rhs_t[(col * mkn.1 + e) / 128]@,
        quants::element_value(xs, 128, e) == binary16::value(rhs_t[(col * mkn.1 + e) / 128].d)
            * (2 * (rhs_t[(col * mkn.1 + e) / 128].qs@[((col * mkn.1 + e) % 128) / 8] as int / pow2((((col * mkn.1 + e) % 128) % 8) as nat) as int % 2) - 1),
{
    let (k, n) = (mkn.1 as int, mkn.2 as int);
    let kb = k / 128;
    assert(0 <= col * kb && (col + 1) * kb == col * kb + kb && (col + 1) * kb <= n * kb && col * k
        == 128 * (col * kb)) by (nonlinear_arith)
        requires
            0 <= col < n,
            kb >= 0,
            k == 128 * kb,
    ;
    let at = (col * k + e) / 128;
    assert(at == col * kb + e / 128 && (col * k + e) % 128 == e % 128);
    law_bits(rhs_t[at], e % 128);
}

/// The element of a product in row `row` and column `col` is near the sum of the
/// activations at `row * k + t` times the numbers that the weights stand for at
/// `col * k + t`, for `t` up to `k`: where the scales of these weights are finite
/// and the activations of each group of 32 are bounded by `tops`, of at most eight
/// million, it is off by at most `(k / 128 + 8) * 2^-23` of the sum of the
/// magnitudes, and 9/16 of the steps that the weights meet, and a little of both.
/// A step is the bound over 126, but no less than the smallest normal
/// half-precision number. The terms are in units of `2^-173`.
pub proof fn law_product_near<O: Fn(Op, u32, u32) -> u32, N: Fn(u32) -> u16>(
    op: &O,
    narrow: &N,
    f: Rounding,
    g: Narrowing,
    mkn: (usize, usize, usize),
    lhs: &[u32],
    rhs_t: Seq<BlockQ1_0_g128>,
    before: Seq<u32>,
    after: Seq<u32>,
    row: int,
    col: int,
    tops: Seq<u32>,
    terms: Seq<int>,
    parts: Seq<int>,
    steps: Seq<int>,
)
    requires
        forall|o: Op, a: u32, b: u32, r: u32| #[trigger]
            op.ensures((o, a, b), r) ==> r == f(o, a, b),
        forall|x: u32, r: u16| #[trigger] narrow.ensures((x,), r) ==> r == g(x),
        ieee::is_arithmetic(f),
        narrowing::is_narrowing(g),
        kernel::is_product(
            op,
            narrow,
            GgmlDType::Q1_0_g128,
            mkn,
            lhs,
            quants::models(rhs_t),
            before,
            after,
            Ok::<(), MatmulError>(()),
        ),
        0 <= row < mkn.0,
        0 <= col < mkn.2,
        mkn.1 <= 0x2000_0000,
        rhs_t.len() >= mkn.2 * (mkn.1 as int / 128),
        forall|t: int|
            0 <= t < mkn.1 ==> rhs_t[(#[trigger] (col * mkn.1 + t)) / 128].d as int % 0x8000
                < 0x7c00,
        forall|t: int|
            0 <= t < mkn.1 ==> lhs@[#[trigger] (row * mkn.1 + t)] as int % 0x8000_0000 <= tops[t
                / 32] <= 0x4af4_2400,
        terms.len() == mkn.1,
        parts.len() == mkn.1,
        steps.len() == mkn.1,
        forall|t: int|
            0 <= t < mkn.1 ==> #[trigger] terms[t] == (binary16::value(
                rhs_t[(col * mkn.1 + t) / 128].d,
            ) * (2 * (rhs_t[(col * mkn.1 + t) / 128].qs@[((col * mkn.1 + t) % 128) / 8] as int / pow2((((col * mkn.1 + t) % 128) % 8) as nat) as int % 2) - 1)) * binary32::value(
                lhs@[row * mkn.1 + t],
            ),
        forall|t: int| 0 <= t < mkn.1 ==> #[trigger] parts[t] == ieee::size(terms[t]),
        forall|t: int|
            0 <= t < mkn.1 ==> #[trigger] steps[t] == ieee::size(
                binary16::value(rhs_t[(col * mkn.1 + t) / 128].d)
                    * (2 * (rhs_t[(col * mkn.1 + t) / 128].qs@[((col * mkn.1 + t) % 128) / 8] as int / pow2((((col * mkn.1 + t) % 128) % 8) as nat) as int % 2) - 1),
            ) * (if binary32::units(tops[t / 32]) >= 126 * (1024 * pow2(125)) {
                binary32::units(tops[t / 32])
            } else {
                126 * (1024 * pow2(125)) as int
            }),
    ensures
        ({
            let r = after[row * mkn.2 + col];
            let b = mkn.1 as int / 128 + 8;
            &&& r as int % 0x8000_0000 < 0x7f80_0000
            &&& ieee::size(binary32::value(r) * pow2(24) - sum(terms)) * 0x3_f000_0000 <= 2016 * (b
                * sum(parts)) + 9 * ((0x80_0000 + b) * sum(steps))
        }),
{
    let kb = mkn.1 as int / 128;
    let rhs = quants::models(rhs_t);
    let xs = rhs.subrange(col * kb, (col + 1) * kb);
    let acts = lhs@.subrange(row * mkn.1, row * mkn.1 + mkn.1);
    laws::law_computes(f, g, op, narrow);
    laws::law_product_shape(
        op,
        narrow,
        GgmlDType::Q1_0_g128,
        mkn,
        lhs,
        rhs,
        before,
        after,
        Ok::<(), MatmulError>(()),
    );
    let (m, k) = (mkn.0 as int, mkn.1 as int);
    assert(0 <= row * k && row * k + k <= m * k) by (nonlinear_arith)
        requires
            0 <= row < m,
            k >= 0,
    ;
    assert forall|i: int| 0 <= i < kb implies (#[trigger] xs[i]).q.len() == 128
        && binary16::is_finite(xs[i].d) && forall|e: int|
        0 <= e < 128 ==> -2 <= #[trigger] xs[i].q[e] <= 2 by {
        let t = 128 * i;
        lemma_position(mkn, rhs_t, col, xs, t);
        let b = rhs_t[(col * mkn.1 + t) / 128];
        assert(b.d as int % 0x8000 < 0x7c00);
        assert forall|e: int| 0 <= e < 128 implies -2 <= #[trigger] xs[i].q[e] <= 2 by {
            law_bits(b, e);
        }
        law_bits(b, 0);
    }
    assert(xs.len() == kb) by {
        if kb > 0 {
            lemma_position(mkn, rhs_t, col, xs, 0);
        } else {
            assert(col * 0 == 0 && (col + 1) * 0 == 0) by (nonlinear_arith);
        }
    }
    assert forall|e: int| 0 <= e < k implies binary32::magnitude(#[trigger] acts[e]) <= tops[e / 32]
        <= 0x4af4_2400 by {
        assert(lhs@[row * mkn.1 + e] as int % 0x8000_0000 <= tops[e / 32]);
    }
    assert forall|e: int| 0 <= e < k implies #[trigger] terms[e] == quants::element_value(
        xs,
        128,
        e,
    ) * binary32::value(acts[e]) by {
        lemma_position(mkn, rhs_t, col, xs, e);
        assert(acts[e] == lhs@[row * mkn.1 + e]);
    }
    assert forall|e: int| 0 <= e < k implies #[trigger] steps[e] == ieee::size(
        quants::element_value(xs, 128, e),
    ) * (if binary32::units(tops[e / 32]) >= 126 * (1024 * pow2(125)) {
        binary32::units(tops[e / 32])
    } else {
        126 * (1024 * pow2(125)) as int
    }) by {
        lemma_position(mkn, rhs_t, col, xs, e);
    }
    kernel::lemma_element_near(
        f,
        g,
        mkn,
        lhs@,
        rhs,
        row,
        col,
        xs,
        acts,
        tops,
        terms,
        parts,
        steps,
    );
}

/// The magnitudes added up from the left.
proof fn lemma_trace(f: Rounding, weights: Seq<u32>, sums: Seq<u32>, n: nat)
    requires
        n <= 128,
        sums.len() == 129,
        sums[0] == 0,
        forall|t: int|
            0 <= t < 128 ==> #[trigger] sums[t + 1] == f(
                Op::Add,
                sums[t],
                (weights[t] as int % 0x8000_0000) as u32,
            ),
    ensures
        k_quants_q1_0_g128::magnitude_sum(f, weights, n) == sums[n as int],
    decreases n,
{
    if n > 0 {
        lemma_trace(f, weights, sums, (n - 1) as nat);
        assert(sums[(n - 1) + 1] == sums[n as int]);
    }
}

/// How 128 weights are quantised, bit for bit and for whatever the operation
/// computes: their magnitudes are added up from zero, in order, and divided by
/// 128; where that is positive it is the scale, and otherwise one is. A bit is set
/// exactly where the weight is at least zero, of either sign, and no NaN.
pub proof fn law_quantized(
    f: Rounding,
    g: Narrowing,
    weights: Seq<u32>,
    block: BlockQ1_0_g128,
    sums: Seq<u32>,
    e: int,
)
    requires
        weights.len() == 128,
        block@ == k_quants_q1_0_g128::quantized(f, g, weights),
        sums.len() == 129,
        sums[0] == 0,
        forall|t: int|
            0 <= t < 128 ==> #[trigger] sums[t + 1] == f(
                Op::Add,
                sums[t],
                (weights[t] as int % 0x8000_0000) as u32,
            ),
        0 <= e < 128,
    ensures
        ({
            let mean = f(Op::Div, sums[128], 0x4300_0000);
            block.d == g(
                if 0 < mean <= 0x7f80_0000 {
                    mean
                } else {
                    0x3f80_0000
                },
            )
        }),
        (2 * (block.qs@[e / 8] as int / pow2((e % 8) as nat) as int % 2) - 1) == 1 <==> weights[e] <= 0x7f80_0000 || weights[e] == 0x8000_0000,
{
    lemma_trace(f, weights, sums, 128);
    law_bits(block, e);
    binary32::lemma_sign_split(weights[e]);
    assert(block@.q[e] == k_quants_q1_0_g128::signs(weights)[e]);
    assert(block@.d == g(k_quants_q1_0_g128::scale_of(f, weights)));
}

/// The magnitudes of finite weights add up to their sum, up to rounding, or
/// overflow.
proof fn lemma_sum_near(f: Rounding, weights: Seq<u32>, sizes: Seq<int>, n: nat)
    requires
        ieee::is_arithmetic(f),
        weights.len() == 128,
        sizes.len() == 128,
        n <= 128,
        forall|t: int| 0 <= t < 128 ==> (#[trigger] weights[t]) as int % 0x8000_0000 < 0x7f80_0000,
        forall|t: int| 0 <= t < 128 ==> #[trigger] sizes[t] == binary32::units(weights[t]),
    ensures
        ({
            let a = k_quants_q1_0_g128::magnitude_sum(f, weights, n);
            let s = sum(sizes.take(n as int));
            &&& s >= 0
            &&& a <= binary32::INFINITY
            &&& a == binary32::INFINITY ==> s >= pow2(276)
            &&& a < binary32::INFINITY ==> ieee::size(binary32::units(a) - s) * 0x1_0000_0000 <= 257
                * (n * s)
        }),
    decreases n,
{
    if n == 0 {
        binary32::lemma_sign_split(0);
        assert(sizes.take(0).len() == 0);
        assert(0 * 0 == 0) by (nonlinear_arith);
    } else {
        let m = (n - 1) as nat;
        lemma_sum_near(f, weights, sizes, m);
        laws::lemma_sum_take(sizes, m as int);
        let a = k_quants_q1_0_g128::magnitude_sum(f, weights, m);
        let w = weights[m as int];
        let b = binary32::magnitude(w) as u32;
        let r = f(Op::Add, a, b);
        let s = sum(sizes.take(m as int));
        binary32::lemma_sign_split(w);
        binary32::lemma_sign_split(b);
        binary32::lemma_sign_split(a);
        binary32::lemma_sign_split(r);
        binary32::lemma_units_nonnegative(a);
        binary32::lemma_units_nonnegative(b);
        assert(binary32::units(b) == binary32::units(w));
        assert(weights[m as int] as int % 0x8000_0000 < 0x7f80_0000);
        assert(ieee::is_sum(a, b, r));
        let (x, u, y) = (binary32::units(a), binary32::units(b), binary32::units(r));
        assert(sizes[m as int] == u);
        assert(k_quants_q1_0_g128::magnitude_sum(f, weights, n) == r);
        if a < binary32::INFINITY {
            ieee::lemma_top();
            let l = ieee::limit();
            assert(0 <= m * s <= 127 * s) by (nonlinear_arith)
                requires
                    0 <= m <= 127,
                    s >= 0,
            ;
            assert(n * (s + u) == m * s + s + n * u && n * u >= u) by (nonlinear_arith)
                requires
                    n == m + 1,
                    m >= 0,
                    u >= 0,
            ;
            assert(1 * l == l);
            if x + u >= l {
                assert(binary32::is_infinite(r));
                lemma_half_limit();
                assert(s + u >= pow2(276));
            } else {
                ieee::lemma_error(r, x + u, 1);
                assert(ieee::distance(r, x + u, 1) == ieee::size(y - (x + u)));
                let (p, q) = (m * s, n * u);
                assert(ieee::size(x - s) * 0x1_0000_0000 <= 257 * p);
                assert(x <= s + ieee::size(x - s));
                assert(ieee::size(y - (s + u)) <= ieee::size(y - (x + u)) + ieee::size(x - s));
                assert(ieee::size(y - (s + u)) * 0x1_0000_0000 <= 257 * (p + s + q));
            }
        }
    }
}

/// The limit is well above `2^276`.
proof fn lemma_half_limit()
    ensures
        2 * ieee::limit() >= 3 * pow2(276),
{
    lemma_pow2_unfold(277);
    lemma_pow2_strictly_increases(252, 275);
    lemma_pow2_unfold(276);
}

/// The scale of finite weights is their mean magnitude: 128 times it is the sum of
/// the magnitudes, up to `131 * 2^-24` of the sum, and up to half a unit of
/// `2^-149` for each weight where the sum is tiny. A sum that rounds to zero gives
/// one, and a sum from `2^127` on may overflow to infinity.
pub proof fn law_mean(
    f: Rounding,
    g: Narrowing,
    weights: Seq<u32>,
    block: BlockQ1_0_g128,
    sizes: Seq<int>,
) -> (s: u32)
    requires
        ieee::is_arithmetic(f),
        weights.len() == 128,
        block@ == k_quants_q1_0_g128::quantized(f, g, weights),
        forall|t: int| 0 <= t < 128 ==> (#[trigger] weights[t]) as int % 0x8000_0000 < 0x7f80_0000,
        sizes.len() == 128,
        forall|t: int| 0 <= t < 128 ==> #[trigger] sizes[t] == binary32::units(weights[t]),
    ensures
        block.d == g(s),
        0 < s <= 0x7f80_0000,
        sum(sizes) == 0 ==> s == 0x3f80_0000,
        sum(sizes) > 64 && sum(sizes) < pow2(276) ==> s < 0x7f80_0000,
        sum(sizes) > 64 && s < 0x7f80_0000 ==> ieee::size(128 * binary32::units(s) - sum(sizes))
            * 0x100_0000 <= 131 * sum(sizes) + 0x4000_0000,
        sum(sizes) >= 0x4000_0000 && s < 0x7f80_0000 ==> ieee::size(
            128 * binary32::units(s) - sum(sizes),
        ) * 0x100_0000 <= 131 * sum(sizes),
        sum(sizes) <= 64 ==> s == 0x3f80_0000 || s == 1,
{
    let p = pow2(149) as int;
    let a = k_quants_q1_0_g128::magnitude_sum(f, weights, 128);
    let r = f(Op::Div, a, 0x4300_0000);
    let s = k_quants_q1_0_g128::scale_of(f, weights);
    assert(block@.d == g(s));
    lemma_sum_near(f, weights, sizes, 128);
    assert(sizes.take(128) =~= sizes);
    let t = sum(sizes);
    k_quants_q1_0_g128::law_count();
    binary32::lemma_sign_split(a);
    binary32::lemma_sign_split(r);
    binary32::lemma_sign_split(0x4300_0000);
    binary32::lemma_sign_split(0);
    binary32::lemma_sign_split(1);
    lemma_pow2_pos(149);
    lemma_pow2_pos(276);
    lemma_pow2_strictly_increases(30, 276);
    lemma2_to64();
    assert(binary32::units(0x4300_0000) == 128 * p);
    assert(ieee::is_quotient(a, 0x4300_0000, r));
    let (x, y) = (binary32::units(a), binary32::units(r));
    binary32::lemma_units_nonnegative(a);
    binary32::lemma_units_nonnegative(r);
    assert(binary32::units(0) == 0 && binary32::units(1) == 1);
    if a < 0x7f80_0000 {
        ieee::lemma_scaled(r, x, 128, p);
        ieee::lemma_units_below(a);
        ieee::lemma_top();
        ieee::lemma_error(r, x, 128);
        assert(ieee::distance(r, x, 128) == ieee::size(y * 128 - x));
        assert(ieee::size(x - t) * 0x100_0000 <= 129 * t);
        if r == 0 {
            assert(y == 0);
            assert(t <= 64);
        } else {
            ieee::lemma_units_positive(r);
        }
        if t <= 64 {
            assert(x == t);
            ieee::lemma_neighbour(r, x, 128, 1);
        }
    }
    s
}

/// A weight that is a NaN makes the scale one, and otherwise an infinite weight
/// makes it infinite.
pub proof fn law_mean_of_infinite(
    f: Rounding,
    g: Narrowing,
    weights: Seq<u32>,
    block: BlockQ1_0_g128,
    e: int,
)
    requires
        ieee::is_arithmetic(f),
        weights.len() == 128,
        block@ == k_quants_q1_0_g128::quantized(f, g, weights),
        0 <= e < 128,
        weights[e] as int % 0x8000_0000 >= 0x7f80_0000,
    ensures
        weights[e] as int % 0x8000_0000 > 0x7f80_0000 ==> block.d == g(0x3f80_0000),
        (forall|t: int|
            0 <= t < 128 ==> (#[trigger] weights[t]) as int % 0x8000_0000 <= 0x7f80_0000)
            ==> block.d == g(0x7f80_0000),
{
    lemma_special_sum(f, weights, e, 128);
    let a = k_quants_q1_0_g128::magnitude_sum(f, weights, 128);
    let r = f(Op::Div, a, 0x4300_0000);
    assert(block@.d == g(k_quants_q1_0_g128::scale_of(f, weights)));
    assert(ieee::is_quotient(a, 0x4300_0000, r));
    binary32::lemma_sign_split(a);
    binary32::lemma_sign_split(r);
    binary32::lemma_sign_split(0x4300_0000);
}

/// NaNs and infinities spread through a sum of magnitudes.
proof fn lemma_special_sum(f: Rounding, weights: Seq<u32>, e: int, n: nat)
    requires
        ieee::is_arithmetic(f),
        weights.len() == 128,
        n <= 128,
        0 <= e < 128,
    ensures
        ({
            let a = k_quants_q1_0_g128::magnitude_sum(f, weights, n);
            &&& e < n && weights[e] as int % 0x8000_0000 > 0x7f80_0000 ==> binary32::is_nan(a)
            &&& (forall|t: int|
                0 <= t < 128 ==> (#[trigger] weights[t]) as int % 0x8000_0000 <= 0x7f80_0000) ==> {
                &&& a <= 0x7f80_0000
                &&& e < n && weights[e] as int % 0x8000_0000 == 0x7f80_0000 ==> a == 0x7f80_0000
            }
        }),
    decreases n,
{
    if n == 0 {
        binary32::lemma_sign_split(0);
    } else {
        let m = (n - 1) as nat;
        lemma_special_sum(f, weights, e, m);
        let a = k_quants_q1_0_g128::magnitude_sum(f, weights, m);
        let b = binary32::magnitude(weights[m as int]) as u32;
        let r = f(Op::Add, a, b);
        assert(ieee::is_sum(a, b, r));
        assert(k_quants_q1_0_g128::magnitude_sum(f, weights, n) == r);
        binary32::lemma_sign_split(a);
        binary32::lemma_sign_split(b);
        binary32::lemma_sign_split(r);
        binary32::lemma_sign_split(weights[m as int]);
        binary32::lemma_units_nonnegative(a);
        binary32::lemma_units_nonnegative(b);
        if binary32::is_finite(a) && binary32::is_finite(b) {
            let s = binary32::units(a) + binary32::units(b);
            binary32::lemma_sign_split(0);
            ieee::lemma_neighbour(r, ieee::size(binary32::value(a) + binary32::value(b)), 1, 0);
        }
    }
}

} // verus!
