//! The dot and matrix kernels over packed weight blocks.
use crate::accuracy;
use crate::arith;
use crate::arith::{Narrowing, Op, Rounding};
use crate::binary16;
use crate::binary32;
use crate::dtype::GgmlDType;
use crate::error::MatmulError;
use crate::ieee;
use crate::laws;
use crate::narrowing;
use crate::q8_0;
use crate::q8_0::{BlockQ8_0, QK8_0};
use crate::quants;
use crate::quants::{Quants, BLOCK};
use vstd::arithmetic::power2::*;
use vstd::prelude::*;

verus! {

/// A weight block whose 128 integers can be summed against activations
/// without unpacking them first.
pub trait PackedBlock: View<V = Quants> + Sized {
    /// The pattern of the scale.
    fn scale(&self) -> (r: u16)
        ensures
            r == self@.d,
    ;

    /// The inner product of group `k` of 32 weights with the activations of `y`.
    fn group_sum(&self, k: usize, y: &BlockQ8_0) -> (r: i32)
        requires
            k < 4,
        ensures
            r == quants::inner(self@.q, 32 * k, y@.q, 0, 32),
            -8192 <= r <= 8192,
    ;
}

/// How the elements of one output row are computed.
pub trait RowKernel: PackedBlock {
    /// Computes one output row: the element of column `col` is the dot product
    /// of row `col` of `rhs_t` with the activations `act`.
    fn fill_row<O: Fn(Op, u32, u32) -> u32 + Sync>(
        out: &mut [u32],
        k: usize,
        rhs_t: &[Self],
        act: &[BlockQ8_0],
        op: &O,
    )
        requires
            arith::callable(op),
            rhs_t@.len() >= old(out)@.len() * (k / 128),
            act@.len() >= k / 128 * 4,
        ensures
            final(out)@.len() == old(out)@.len(),
            forall|col: int|
                0 <= col < old(out)@.len() ==> quants::is_dot(
                    op,
                    weight_row(quants::models(rhs_t@), k as int, col),
                    quants::models(act@),
                    k as int / 128,
                    #[trigger] final(out)@[col],
                ),
    ;
}

/// Row `col` of the weight matrix `rhs`, whose rows have `k` weights each.
pub open spec fn weight_row(rhs: Seq<Quants>, k: int, col: int) -> Seq<Quants> {
    rhs.subrange(col * (k / 128), (col + 1) * (k / 128))
}

/// Row `row` of the activation matrix `lhs`, whose rows have `k` elements each,
/// quantised to blocks.
pub open spec fn activation_row(f: Rounding, g: Narrowing, lhs: Seq<u32>, k: int, row: int) -> Seq<
    Quants,
> {
    Seq::new(
        (k / 32) as nat,
        |j: int| q8_0::quantized(f, g, q8_0::group(lhs, row * (k / 32) + j)),
    )
}

/// The element of the product in row `row` and column `col`: the dot product of
/// that weight row with that activation row.
pub open spec fn element(
    f: Rounding,
    g: Narrowing,
    k: int,
    lhs: Seq<u32>,
    rhs: Seq<Quants>,
    row: int,
    col: int,
) -> u32 {
    quants::dot(
        quants::single(f),
        weight_row(rhs, k, col),
        activation_row(f, g, lhs, k, row),
        (k / 128) as nat,
    )
}

/// Why a product of `m` rows of `k` activations with `n` rows of weights is
/// refused where `len` activations are given.
pub open spec fn refusal(dtype: GgmlDType, m: usize, k: usize, n: usize, len: usize) -> Option<
    MatmulError,
> {
    if k % 128 != 0 {
        Some(MatmulError::RowLength { dtype, k })
    } else if m * k != len {
        Some(MatmulError::LhsLength { len, m, k, n })
    } else {
        None
    }
}

/// The operands of a product that is not refused have the lengths that it
/// reads and writes: all weight rows where there is an activation row, and room
/// for all elements.
pub open spec fn operands_fit(m: int, k: int, n: int, weights: nat, room: nat) -> bool {
    &&& m > 0 ==> weights >= n * (k / 128)
    &&& room >= m * n
}

/// The operands of a product are long enough, unless it is refused.
pub open spec fn accepts(
    dtype: GgmlDType,
    mkn: (usize, usize, usize),
    len: usize,
    weights: nat,
    room: nat,
) -> bool {
    refusal(dtype, mkn.0, mkn.1, mkn.2, len) is None ==> operands_fit(
        mkn.0 as int,
        mkn.1 as int,
        mkn.2 as int,
        weights,
        room,
    )
}

/// `r` and `after` are what the product of the activations `lhs` with the
/// weights `rhs` returns and leaves in a destination that held `before`: either
/// the refusal and the same destination, or success and the elements, with
/// what lies beyond them as it was.
pub open spec fn is_product<O: Fn(Op, u32, u32) -> u32, N: Fn(u32) -> u16>(
    op: &O,
    narrow: &N,
    dtype: GgmlDType,
    mkn: (usize, usize, usize),
    lhs: &[u32],
    rhs: Seq<Quants>,
    before: Seq<u32>,
    after: Seq<u32>,
    r: Result<(), MatmulError>,
) -> bool {
    let (m, k, n) = mkn;
    match refusal(dtype, m, k, n, lhs.len()) {
        Some(e) => r == Err::<(), MatmulError>(e) && after == before,
        None => {
            &&& r is Ok
            &&& after.len() == before.len()
            &&& forall|f: Rounding, g: Narrowing, row: int, col: int|
                arith::both_compute(f, g, op, narrow) && 0 <= row < m && 0 <= col < n
                    ==> after[row * n + col] == #[trigger] element(
                    f,
                    g,
                    k as int,
                    lhs@,
                    rhs,
                    row,
                    col,
                )
            &&& forall|j: int|
                m * n <= j < before.len() ==> #[trigger] after[j] == before[j]
        },
    }
}

/// What weight block `i` gives: the products of the activation scales with the
/// integer sums, added up from the left.
fn share<B: PackedBlock, O: Fn(Op, u32, u32) -> u32>(
    xs: &[B],
    ys: &[BlockQ8_0],
    i: usize,
    op: &O,
) -> (r: u32)
    requires
        arith::callable(op),
        i < xs.len(),
        4 * i + 4 <= ys.len(),
    ensures
        forall|f: Rounding| #[trigger]
            arith::computes(f, op) ==> r == quants::share(
                quants::single(f),
                quants::models(xs@),
                quants::models(ys@),
                i as int,
                4,
            ),
{
    let mut sumi: u32 = 0;
    for k in 0..4usize
        invariant
            arith::callable(op),
            i < xs.len(),
            4 * i + 4 <= ys.len(),
            forall|f: Rounding| #[trigger]
                arith::computes(f, op) ==> sumi == quants::share(
                    quants::single(f),
                    quants::models(xs@),
                    quants::models(ys@),
                    i as int,
                    k as nat,
                ),
    {
        let yb: &BlockQ8_0 = &ys[i * 4 + k];
        let d1: u32 = binary16::widen(yb.d);
        let sum: i32 = xs[i].group_sum(k, yb);
        let term: u32 = op(Op::Mul, d1, binary32::from_integer(sum));
        sumi = op(Op::Add, sumi, term);
    }
    sumi
}

/// The dot product of the first `n` weights of `xs` with the first `n`
/// activations of `ys`.
pub(crate) fn dot<B: PackedBlock, O: Fn(Op, u32, u32) -> u32>(
    n: usize,
    xs: &[B],
    ys: &[BlockQ8_0],
    op: &O,
) -> (r: u32)
    requires
        arith::callable(op),
        xs@.len() >= n / 128,
        ys@.len() >= n / 128 * 4,
    ensures
        quants::is_dot(op, quants::models(xs@), quants::models(ys@), n as int / 128, r),
{
    let nb: usize = n / BLOCK;
    let mut sumf: u32 = 0;
    for i in 0..nb
        invariant
            arith::callable(op),
            nb <= xs.len(),
            nb * 4 <= ys.len(),
            quants::is_dot(op, quants::models(xs@), quants::models(ys@), i as int, sumf),
    {
        let d0: u32 = binary16::widen(xs[i].scale());
        let sumi: u32 = share(xs, ys, i, op);
        let scaled: u32 = op(Op::Mul, d0, sumi);
        sumf = op(Op::Add, sumf, scaled);
    }
    sumf
}

/// The element of column `col`: the dot product of row `col` of `rhs_t` with
/// `act`.
pub(crate) fn column<B: PackedBlock, O: Fn(Op, u32, u32) -> u32>(
    k: usize,
    rhs_t: &[B],
    act: &[BlockQ8_0],
    col: usize,
    op: &O,
) -> (r: u32)
    requires
        arith::callable(op),
        rhs_t@.len() >= (col + 1) * (k / 128),
        act@.len() >= k / 128 * 4,
    ensures
        quants::is_dot(
            op,
            weight_row(quants::models(rhs_t@), k as int, col as int),
            quants::models(act@),
            k as int / 128,
            r,
        ),
{
    let kb: usize = k / BLOCK;
    proof {
        assert(0 <= col * kb <= (col + 1) * kb) by (nonlinear_arith)
            requires
                kb >= 0,
                col >= 0,
        ;
        assert((col + 1) * kb == col * kb + kb) by (nonlinear_arith);
        assert(rhs_t.len() >= (col + 1) * kb);
    }
    let start: usize = col * kb;
    let w: &[B] = &rhs_t[start..start + kb];
    assert(quants::models(w@) =~= weight_row(quants::models(rhs_t@), k as int, col as int));
    dot(k, w, act, op)
}

/// The matrix product that the public functions of the two formats give.
pub(crate) fn matmul<
    B: RowKernel,
    O: Fn(Op, u32, u32) -> u32 + Sync,
    N: Fn(u32) -> u16,
>(
    dtype: GgmlDType,
    mkn: (usize, usize, usize),
    lhs: &[u32],
    rhs_t: &[B],
    dst: &mut [u32],
    op: &O,
    narrow: &N,
) -> (r: Result<(), MatmulError>)
    requires
        arith::callable(op),
        arith::narrow_callable(narrow),
        accepts(dtype, mkn, lhs.len(), rhs_t@.len(), old(dst)@.len()),
    ensures
        is_product(
            op,
            narrow,
            dtype,
            mkn,
            lhs,
            quants::models(rhs_t@),
            old(dst)@,
            final(dst)@,
            r,
        ),
        r is Ok <==> mkn.1 as int % 128 == 0 && mkn.0 * mkn.1 == lhs@.len(),
        r is Err ==> final(dst)@ == old(dst)@,
{
    let (m, k, n) = mkn;
    if k % BLOCK != 0 {
        return Err(MatmulError::RowLength { dtype, k });
    }
    let len: usize = lhs.len();
    let filled: bool = match m.checked_mul(k) {
        Some(whole) => whole == len,
        None => false,
    };
    if !filled {
        return Err(MatmulError::LhsLength { len, m, k, n });
    }
    let k_q8: usize = k / QK8_0;
    proof {
        assert(m * k == 32 * (m * k_q8)) by (nonlinear_arith)
            requires
                k == 32 * k_q8,
        ;
    }
    let blocks: usize = len / QK8_0;
    assert(blocks == m * k_q8);
    let mut lhs_q8: Vec<BlockQ8_0> = vec![BlockQ8_0::zeros(); blocks];
    BlockQ8_0::from_float(lhs, lhs_q8.as_mut_slice(), op, narrow);
    let ghost rhs = quants::models(rhs_t@);
    for row in 0..m
        invariant
            arith::callable(op),
            k_q8 == k / 32,
            k % 128 == 0,
            lhs_q8@.len() == m * k_q8,
            forall|f: Rounding, g: Narrowing, j: int|
                #![trigger arith::both_compute(f, g, op, narrow), lhs_q8@[j]]
                arith::both_compute(f, g, op, narrow) && 0 <= j < lhs_q8@.len() ==> lhs_q8@[j]@
                    == q8_0::quantized(f, g, q8_0::group(lhs@, j)),
            operands_fit(m as int, k as int, n as int, rhs_t@.len(), dst@.len()),
            dst@.len() == old(dst)@.len(),
            rhs == quants::models(rhs_t@),
            forall|f: Rounding, g: Narrowing, t: int, col: int|
                arith::both_compute(f, g, op, narrow) && 0 <= t < row && 0 <= col < n
                    ==> dst@[t * n + col] == #[trigger] element(
                    f,
                    g,
                    k as int,
                    lhs@,
                    rhs,
                    t,
                    col,
                ),
            forall|j: int| row * n <= j < dst@.len() ==> #[trigger] dst@[j] == old(dst)@[j],
    {
        let ghost before = dst@;
        proof {
            assert(row * k_q8 + k_q8 == (row + 1) * k_q8) by (nonlinear_arith);
            assert((row + 1) * k_q8 <= m * k_q8) by (nonlinear_arith)
                requires
                    row < m,
                    k_q8 >= 0,
            ;
            assert(row * n + n == (row + 1) * n) by (nonlinear_arith);
            assert((row + 1) * n <= m * n) by (nonlinear_arith)
                requires
                    row < m,
                    n >= 0,
            ;
            assert(row * k_q8 >= 0) by (nonlinear_arith)
                requires
                    row >= 0,
                    k_q8 >= 0,
            ;
            assert(row * n >= 0) by (nonlinear_arith)
                requires
                    row >= 0,
                    n >= 0,
            ;
            assert(lhs_q8.len() == m * k_q8);
            assert(dst.len() >= m * n);
        }
        let first: usize = row * k_q8;
        let act: &[BlockQ8_0] = &lhs_q8.as_slice()[first..first + k_q8];
        let start: usize = row * n;
        let (_, rest) = dst.split_at_mut(start);
        let (out, _) = rest.split_at_mut(n);
        B::fill_row(out, k, rhs_t, act, op);
        proof {
            assert forall|f: Rounding, g: Narrowing, t: int, col: int|
                arith::both_compute(f, g, op, narrow) && 0 <= t < row + 1 && 0 <= col
                    < n implies dst@[t * n + col] == #[trigger] element(
                f,
                g,
                k as int,
                lhs@,
                rhs,
                t,
                col,
            ) by {
                if t < row {
                    assert(0 <= t * n + col < row * n) by (nonlinear_arith)
                        requires
                            0 <= t < row,
                            0 <= col < n,
                    ;
                    assert(dst@[t * n + col] == before[t * n + col]);
                } else {
                    assert(quants::models(act@) =~= activation_row(f, g, lhs@, k as int, t));
                    assert(dst@[start + col] == dst@[t * n + col]);
                    assert(quants::is_dot(
                        op,
                        weight_row(rhs, k as int, col),
                        quants::models(act@),
                        k as int / 128,
                        dst@[start + col],
                    ));
                    assert(arith::computes(f, op));
                }
            }
        }
    }
    Ok(())
}

/// The quantised matrix product is the dense one: computed without rounding, in
/// units of `2^-298`, the dot product of a weight row with a quantised
/// activation row is that of the unpacked rows. Scales that are infinite or NaN
/// have no such product.
pub proof fn law_matmul_is_dense(
    f: Rounding,
    g: Narrowing,
    k: nat,
    n: nat,
    lhs: Seq<u32>,
    rhs: Seq<Quants>,
    row: int,
    col: int,
)
    requires
        k % 128 == 0,
        0 <= row,
        0 <= col < n,
        rhs.len() >= n * (k / 128),
        forall|i: int| 0 <= i < rhs.len() ==> binary16::is_finite((#[trigger] rhs[i]).d),
        forall|j: int|
            0 <= j < k / 32 ==> binary16::is_finite(
                (#[trigger] activation_row(f, g, lhs, k as int, row)[j]).d,
            ),
    ensures
        ({
            let xs = weight_row(rhs, k as int, col);
            let ys = activation_row(f, g, lhs, k as int, row);
            quants::dot(quants::exact(), xs, ys, k / 128) == quants::dense(xs, ys, k as int)
                * pow2(250)
        }),
{
    let kb = k as int / 128;
    let xs = weight_row(rhs, k as int, col);
    let ys = activation_row(f, g, lhs, k as int, row);
    assert(0 <= col * kb && col * kb + kb == (col + 1) * kb && (col + 1) * kb <= n * kb)
        by (nonlinear_arith)
        requires
            0 <= col < n,
            kb >= 0,
    ;
    assert forall|i: int| 0 <= i < kb implies binary16::is_finite((#[trigger] xs[i]).d) by {
        assert(xs[i] == rhs[col * kb + i]);
    }
    quants::law_dot_is_dense(xs, ys, k / 128);
}

/// A row of regular weights is regular.
proof fn lemma_weight_row(k: nat, n: nat, rhs: Seq<Quants>, col: int)
    requires
        0 <= col < n,
        rhs.len() >= n * (k / 128),
        accuracy::regular_weights(rhs, rhs.len()),
    ensures
        accuracy::regular_weights(weight_row(rhs, k as int, col), k / 128),
{
    let kb = k as int / 128;
    let xs = weight_row(rhs, k as int, col);
    assert(0 <= col * kb && col * kb + kb == (col + 1) * kb && (col + 1) * kb <= n * kb)
        by (nonlinear_arith)
        requires
            0 <= col < n,
            kb >= 0,
    ;
    assert forall|i: int| 0 <= i < kb implies #[trigger] xs[i] == rhs[col * kb + i] by {}
}

/// The activations of a row are in range.
proof fn lemma_activation_row(
    f: Rounding,
    g: Narrowing,
    k: nat,
    lhs: Seq<u32>,
    row: int,
    j: int,
    t: int,
)
    requires
        0 <= j < k / 32,
        0 <= t < 32,
    ensures
        -127 <= activation_row(f, g, lhs, k as int, row)[j].q[t] <= 127,
{
    let acts = q8_0::group(lhs, row * (k as int / 32) + j);
    binary32::law_rounded(f(Op::Mul, acts[t], q8_0::inverse(f, q8_0::step(f, acts))), 127);
}

/// The quantised matrix product is the dense one up to rounding: an element is off
/// by at most `(k / 128 + 8) * 2^-23` of the dense dot product of the magnitudes
/// of its rows. The dense products are in units of `2^-48`, the element in units
/// of `2^-149`.
pub proof fn law_matmul_near_dense(
    f: Rounding,
    g: Narrowing,
    k: nat,
    n: nat,
    lhs: Seq<u32>,
    rhs: Seq<Quants>,
    row: int,
    col: int,
)
    requires
        ieee::is_arithmetic(f),
        k % 128 == 0,
        k <= 0x2000_0000,
        0 <= row,
        0 <= col < n,
        rhs.len() >= n * (k / 128),
        accuracy::regular_weights(rhs, rhs.len()),
        forall|j: int|
            0 <= j < k / 32 ==> binary16::is_finite(
                (#[trigger] activation_row(f, g, lhs, k as int, row)[j]).d,
            ),
    ensures
        ({
            let xs = weight_row(rhs, k as int, col);
            let ys = activation_row(f, g, lhs, k as int, row);
            let r = element(f, g, k as int, lhs, rhs, row, col);
            let (dense, sizes) = (
                quants::dense(xs, ys, k as int),
                quants::dense(accuracy::sizes(xs), accuracy::sizes(ys), k as int),
            );
            &&& binary32::is_finite(r)
            &&& ieee::size(binary32::value(r) - dense * pow2(101)) * 0x80_0000 <= (k / 128 + 8) * (
            sizes * pow2(101))
        }),
{
    let xs = weight_row(rhs, k as int, col);
    let ys = activation_row(f, g, lhs, k as int, row);
    lemma_weight_row(k, n, rhs, col);
    assert forall|j: int, t: int| 0 <= j < 4 * (k / 128) && 0 <= t < 32 implies -128
        <= #[trigger] ys[j].q[t] <= 128 by {
        lemma_activation_row(f, g, k, lhs, row, j, t);
    }
    accuracy::law_dot_near_dense(f, xs, ys, k / 128);
}

/// The quantised matrix product is near that of the unpacked weights with the
/// activations themselves: an element is off by at most `(k / 128 + 8) * 2^-23` of
/// the dense dot product of the magnitudes of its rows, for the rounding, and 9/16
/// of the steps that the weights meet, for the quantising. All is in units of
/// `2^-173`.
pub proof fn law_matmul_near_input(
    f: Rounding,
    g: Narrowing,
    k: nat,
    n: nat,
    lhs: Seq<u32>,
    rhs: Seq<Quants>,
    row: int,
    col: int,
)
    requires
        ieee::is_arithmetic(f),
        narrowing::is_narrowing(g),
        k % 128 == 0,
        k <= 0x2000_0000,
        0 <= row,
        0 <= col < n,
        lhs.len() >= row * k + k,
        rhs.len() >= n * (k / 128),
        accuracy::regular_weights(rhs, rhs.len()),
        accuracy::moderate(f, lhs.subrange(row * k, row * k + k), k / 32),
    ensures
        ({
            let xs = weight_row(rhs, k as int, col);
            let ys = activation_row(f, g, lhs, k as int, row);
            let acts = lhs.subrange(row * k, row * k + k);
            let r = element(f, g, k as int, lhs, rhs, row, col);
            let off = ieee::size(
                binary32::value(r) * pow2(24) - accuracy::dense_input(xs, acts, k as int),
            );
            &&& binary32::is_finite(r)
            &&& off * 0x800_0000 <= 16 * ((k / 128 + 8) * (quants::dense(
                accuracy::sizes(xs),
                accuracy::sizes(ys),
                k as int,
            ) * pow2(125))) + 0x480_0000 * accuracy::steps_met(f, xs, acts, k as int)
        }),
{
    let xs = weight_row(rhs, k as int, col);
    let acts = lhs.subrange(row * k, row * k + k);
    lemma_weight_row(k, n, rhs, col);
    let q = k as int / 32;
    assert(32 * (row * q) == row * k && 0 <= row * q) by (nonlinear_arith)
        requires
            k == 32 * q,
            row >= 0,
            q >= 0,
    ;
    assert forall|j: int| 0 <= j < q implies q8_0::group(lhs, row * q + j) == #[trigger] q8_0::group(
        acts,
        j,
    ) by {
        assert(32 * (row * q + j) == row * k + 32 * j);
        assert(q8_0::group(lhs, row * q + j) =~= q8_0::group(acts, j));
    }
    assert(activation_row(f, g, lhs, k as int, row) =~= q8_0::blocks(
        f,
        g,
        acts,
        4 * (k / 128),
    ));
    accuracy::law_dot_near_input(f, g, xs, acts, k / 128);
}

/// An element is the dot product of the weights and activations at its own
/// indices.
pub(crate) proof fn lemma_element(
    f: Rounding,
    g: Narrowing,
    mkn: (usize, usize, usize),
    lhs: Seq<u32>,
    rhs: Seq<Quants>,
    row: int,
    col: int,
    ys: Seq<Quants>,
)
    requires
        mkn.1 as int % 128 == 0,
        mkn.0 * mkn.1 == lhs.len(),
        0 <= row < mkn.0,
        0 <= col < mkn.2,
        ys.len() == mkn.1 as int / 32,
        forall|j: int|
            0 <= j < mkn.1 as int / 32 ==> #[trigger] ys[j] == q8_0::quantized(
                f,
                g,
                lhs.subrange(row * mkn.1 + 32 * j, row * mkn.1 + 32 * j + 32),
            ),
    ensures
        element(f, g, mkn.1 as int, lhs, rhs, row, col) == quants::dot(
            quants::single(f),
            rhs.subrange(col * (mkn.1 as int / 128), (col + 1) * (mkn.1 as int / 128)),
            ys,
            (mkn.1 as int / 128) as nat,
        ),
{
    let k = mkn.1 as int;
    let q = k / 32;
    assert(32 * (row * q) == row * k && 0 <= row * q) by (nonlinear_arith)
        requires
            k == 32 * q,
            row >= 0,
            q >= 0,
    ;
    let acts = activation_row(f, g, lhs, k, row);
    assert forall|j: int| 0 <= j < q implies #[trigger] acts[j] == ys[j] by {
        assert(32 * (row * q + j) == row * k + 32 * j);
        assert(q8_0::group(lhs, row * q + j) =~= lhs.subrange(
            row * mkn.1 + 32 * j,
            row * mkn.1 + 32 * j + 32,
        ));
    }
    assert(acts =~= ys);
}

/// An element is near the sum of the products of the unpacked weights and the
/// activations at its own indices.
pub(crate) proof fn lemma_element_near(
    f: Rounding,
    g: Narrowing,
    mkn: (usize, usize, usize),
    lhs: Seq<u32>,
    rhs: Seq<Quants>,
    row: int,
    col: int,
    xs: Seq<Quants>,
    acts: Seq<u32>,
    tops: Seq<u32>,
    terms: Seq<int>,
    parts: Seq<int>,
    steps: Seq<int>,
)
    requires
        ieee::is_arithmetic(f),
        narrowing::is_narrowing(g),
        mkn.1 as int % 128 == 0,
        mkn.1 <= 0x2000_0000,
        mkn.0 * mkn.1 == lhs.len(),
        0 <= row < mkn.0,
        0 <= col < mkn.2,
        xs == rhs.subrange(col * (mkn.1 as int / 128), (col + 1) * (mkn.1 as int / 128)),
        accuracy::regular_weights(xs, (mkn.1 as int / 128) as nat),
        acts == lhs.subrange(row * mkn.1, row * mkn.1 + mkn.1),
        terms.len() == mkn.1,
        parts.len() == mkn.1,
        steps.len() == mkn.1,
        forall|e: int|
            0 <= e < mkn.1 ==> binary32::magnitude(#[trigger] acts[e]) <= tops[e / 32]
                <= 0x4af4_2400,
        forall|e: int|
            0 <= e < mkn.1 ==> #[trigger] terms[e] == quants::element_value(xs, 128, e)
                * binary32::value(acts[e]),
        forall|e: int| 0 <= e < mkn.1 ==> #[trigger] parts[e] == ieee::size(terms[e]),
        forall|e: int|
            0 <= e < mkn.1 ==> #[trigger] steps[e] == ieee::size(
                quants::element_value(xs, 128, e),
            ) * (if binary32::units(tops[e / 32]) >= 126 * (1024 * pow2(125)) {
                binary32::units(tops[e / 32])
            } else {
                126 * (1024 * pow2(125)) as int
            }),
    ensures
        ({
            let r = element(f, g, mkn.1 as int, lhs, rhs, row, col);
            let b = mkn.1 as int / 128 + 8;
            &&& binary32::is_finite(r)
            &&& ieee::size(binary32::value(r) * pow2(24) - laws::sum(terms)) * 0x3_f000_0000
                <= 2016 * (b * laws::sum(parts)) + 9 * ((0x80_0000 + b) * laws::sum(steps))
        }),
{
    let (m, k) = (mkn.0 as int, mkn.1 as int);
    let kb = (k / 128) as nat;
    assert(0 <= row * k && row * k + k <= m * k) by (nonlinear_arith)
        requires
            0 <= row < m,
            k >= 0,
    ;
    let ys = q8_0::blocks(f, g, acts, 4 * kb);
    assert forall|j: int| 0 <= j < k / 32 implies #[trigger] ys[j] == q8_0::quantized(
        f,
        g,
        lhs.subrange(row * mkn.1 + 32 * j, row * mkn.1 + 32 * j + 32),
    ) by {
        assert(q8_0::group(acts, j) =~= lhs.subrange(
            row * mkn.1 + 32 * j,
            row * mkn.1 + 32 * j + 32,
        ));
    }
    lemma_element(f, g, mkn, lhs, rhs, row, col, ys);
    accuracy::lemma_dot_near_terms(f, g, xs, acts, kb, tops, terms, parts, steps);
}

} // verus!
