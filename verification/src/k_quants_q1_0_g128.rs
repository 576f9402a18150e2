//! 1-bit packed block type `Q1_0_g128` and its dot and matrix kernels.
//!
//! `Q1_0_g128` stores 128 weights per block as single sign bits, one for `+1`
//! and zero for `-1`, and one half-precision scale that multiplies them all: a
//! strictly bipolar quantisation, without zero. Element `e` sits in bit `e % 8`
//! of byte `e / 8`.
use crate::accuracy;
use crate::arith;
use crate::arith::{Narrowing, Op, Rounding};
use crate::binary16;
use crate::binary32;
use crate::dtype::GgmlDType;
use crate::error::MatmulError;
use crate::ieee;
use crate::kernel;
use crate::kernel::{PackedBlock, RowKernel};
use crate::narrowing;
use crate::q8_0;
use crate::q8_0::BlockQ8_0;
use crate::quants;
use crate::quants::Quants;
use rayon::iter::{IndexedParallelIterator, IntoParallelRefMutIterator, ParallelIterator};
use vstd::arithmetic::power2::*;
use vstd::prelude::*;
use vstd::std_specs::cmp::PartialEqSpecImpl;

verus! {

/// Weights per `Q1_0_g128` block.
pub const QK1_0_G128: usize = 128;

/// The pattern of `128.0`.
pub const COUNT: u32 = 0x4300_0000;

/// A 1-bit weight block: one half-precision scale, as its bit pattern, and 128
/// sign bits, eight to a byte.
#[allow(non_camel_case_types)]
#[derive(Debug, Clone, Copy)]
pub struct BlockQ1_0_g128 {
    pub d: u16,
    pub qs: [u8; 16],
}

/// The integer that bit `pos` of `byte` stands for: `1` if it is set, and `-1`
/// otherwise.
pub open spec fn sign(byte: u8, pos: int) -> int {
    if byte as int / pow2(pos as nat) as int % 2 == 1 {
        1
    } else {
        -1
    }
}

/// The integer of element `e` of the packed bytes `qs`.
pub open spec fn weight(qs: Seq<u8>, e: int) -> int {
    sign(qs[e / 8], e % 8)
}

impl PartialEqSpecImpl for BlockQ1_0_g128 {
    open spec fn obeys_eq_spec() -> bool {
        true
    }

    /// Scales are equal as numbers, so that a block whose scale is a NaN equals
    /// none, not even itself.
    open spec fn eq_spec(&self, other: &Self) -> bool {
        binary16::same_number(self.d, other.d) && self.qs@ == other.qs@
    }
}

impl PartialEq for BlockQ1_0_g128 {
    fn eq(&self, other: &Self) -> (r: bool) {
        binary16::equal(self.d, other.d) && quants::same_bytes(&self.qs, &other.qs)
    }
}

impl View for BlockQ1_0_g128 {
    type V = Quants;

    /// A block stands for its scale and the 128 signs.
    open spec fn view(&self) -> Quants {
        Quants { d: self.d, q: Seq::new(128, |e: int| weight(self.qs@, e)) }
    }
}

/// The sum of the magnitudes of the first `n` weights, added up from the left.
pub open spec fn magnitude_sum(f: Rounding, weights: Seq<u32>, n: nat) -> u32
    decreases n,
{
    if n == 0 {
        0
    } else {
        f(
            Op::Add,
            magnitude_sum(f, weights, (n - 1) as nat),
            binary32::magnitude(weights[n - 1]) as u32,
        )
    }
}

/// The scale of 128 weights: their mean magnitude, and one where that is not
/// positive.
pub open spec fn scale_of(f: Rounding, weights: Seq<u32>) -> u32 {
    binary32::positive_or_one_spec(f(Op::Div, magnitude_sum(f, weights, 128), COUNT))
}

/// What 128 weights are quantised to: each keeps only its sign, which is
/// positive for zero and negative for a NaN.
pub open spec fn quantized(f: Rounding, g: Narrowing, weights: Seq<u32>) -> Quants {
    Quants { d: g(scale_of(f, weights)), q: signs(weights) }
}

/// The signs of 128 weights.
pub open spec fn signs(weights: Seq<u32>) -> Seq<int> {
    Seq::new(
        128,
        |e: int|
            if binary32::at_least_zero(weights[e]) {
                1int
            } else {
                -1int
            },
    )
}

/// `r` is the single-precision product of the sign `w` and the half-precision
/// number `h`: the number itself or its negation.
pub open spec fn is_signed_scale(w: int, h: u16, r: u32) -> bool {
    if w == 1 {
        r == binary16::widened(h)
    } else {
        r == binary32::flipped(binary16::widened(h))
    }
}

/// Shifting and masking read a bit.
proof fn lemma_read_bit(byte: u8, pos: u8)
    requires
        pos < 8,
    ensures
        ((byte >> pos) & 1) == 1 <==> sign(byte, pos as int) == 1,
        ((byte >> pos) & 1) == 0 <==> sign(byte, pos as int) == -1,
{
    vstd::bits::lemma_u8_shr_is_div(byte, pos);
    let x = byte >> pos;
    assert(x & 1 == x % 2) by (bit_vector);
}

/// Or-ing in a bit sets that bit and keeps the others.
proof fn lemma_set_bit(byte: u8, pos: u8)
    requires
        pos < 8,
    ensures
        sign(byte | (1u8 << pos), pos as int) == 1,
        forall|p: int|
            0 <= p < 8 && p != pos ==> #[trigger] sign(byte | (1u8 << pos), p) == sign(byte, p),
{
    let r = byte | (1u8 << pos);
    assert((r >> pos) & 1 == 1) by (bit_vector)
        requires
            r == byte | (1u8 << pos),
            pos < 8,
    ;
    lemma_read_bit(r, pos);
    assert forall|p: int| 0 <= p < 8 && p != pos implies #[trigger] sign(r, p) == sign(byte, p) by {
        let q = p as u8;
        assert((r >> q) & 1 == (byte >> q) & 1) by (bit_vector)
            requires
                r == byte | (1u8 << pos),
                pos < 8,
                q < 8,
                q != pos,
        ;
        lemma_read_bit(r, q);
        lemma_read_bit(byte, q);
    }
}

impl PackedBlock for BlockQ1_0_g128 {
    fn scale(&self) -> (r: u16) {
        self.d
    }

    fn group_sum(&self, k: usize, y: &BlockQ8_0) -> (r: i32) {
        let mut sum: i32 = 0;
        for b in 0..4usize
            invariant
                k < 4,
                sum == quants::inner(self@.q, 32 * k, y@.q, 0, (8 * b) as nat),
                -1024 * b <= sum <= 1024 * b,
        {
            let mask: u8 = self.qs[k * 4 + b];
            for p in 0..8usize
                invariant
                    k < 4,
                    b < 4,
                    mask == self.qs@[k * 4 + b],
                    sum == quants::inner(self@.q, 32 * k, y@.q, 0, (8 * b + p) as nat),
                    -1024 * b - 128 * p <= sum <= 1024 * b + 128 * p,
            {
                let q: i32 = y.qs[b * 8 + p] as i32;
                proof {
                    lemma_read_bit(mask, p as u8);
                    let e = 32 * k + (8 * b + p);
                    assert(e / 8 == 4 * k + b && e % 8 == p);
                    assert(self@.q[e] == sign(mask, p as int));
                    quants::lemma_inner_one(self@.q, 32 * k, y@.q, 0, (8 * b + p) as nat);
                    assert(1 * q == q && (-1) * q == -q);
                }
                sum = sum + if (mask >> p) & 1 == 1 {
                    q
                } else {
                    -q
                };
            }
        }
        sum
    }
}

/// Computes the element of column `col` into `o`.
fn fill_element<O: Fn(Op, u32, u32) -> u32>(
    o: &mut u32,
    k: usize,
    rhs_t: &[BlockQ1_0_g128],
    act: &[BlockQ8_0],
    col: usize,
    op: &O,
)
    requires
        arith::callable(op),
        rhs_t@.len() >= (col + 1) * (k / 128),
        act@.len() >= k / 128 * 4,
    ensures
        quants::is_dot(
            op,
            kernel::weight_row(quants::models(rhs_t@), k as int, col as int),
            quants::models(act@),
            k as int / 128,
            *final(o),
        ),
{
    *o = kernel::column(k, rhs_t, act, col, op);
}

/// Hands the columns of one output row out to threads, with `par_iter_mut` on
/// slices, `enumerate` and `for_each` of `rayon`.
///
/// Believed of these: `for_each` calls its closure once for every element of
/// the slice, with the index of the element and exclusive access to it, and
/// returns when all calls are done. So every element ends up as
/// [`fill_element`] leaves it for its own index.
#[verifier::external_body]
fn fill_in_parallel<O: Fn(Op, u32, u32) -> u32 + Sync>(
    out: &mut [u32],
    k: usize,
    rhs_t: &[BlockQ1_0_g128],
    act: &[BlockQ8_0],
    op: &O,
)
    requires
        arith::callable(op),
        rhs_t@.len() >= old(out)@.len() * (k / 128),
        act@.len() >= k / 128 * 4,
    ensures
        final(out)@.len() == old(out)@.len(),
        forall|col: int|
            0 <= col < old(out)@.len() ==> quants::is_dot(
                op,
                kernel::weight_row(quants::models(rhs_t@), k as int, col),
                quants::models(act@),
                k as int / 128,
                #[trigger] final(out)@[col],
            ),
{
    out.par_iter_mut().enumerate().for_each(|(col, o)| fill_element(o, k, rhs_t, act, col, op));
}

impl RowKernel for BlockQ1_0_g128 {
    fn fill_row<O: Fn(Op, u32, u32) -> u32 + Sync>(
        out: &mut [u32],
        k: usize,
        rhs_t: &[Self],
        act: &[BlockQ8_0],
        op: &O,
    ) {
        fill_in_parallel(out, k, rhs_t, act, op);
    }
}

/// Packs the signs of 128 weights.
fn pack(weights: &[u32; 128]) -> (qs: [u8; 16])
    ensures
        forall|t: int| 0 <= t < 128 ==> #[trigger] weight(qs@, t) == signs(weights@)[t],
{
    let mut qs: [u8; 16] = [0u8; 16];
    proof {
        assert forall|p: int| 0 <= p < 8 implies #[trigger] sign(0u8, p) == -1 by {
            lemma_pow2_pos(p as nat);
            vstd::arithmetic::div_mod::lemma_div_basics(pow2(p as nat) as int);
        }
    }
    for e in 0..QK1_0_G128
        invariant
            forall|t: int| 0 <= t < e ==> #[trigger] weight(qs@, t) == signs(weights@)[t],
            forall|t: int| e <= t < 128 ==> #[trigger] weight(qs@, t) == -1,
    {
        let k: usize = e / 32;
        let within: usize = e % 32;
        let b: usize = within / 8;
        let pos: usize = within % 8;
        let ghost before = qs@;
        assert(weight(before, e as int) == -1);
        if binary32::is_at_least_zero(weights[e]) {
            proof {
                lemma_set_bit(qs@[e as int / 8], pos as u8);
            }
            qs[k * 4 + b] = qs[k * 4 + b] | (1u8 << pos);
            assert forall|t: int| 0 <= t < 128 && t != e implies #[trigger] weight(qs@, t)
                == weight(before, t) by {
                if t / 8 == e as int / 8 {
                    assert(t % 8 != e as int % 8);
                }
            }
        }
    }
    qs
}

/// Maps 128 weights, as single-precision patterns, to one `Q1_0_g128` block.
///
/// The scale is the mean magnitude of the weights; each weight keeps only its
/// sign.
pub fn quantize_block_q1_0_g128<O: Fn(Op, u32, u32) -> u32, N: Fn(u32) -> u16>(
    weights: &[u32; 128],
    op: &O,
    narrow: &N,
) -> (r: BlockQ1_0_g128)
    requires
        arith::callable(op),
        arith::narrow_callable(narrow),
    ensures
        r@.q == signs(weights@),
        forall|f: Rounding, g: Narrowing| #[trigger]
            arith::both_compute(f, g, op, narrow) ==> r@ == quantized(f, g, weights@),
{
    let mut sum: u32 = 0;
    for e in 0..QK1_0_G128
        invariant
            arith::callable(op),
            forall|f: Rounding| #[trigger]
                arith::computes(f, op) ==> sum == magnitude_sum(f, weights@, e as nat),
    {
        sum = op(Op::Add, sum, binary32::absolute(weights[e]));
    }
    let amean: u32 = op(Op::Div, sum, COUNT);
    let scale: u32 = binary32::positive_or_one(amean);
    let r = BlockQ1_0_g128 { d: narrow(scale), qs: pack(weights) };
    proof {
        assert(r@.q =~= signs(weights@));
        assert forall|f: Rounding, g: Narrowing| #[trigger]
            arith::both_compute(f, g, op, narrow) implies r@ == quantized(f, g, weights@) by {
            assert(arith::computes(f, op));
        }
    }
    r
}

/// `after` is what unpacking `xs` leaves of the numbers `before`: each whole chunk
/// of 128 that a block is there for holds the products of the integers and the
/// scale, and the rest is as it was.
pub open spec fn is_unpacked(xs: Seq<BlockQ1_0_g128>, before: Seq<u32>, after: Seq<u32>) -> bool {
    &&& after.len() == before.len()
    &&& forall|j: int|
        0 <= j < before.len() && j / 128 < xs.len() && 128 * (j / 128) + 128 <= before.len()
            ==> is_signed_scale(xs[j / 128]@.q[j % 128], xs[j / 128].d, #[trigger] after[j])
    &&& forall|j: int|
        0 <= j < before.len() && (j / 128 >= xs.len() || 128 * (j / 128) + 128 > before.len())
            ==> #[trigger] after[j] == before[j]
}

/// `after` is what quantising the numbers `xs` leaves of the blocks `before`: each
/// block that a whole chunk of 128 is there for is quantised from it, and the rest
/// is as it was.
pub open spec fn is_packed(
    f: Rounding,
    g: Narrowing,
    xs: Seq<u32>,
    before: Seq<BlockQ1_0_g128>,
    after: Seq<BlockQ1_0_g128>,
) -> bool {
    &&& after.len() == before.len()
    &&& forall|i: int|
        0 <= i < before.len() && 128 * i + 128 <= xs.len() ==> (#[trigger] after[i])@ == quantized(
            f,
            g,
            xs.subrange(128 * i, 128 * i + 128),
        )
    &&& forall|i: int|
        0 <= i < before.len() && 128 * i + 128 > xs.len() ==> #[trigger] after[i] == before[i]
}

impl BlockQ1_0_g128 {
    /// The registered type of the block.
    pub const DTYPE: GgmlDType = GgmlDType::Q1_0_g128;

    /// Weights per block.
    pub const BLCK_SIZE: usize = QK1_0_G128;

    /// The block of all zero bytes.
    pub fn zeros() -> (r: Self)
        ensures
            r.d == 0,
            r.qs@ == Seq::new(16, |j: int| 0u8),
    {
        BlockQ1_0_g128 { d: 0, qs: [0u8; 16] }
    }

    /// Unpacks as many blocks of `xs` as fill a whole chunk of 128 elements of
    /// `ys` with single-precision patterns: the scale of its block for a set
    /// bit, and its negation for a clear one.
    pub fn to_float(xs: &[Self], ys: &mut [u32])
        ensures
            final(ys)@.len() == old(ys)@.len(),
            forall|j: int|
                0 <= j < 128 * quants::converted(old(ys)@.len(), 128, xs@.len()) ==> is_signed_scale(
                    xs@[j / 128]@.q[j % 128],
                    xs@[j / 128].d,
                    #[trigger] final(ys)@[j],
                ),
            forall|j: int|
                128 * quants::converted(old(ys)@.len(), 128, xs@.len()) <= j < old(ys)@.len()
                    ==> #[trigger] final(ys)@[j] == old(ys)@[j],
            is_unpacked(xs@, old(ys)@, final(ys)@),
    {
        let whole: usize = ys.len() / QK1_0_G128;
        let count: usize = if whole < xs.len() {
            whole
        } else {
            xs.len()
        };
        for i in 0..count
            invariant
                count == quants::converted(old(ys)@.len(), 128, xs@.len()),
                count * 128 <= ys.len(),
                ys@.len() == old(ys)@.len(),
                forall|j: int|
                    0 <= j < 128 * i ==> is_signed_scale(
                        xs@[j / 128]@.q[j % 128],
                        xs@[j / 128].d,
                        #[trigger] ys@[j],
                    ),
                forall|j: int| 128 * i <= j < ys@.len() ==> #[trigger] ys@[j] == old(ys)@[j],
        {
            let d: u32 = binary16::widen(xs[i].d);
            for e in 0..QK1_0_G128
                invariant
                    i < count <= xs@.len(),
                    count * 128 <= ys.len(),
                    ys@.len() == old(ys)@.len(),
                    d == binary16::widened(xs@[i as int].d),
                    forall|j: int|
                        0 <= j < 128 * i + e ==> is_signed_scale(
                            xs@[j / 128]@.q[j % 128],
                            xs@[j / 128].d,
                            #[trigger] ys@[j],
                        ),
                    forall|j: int|
                        128 * i + e <= j < ys@.len() ==> #[trigger] ys@[j] == old(ys)@[j],
            {
                let k: usize = e / 32;
                let within: usize = e % 32;
                let b: usize = within / 8;
                let pos: usize = within % 8;
                let byte: u8 = xs[i].qs[k * 4 + b];
                let out: u32 = if (byte >> pos) & 1 == 1 {
                    d
                } else {
                    binary32::negated(d)
                };
                proof {
                    lemma_read_bit(byte, pos as u8);
                    assert(xs@[i as int]@.q[e as int] == sign(byte, pos as int));
                    assert((128 * i + e) / 128 == i && (128 * i + e) % 128 == e);
                }
                ys[QK1_0_G128 * i + e] = out;
            }
        }
    }

    /// Quantises as many whole chunks of 128 elements of `xs`, which holds
    /// single-precision patterns, as `ys` has room for.
    pub fn from_float<O: Fn(Op, u32, u32) -> u32, N: Fn(u32) -> u16>(
        xs: &[u32],
        ys: &mut [Self],
        op: &O,
        narrow: &N,
    )
        requires
            arith::callable(op),
            arith::narrow_callable(narrow),
        ensures
            final(ys)@.len() == old(ys)@.len(),
            forall|f: Rounding, g: Narrowing, i: int|
                #![trigger arith::both_compute(f, g, op, narrow), final(ys)@[i]]
                arith::both_compute(f, g, op, narrow) && 0 <= i < quants::converted(
                    xs@.len(),
                    128,
                    old(ys)@.len(),
                ) ==> final(ys)@[i]@ == quantized(f, g, xs@.subrange(128 * i, 128 * i + 128)),
            forall|i: int|
                quants::converted(xs@.len(), 128, old(ys)@.len()) <= i < old(ys)@.len()
                    ==> #[trigger] final(ys)@[i] == old(ys)@[i],
            forall|f: Rounding, g: Narrowing| #[trigger]
                arith::both_compute(f, g, op, narrow) ==> is_packed(
                    f,
                    g,
                    xs@,
                    old(ys)@,
                    final(ys)@,
                ),
    {
        let whole: usize = xs.len() / QK1_0_G128;
        let count: usize = if whole < ys.len() {
            whole
        } else {
            ys.len()
        };
        for i in 0..count
            invariant
                arith::callable(op),
                arith::narrow_callable(narrow),
                count == quants::converted(xs@.len(), 128, old(ys)@.len()),
                count * 128 <= xs.len(),
                count <= ys@.len(),
                ys@.len() == old(ys)@.len(),
                forall|f: Rounding, g: Narrowing, t: int|
                    #![trigger arith::both_compute(f, g, op, narrow), ys@[t]]
                    arith::both_compute(f, g, op, narrow) && 0 <= t < i ==> ys@[t]@ == quantized(
                        f,
                        g,
                        xs@.subrange(128 * t, 128 * t + 128),
                    ),
                forall|t: int| i <= t < ys@.len() ==> #[trigger] ys@[t] == old(ys)@[t],
        {
            let arr: [u32; 128] = quants::chunk(xs, i);
            ys[i] = quantize_block_q1_0_g128(&arr, op, narrow);
        }
    }

    /// The dot product of weights with activations; see [`vec_dot_q1_0_g128_q8_0`].
    pub fn vec_dot<O: Fn(Op, u32, u32) -> u32>(
        n: usize,
        xs: &[Self],
        ys: &[BlockQ8_0],
        op: &O,
    ) -> (r: u32)
        requires
            arith::callable(op),
            n % 128 == 0,
            xs@.len() >= n / 128,
            ys@.len() >= n / 32,
        ensures
            quants::is_dot(op, quants::models(xs@), quants::models(ys@), n as int / 128, r),
    {
        Self::vec_dot_unopt(n, xs, ys, op)
    }

    /// The dot product of weights with activations; see [`vec_dot_q1_0_g128_q8_0`].
    pub fn vec_dot_unopt<O: Fn(Op, u32, u32) -> u32>(
        n: usize,
        xs: &[Self],
        ys: &[BlockQ8_0],
        op: &O,
    ) -> (r: u32)
        requires
            arith::callable(op),
            n % 128 == 0,
            xs@.len() >= n / 128,
            ys@.len() >= n / 32,
        ensures
            quants::is_dot(op, quants::models(xs@), quants::models(ys@), n as int / 128, r),
    {
        vec_dot_q1_0_g128_q8_0(n, xs, ys, op)
    }

    /// The matrix product; see [`matmul_q1_0_g128`].
    pub fn matmul_t<O: Fn(Op, u32, u32) -> u32 + Sync, N: Fn(u32) -> u16>(
        mkn: (usize, usize, usize),
        lhs: &[u32],
        rhs_t: &[Self],
        dst: &mut [u32],
        op: &O,
        narrow: &N,
    ) -> (r: Result<(), MatmulError>)
        requires
            arith::callable(op),
            arith::narrow_callable(narrow),
            kernel::accepts(GgmlDType::Q1_0_g128, mkn, lhs.len(), rhs_t@.len(), old(dst)@.len()),
        ensures
            kernel::is_product(
                op,
                narrow,
                GgmlDType::Q1_0_g128,
                mkn,
                lhs,
                quants::models(rhs_t@),
                old(dst)@,
                final(dst)@,
                r,
            ),
            r is Ok <==> mkn.1 as int % 128 == 0 && mkn.0 * mkn.1 == lhs@.len(),
            r is Err ==> final(dst)@ == old(dst)@,
    {
        matmul_q1_0_g128(mkn, lhs, rhs_t, dst, op, narrow)
    }
}

/// Dot product of a row of `Q1_0_g128` weights with `Q8_0` activations: each set
/// bit adds and each clear bit subtracts the paired activation.
///
/// `n` is the shared dimension, a multiple of [`QK1_0_G128`]. Each weight block
/// pairs with four activation blocks and gives one share of the product.
pub fn vec_dot_q1_0_g128_q8_0<O: Fn(Op, u32, u32) -> u32>(
    n: usize,
    xs: &[BlockQ1_0_g128],
    ys: &[BlockQ8_0],
    op: &O,
) -> (r: u32)
    requires
        arith::callable(op),
        n % 128 == 0,
        xs@.len() >= n / 128,
        ys@.len() >= n / 32,
    ensures
        quants::is_dot(op, quants::models(xs@), quants::models(ys@), n as int / 128, r),
{
    kernel::dot(n, xs, ys, op)
}

/// Quantised matrix product for `Q1_0_g128` weights: `dst[m, n] = lhs[m, k] * rhs`.
///
/// `rhs_t` holds `n` rows of `k / 128` weight blocks, one row for each column of
/// the product. `lhs` and `dst` hold single-precision patterns. The activations
/// of `lhs` are quantised to `Q8_0` blocks, `k / 32` to a row, and each element
/// of `dst` is a [`vec_dot_q1_0_g128_q8_0`]. Elements of `dst` beyond the product
/// keep their values.
pub fn matmul_q1_0_g128<O: Fn(Op, u32, u32) -> u32 + Sync, N: Fn(u32) -> u16>(
    mkn: (usize, usize, usize),
    lhs: &[u32],
    rhs_t: &[BlockQ1_0_g128],
    dst: &mut [u32],
    op: &O,
    narrow: &N,
) -> (r: Result<(), MatmulError>)
    requires
        arith::callable(op),
        arith::narrow_callable(narrow),
        kernel::accepts(GgmlDType::Q1_0_g128, mkn, lhs.len(), rhs_t@.len(), old(dst)@.len()),
    ensures
        kernel::is_product(
            op,
            narrow,
            GgmlDType::Q1_0_g128,
            mkn,
            lhs,
            quants::models(rhs_t@),
            old(dst)@,
            final(dst)@,
            r,
        ),
        r is Ok <==> mkn.1 as int % 128 == 0 && mkn.0 * mkn.1 == lhs@.len(),
        r is Err ==> final(dst)@ == old(dst)@,
{
    kernel::matmul(GgmlDType::Q1_0_g128, mkn, lhs, rhs_t, dst, op, narrow)
}

/// A byte is determined by its eight signs.
proof fn lemma_signs_determine(a: u8, b: u8)
    requires
        forall|p: int| 0 <= p < 8 ==> #[trigger] sign(a, p) == sign(b, p),
    ensures
        a == b,
{
    assert forall|p: u8| p < 8 implies #[trigger] ((a >> p) & 1) == (b >> p) & 1 by {
        lemma_read_bit(a, p);
        lemma_read_bit(b, p);
        assert(sign(a, p as int) == sign(b, p as int));
        let (x, y) = (a >> p, b >> p);
        assert(x & 1 == 0 || x & 1 == 1) by (bit_vector);
        assert(y & 1 == 0 || y & 1 == 1) by (bit_vector);
    }
    assert((a >> 0) & 1 == (b >> 0) & 1 && (a >> 1) & 1 == (b >> 1) & 1);
    assert((a >> 2) & 1 == (b >> 2) & 1 && (a >> 3) & 1 == (b >> 3) & 1);
    assert((a >> 4) & 1 == (b >> 4) & 1 && (a >> 5) & 1 == (b >> 5) & 1);
    assert((a >> 6) & 1 == (b >> 6) & 1 && (a >> 7) & 1 == (b >> 7) & 1);
    assert(a == b) by (bit_vector)
        requires
            (a >> 0) & 1 == (b >> 0) & 1,
            (a >> 1) & 1 == (b >> 1) & 1,
            (a >> 2) & 1 == (b >> 2) & 1,
            (a >> 3) & 1 == (b >> 3) & 1,
            (a >> 4) & 1 == (b >> 4) & 1,
            (a >> 5) & 1 == (b >> 5) & 1,
            (a >> 6) & 1 == (b >> 6) & 1,
            (a >> 7) & 1 == (b >> 7) & 1,
    ;
}

/// Packing loses nothing: two blocks that stand for the same scale and the same
/// signs hold the same bytes.
pub proof fn law_packing_injective(a: BlockQ1_0_g128, b: BlockQ1_0_g128)
    requires
        a@ == b@,
    ensures
        a.d == b.d,
        a.qs@ == b.qs@,
{
    assert forall|i: int| 0 <= i < 16 implies a.qs@[i] == b.qs@[i] by {
        assert forall|p: int| 0 <= p < 8 implies #[trigger] sign(a.qs@[i], p) == sign(
            b.qs@[i],
            p,
        ) by {
            let e = 8 * i + p;
            assert(e / 8 == i && e % 8 == p);
            assert(a@.q[e] == weight(a.qs@, e));
            assert(b@.q[e] == weight(b.qs@, e));
        }
        lemma_signs_determine(a.qs@[i], b.qs@[i]);
    }
    assert(a.qs@ =~= b.qs@);
}

/// A block is strictly bipolar: every weight is `-1` or `1`, never zero.
pub proof fn law_bipolar(block: BlockQ1_0_g128, e: int)
    requires
        0 <= e < 128,
    ensures
        block@.q[e] == 1 || block@.q[e] == -1,
{
}

/// Whether each of `weights` is `-s` or `s`.
pub open spec fn is_bipolar(weights: Seq<u32>, s: u32) -> bool {
    forall|t: int|
        0 <= t < weights.len() ==> #[trigger] weights[t] == s || weights[t] == binary32::flipped(s)
}

/// A small multiple of a number that half precision holds is a single-precision
/// number.
proof fn lemma_multiple_representable(s: u16, n: int) -> (y: u32)
    requires
        0 < s < 0x7c00,
        0 < n <= 128,
    ensures
        y < binary32::INFINITY,
        binary32::units(y) == n * binary32::units(binary16::widened(s)),
{
    let e = binary16::exponent(s);
    let (m, k) = if e == 0 {
        (binary16::mantissa(s), 0nat)
    } else {
        (0x400 + binary16::mantissa(s), (e - 1) as nat)
    };
    lemma2_to64();
    binary16::law_widened(s);
    lemma_pow2_adds(k, 125);
    let (p, q, v) = (pow2(k) as int, pow2(125) as int, pow2(k + 125) as int);
    assert(binary16::units(s) == m * p) by {
        if e == 0 {
            vstd::arithmetic::mul::lemma_mul_basics(m);
        }
    }
    assert(0 < n * m < 0x100_0000) by (nonlinear_arith)
        requires
            0 < n <= 128,
            0 < m < 0x800,
    ;
    assert(n * ((m * p) * q) == (n * m) * (p * q)) by (nonlinear_arith);
    lemma_pow2_strictly_increases(23, k + 125);
    assert((n * m) * v >= v) by (nonlinear_arith)
        requires
            n * m >= 1,
            v > 0,
    ;
    ieee::lemma_representable(n * m, k + 125)
}

/// Adding up `n` equal magnitudes that half precision holds does not round.
proof fn lemma_equal_sum(f: Rounding, weights: Seq<u32>, s: u16, n: nat)
    requires
        ieee::is_arithmetic(f),
        0 < s < 0x7c00,
        weights.len() == 128,
        is_bipolar(weights, binary16::widened(s)),
        n <= 128,
    ensures
        magnitude_sum(f, weights, n) < binary32::INFINITY,
        binary32::units(magnitude_sum(f, weights, n)) == n * binary32::units(
            binary16::widened(s),
        ),
    decreases n,
{
    let wide = binary16::widened(s);
    let u = binary32::units(wide);
    binary16::law_widened(s);
    binary16::lemma_widened_positive(s, wide);
    if n == 0 {
        binary32::lemma_sign_split(0);
        assert(0 * u == 0) by (nonlinear_arith);
    } else {
        lemma_equal_sum(f, weights, s, (n - 1) as nat);
        let a = magnitude_sum(f, weights, (n - 1) as nat);
        let w = weights[n - 1];
        binary32::lemma_flipped(wide);
        binary32::lemma_sign_split(wide);
        assert(binary32::magnitude(w) == wide);
        let r = f(Op::Add, a, wide);
        let y = lemma_multiple_representable(s, n as int);
        assert((n - 1) * u + u == n * u) by (nonlinear_arith);
        ieee::lemma_exact(r, n * u, 1, y);
        binary32::lemma_sign_split(r);
        binary32::lemma_sign_split(y);
        assert(r == y);
    }
}

/// The pattern that means are computed with stands for the integer 128.
pub proof fn law_count()
    ensures
        binary32::is_integer(128, COUNT),
{
    binary32::lemma_sign_split(COUNT);
    lemma2_to64();
    lemma_pow2_adds(23, 133);
    lemma_pow2_adds(7, 149);
}

/// The scale of bipolar weights `-s` and `s` is `s`, where half precision holds
/// `s`: their mean magnitude is computed without rounding.
pub proof fn law_bipolar_scale(f: Rounding, weights: Seq<u32>, s: u16)
    requires
        ieee::is_arithmetic(f),
        0 < s < 0x7c00,
        weights.len() == 128,
        is_bipolar(weights, binary16::widened(s)),
    ensures
        scale_of(f, weights) == binary16::widened(s),
{
    let wide = binary16::widened(s);
    let u = binary32::units(wide);
    binary16::law_widened(s);
    binary16::lemma_widened_positive(s, wide);
    lemma_equal_sum(f, weights, s, 128);
    let sum = magnitude_sum(f, weights, 128);
    law_count();
    binary32::lemma_sign_split(COUNT);
    binary32::lemma_sign_split(sum);
    binary32::lemma_sign_split(wide);
    let p = pow2(149) as int;
    lemma_pow2_pos(149);
    assert(binary32::units(COUNT) == 128 * p);
    assert(u * (128 * p) == (128 * u) * p) by (nonlinear_arith);
    let r = f(Op::Div, sum, COUNT);
    ieee::lemma_exact(r, binary32::units(sum) * p, 128 * p, wide);
    binary32::lemma_sign_split(r);
    assert(r == wide);
}

/// Bipolar weights survive quantising and unpacking: where every weight is `s`
/// or `-s`, with `s` positive and held by half precision, the patterns unpacked
/// from the block are those of the weights.
pub proof fn law_bipolar_lossless(
    f: Rounding,
    g: Narrowing,
    weights: Seq<u32>,
    s: u16,
    e: int,
    r: u32,
)
    requires
        ieee::is_arithmetic(f),
        narrowing::is_narrowing(g),
        0 < s < 0x7c00,
        weights.len() == 128,
        is_bipolar(weights, binary16::widened(s)),
        0 <= e < 128,
        is_signed_scale(quantized(f, g, weights).q[e], quantized(f, g, weights).d, r),
    ensures
        r == weights[e],
{
    let wide = binary16::widened(s);
    law_bipolar_scale(f, weights, s);
    narrowing::lemma_held(g, s);
    binary16::law_widened(s);
    binary16::lemma_widened_positive(s, wide);
    binary32::lemma_flipped(wide);
    assert(weights[e] == wide || weights[e] == binary32::flipped(wide));
}

/// Adding up `n` equal magnitudes is off by at most `n * n * 2^-24` of one.
proof fn lemma_near_sum(f: Rounding, weights: Seq<u32>, s: u32, n: nat)
    requires
        ieee::is_arithmetic(f),
        0 < s < narrowing::LIMIT,
        weights.len() == 128,
        is_bipolar(weights, s),
        n <= 128,
    ensures
        magnitude_sum(f, weights, n) < binary32::INFINITY,
        ieee::size(binary32::units(magnitude_sum(f, weights, n)) - n * binary32::units(s))
            * 0x100_0000 <= n * n * binary32::units(s),
    decreases n,
{
    let u = binary32::units(s);
    binary32::lemma_sign_split(s);
    if n == 0 {
        binary32::lemma_sign_split(0);
        assert(0 * u == 0 && 0 * 0 * u == 0) by (nonlinear_arith);
    } else {
        let m = (n - 1) as nat;
        lemma_near_sum(f, weights, s, m);
        let a = magnitude_sum(f, weights, m);
        binary32::lemma_flipped(s);
        assert(weights[n - 1] == s || weights[n - 1] == binary32::flipped(s));
        assert(binary32::magnitude(weights[n - 1]) == s);
        let r = f(Op::Add, a, s);
        let x = binary32::units(a);
        binary32::lemma_sign_split(a);
        binary32::lemma_sign_split(r);
        binary32::lemma_units_nonnegative(a);
        ieee::lemma_units_positive(s);
        narrowing::lemma_units_bound(s);
        lemma_pow2_adds(166, 8);
        lemma_pow2_strictly_increases(174, 276);
        lemma2_to64();
        assert(0 <= m * u <= 127 * u && 0 <= m * m * u <= 16129 * u) by (nonlinear_arith)
            requires
                0 <= m <= 127,
                u >= 0,
        ;
        assert(ieee::is_sum(a, s, r));
        ieee::lemma_error(r, x + u, 1);
        assert(n * u == m * u + u && n * n * u == m * m * u + 2 * (m * u) + u) by (nonlinear_arith)
            requires
                n == m + 1,
        ;
        assert(m * m * u <= 127 * (m * u)) by (nonlinear_arith)
            requires
                0 <= m <= 127,
                u >= 0,
        ;
        let (y, b, c) = (binary32::units(r), m * u, m * m * u);
        assert(ieee::distance(r, x + u, 1) == ieee::size(y - (x + u)));
        assert(ieee::size(y - (b + u)) * 0x100_0000 <= c + 2 * b + u) by {
            assert(ieee::size(x - b) * 0x100_0000 <= c);
            assert(ieee::size(y - (x + u)) * 0x100_0000 <= x + u);
            assert(c <= 127 * b);
            assert(x <= b + ieee::size(x - b));
        }
        assert(magnitude_sum(f, weights, n) == r);
    }
}

/// The scale of bipolar weights `-s` and `s` is near `s`.
proof fn lemma_near_scale(f: Rounding, weights: Seq<u32>, s: u32)
    requires
        ieee::is_arithmetic(f),
        binary16::widened(0x400) <= s < narrowing::LIMIT,
        weights.len() == 128,
        is_bipolar(weights, s),
    ensures
        0 < scale_of(f, weights) < binary32::INFINITY,
        ieee::size(binary32::units(scale_of(f, weights)) - binary32::units(s)) * 0x100_0000 <= 131
            * binary32::units(s),
{
    let (u, p) = (binary32::units(s), pow2(149) as int);
    let sum = magnitude_sum(f, weights, 128);
    let r = f(Op::Div, sum, COUNT);
    let (x, y) = (binary32::units(sum), binary32::units(r));
    narrowing::lemma_smallest_normal();
    lemma_pow2_strictly_increases(23, 125);
    lemma2_to64();
    binary32::lemma_sign_split(s);
    binary32::lemma_sign_split(sum);
    binary32::lemma_sign_split(r);
    binary32::lemma_sign_split(COUNT);
    binary32::lemma_sign_split(binary16::widened(0x400));
    binary16::law_widened(0x400);
    binary16::lemma_widened_positive(0x400, binary16::widened(0x400));
    binary32::law_magnitude_order(binary16::widened(0x400), s);
    lemma_near_sum(f, weights, s, 128);
    narrowing::lemma_units_bound(s);
    law_count();
    lemma_pow2_pos(149);
    assert(binary32::units(COUNT) == 128 * p);
    assert(ieee::is_quotient(sum, COUNT, r));
    ieee::lemma_scaled(r, x, 128, p);
    binary32::lemma_units_nonnegative(sum);
    binary32::lemma_units_nonnegative(r);
    lemma_pow2_strictly_increases(166, 276);
    assert(128 * 128 * u == 16384 * u) by (nonlinear_arith);
    assert(x <= 129 * u);
    lemma_pow2_unfold(276);
    lemma_pow2_strictly_increases(166, 275);
    ieee::lemma_error(r, x, 128);
    assert(ieee::distance(r, x, 128) == ieee::size(y * 128 - x));
    assert(ieee::size(y - u) * 0x100_0000 <= 131 * u);
    if r == 0 {
        assert(y == 0);
    }
}

/// Bipolar weights survive quantising and unpacking to half precision: where every
/// weight is `s` or `-s`, with `s` in the normal range of half precision, the
/// number unpacked from the block is off by at most `33 * 2^-16` of `s`, which is
/// `2^-11` for the scale and a little for the mean.
pub proof fn law_bipolar_near(
    f: Rounding,
    g: Narrowing,
    weights: Seq<u32>,
    s: u32,
    e: int,
    r: u32,
)
    requires
        ieee::is_arithmetic(f),
        narrowing::is_narrowing(g),
        binary16::widened(0x400) <= s <= binary16::widened(0x7bff),
        weights.len() == 128,
        is_bipolar(weights, s),
        0 <= e < 128,
        is_signed_scale(quantized(f, g, weights).q[e], quantized(f, g, weights).d, r),
    ensures
        binary32::is_finite(r),
        binary32::negative(r) == binary32::negative(weights[e]),
        ieee::size(binary32::value(r) - binary32::value(weights[e])) * 0x1_0000 <= 33
            * binary32::units(s),
{
    let scale = scale_of(f, weights);
    let d = quantized(f, g, weights).d;
    let wide = binary16::widened(d);
    let (u, m) = (binary32::units(s), binary32::units(scale));
    narrowing::lemma_largest();
    narrowing::lemma_smallest_normal();
    binary32::lemma_sign_split(s);
    binary32::lemma_sign_split(scale);
    binary32::lemma_sign_split(binary16::widened(0x400));
    binary32::lemma_sign_split(binary16::widened(0x7bff));
    binary32::law_magnitude_order(binary16::widened(0x400), s);
    binary16::law_widened(0x400);
    binary16::lemma_widened_positive(0x400, binary16::widened(0x400));
    lemma_near_scale(f, weights, s);
    binary32::law_magnitude_order(s, binary16::widened(0x7bff));
    binary32::law_magnitude_order(scale, narrowing::LIMIT);
    assert(scale < narrowing::LIMIT);
    assert(narrowing::is_narrowed(scale, d));
    narrowing::law_narrowed_near(scale, d);
    binary16::law_widened(d);
    binary32::lemma_sign_split(wide);
    binary32::lemma_flipped(wide);
    binary32::lemma_flipped(s);
    assert(weights[e] == s || weights[e] == binary32::flipped(s));
    assert(narrowing::distance(d, scale) == ieee::size(binary32::units(wide) - m));
}

/// Unpacking and quantising again gives the signs of the block back, where its
/// scale is positive.
pub proof fn law_requantized(block: BlockQ1_0_g128, unpacked: Seq<u32>)
    requires
        0 < block.d <= 0x7c00,
        unpacked.len() == 128,
        forall|e: int|
            0 <= e < 128 ==> is_signed_scale(block@.q[e], block.d, #[trigger] unpacked[e]),
    ensures
        signs(unpacked) == block@.q,
{
    let d = binary16::widened(block.d);
    binary16::law_widened(block.d);
    binary16::lemma_widened_positive(block.d, d);
    binary32::lemma_flipped(d);
    assert forall|e: int| 0 <= e < 128 implies signs(unpacked)[e] == block@.q[e] by {
        assert(unpacked[e] == d || unpacked[e] == binary32::flipped(d));
    }
    assert(signs(unpacked) =~= block@.q);
}

/// Unpacking and quantising again gives the whole block back, where its scale is
/// positive and finite.
pub proof fn law_requantized_block(
    f: Rounding,
    g: Narrowing,
    block: BlockQ1_0_g128,
    unpacked: Seq<u32>,
    again: BlockQ1_0_g128,
)
    requires
        ieee::is_arithmetic(f),
        narrowing::is_narrowing(g),
        0 < block.d < 0x7c00,
        unpacked.len() == 128,
        forall|e: int|
            0 <= e < 128 ==> is_signed_scale(block@.q[e], block.d, #[trigger] unpacked[e]),
        again@ == quantized(f, g, unpacked),
    ensures
        again.d == block.d,
        again.qs@ == block.qs@,
{
    law_requantized(block, unpacked);
    assert(is_bipolar(unpacked, binary16::widened(block.d)));
    law_bipolar_scale(f, unpacked, block.d);
    narrowing::lemma_held(g, block.d);
    law_packing_injective(again, block);
}

/// Blocks of the format are such as the laws of rounding ask for.
proof fn lemma_regular(xs: Seq<BlockQ1_0_g128>, ys: Seq<BlockQ8_0>, nb: nat)
    requires
        xs.len() >= nb,
        ys.len() >= 4 * nb,
        quants::finite_scales(quants::models(xs), quants::models(ys), nb),
    ensures
        accuracy::is_regular(quants::models(xs), quants::models(ys), nb),
{
}

/// A dot product over one more block is the dot product so far plus that of the
/// block alone, in one addition; over no blocks it is zero. The scales are
/// finite.
pub proof fn law_dot_appended(
    f: Rounding,
    xs: Seq<BlockQ1_0_g128>,
    ys: Seq<BlockQ8_0>,
    a: nat,
)
    requires
        ieee::is_arithmetic(f),
        xs.len() >= a + 1,
        ys.len() >= 4 * (a + 1),
        quants::finite_scales(quants::models(xs), quants::models(ys), a + 1),
    ensures
        quants::dot(quants::single(f), quants::models(xs), quants::models(ys), a + 1) == f(
            Op::Add,
            quants::dot(quants::single(f), quants::models(xs), quants::models(ys), a),
            quants::dot(
                quants::single(f),
                quants::models(xs.skip(a as int)),
                quants::models(ys.skip(4 * a as int)),
                1,
            ),
        ),
        quants::dot(quants::single(f), quants::models(xs), quants::models(ys), 0) == 0,
{
    lemma_regular(xs, ys, a + 1);
    accuracy::law_dot_appended(f, quants::models(xs), quants::models(ys), a);
    assert(quants::models(xs.skip(a as int)) =~= quants::models(xs).skip(a as int));
    assert(quants::models(ys.skip(4 * a as int)) =~= quants::models(ys).skip(4 * a as int));
}

/// The packed dot product is the dense one up to rounding: it is off by at most
/// `(nb + 8) * 2^-23` of the dense dot product of the magnitudes. The dense
/// products are in units of `2^-48`, the packed one in units of `2^-149`.
pub proof fn law_dot_near_dense(
    f: Rounding,
    xs: Seq<BlockQ1_0_g128>,
    ys: Seq<BlockQ8_0>,
    nb: nat,
)
    requires
        ieee::is_arithmetic(f),
        xs.len() >= nb,
        ys.len() >= 4 * nb,
        quants::finite_scales(quants::models(xs), quants::models(ys), nb),
        nb <= 0x40_0000,
    ensures
        ({
            let (ws, zs) = (quants::models(xs), quants::models(ys));
            let r = quants::dot(quants::single(f), ws, zs, nb);
            let (dense, sizes) = (
                quants::dense(ws, zs, 128 * nb as int),
                quants::dense(accuracy::sizes(ws), accuracy::sizes(zs), 128 * nb as int),
            );
            &&& binary32::is_finite(r)
            &&& ieee::size(binary32::value(r) - dense * pow2(101)) * 0x80_0000 <= (nb + 8) * (sizes
                * pow2(101))
        }),
{
    lemma_regular(xs, ys, nb);
    accuracy::law_dot_near_dense(f, quants::models(xs), quants::models(ys), nb);
}

/// An inverted byte has the opposite signs.
proof fn lemma_inverted(byte: u8, pos: int)
    requires
        0 <= pos < 8,
    ensures
        sign(!byte, pos) == -sign(byte, pos),
{
    let p = pos as u8;
    lemma_read_bit(byte, p);
    lemma_read_bit(!byte, p);
    assert((!byte >> p) & 1 == 1 - ((byte >> p) & 1)) by (bit_vector)
        requires
            p < 8,
    ;
}

/// Flipping every sign bit negates the dot product, exactly. The scales are
/// finite.
pub proof fn law_flipped_signs(
    f: Rounding,
    xs: Seq<BlockQ1_0_g128>,
    mirror: Seq<BlockQ1_0_g128>,
    ys: Seq<BlockQ8_0>,
    nb: nat,
)
    requires
        ieee::is_arithmetic(f),
        xs.len() >= nb,
        mirror.len() >= nb,
        ys.len() >= 4 * nb,
        quants::finite_scales(quants::models(xs), quants::models(ys), nb),
        forall|i: int| 0 <= i < nb ==> (#[trigger] mirror[i]).d == xs[i].d,
        forall|i: int, t: int|
            0 <= i < nb && 0 <= t < 16 ==> #[trigger] mirror[i].qs@[t] == !xs[i].qs@[t],
    ensures
        ({
            let (ws, zs, ms) = (quants::models(xs), quants::models(ys), quants::models(mirror));
            let r = quants::dot(quants::single(f), ws, zs, nb);
            let m = quants::dot(quants::single(f), ms, zs, nb);
            &&& m == accuracy::negation(r)
            &&& binary32::is_finite(r) && binary32::is_finite(m)
            &&& binary32::value(m) == -binary32::value(r)
        }),
{
    let (ws, zs, ms) = (quants::models(xs), quants::models(ys), quants::models(mirror));
    assert(quants::finite_scales(ms, zs, nb)) by {
        assert forall|i: int| 0 <= i < nb implies binary16::is_finite((#[trigger] ms[i]).d) by {
            assert(mirror[i].d == ws[i].d);
        }
    }
    lemma_regular(xs, ys, nb);
    lemma_regular(mirror, ys, nb);
    assert forall|i: int, k: int| 0 <= i < nb && 0 <= k < 4 implies #[trigger] accuracy::group(
        ms,
        zs,
        i,
        k,
    ) == -accuracy::group(ws, zs, i, k) by {
        let z = zs[4 * i + k].q;
        let (q, m) = (ws[i].q, ms[i].q);
        assert forall|t: int| 0 <= t < 32 implies #[trigger] m[32 * k + t] == -q[32 * k + t] by {
            let e = 32 * k + t;
            lemma_inverted(xs[i].qs@[e / 8], e % 8);
            assert(mirror[i].qs@[e / 8] == !xs[i].qs@[e / 8]);
        }
        accuracy::lemma_inner_negated(q, 32 * k, z, m, z, 32);
    }
    accuracy::law_dot_mirrored(f, ws, zs, ms, zs, nb);
    accuracy::law_dot_finite(f, ws, zs, nb);
    accuracy::law_dot_finite(f, ms, zs, nb);
    accuracy::lemma_negation(
        quants::dot(quants::single(f), ws, zs, nb),
        quants::dot(quants::single(f), ms, zs, nb),
    );
}

/// The dot product of packed weights with the blocks of quantised activations is
/// near the dense one of the unpacked weights with the activations themselves: it
/// is off by at most `(nb + 8) * 2^-23` of the dense dot product of the
/// magnitudes, for the rounding, and 9/16 of the steps that the weights meet, for
/// the quantising. All is in units of `2^-173`.
pub proof fn law_dot_near_input(
    f: Rounding,
    g: Narrowing,
    xs: Seq<BlockQ1_0_g128>,
    ys: Seq<BlockQ8_0>,
    acts: Seq<u32>,
    nb: nat,
)
    requires
        ieee::is_arithmetic(f),
        narrowing::is_narrowing(g),
        xs.len() >= nb,
        forall|i: int| 0 <= i < nb ==> binary16::is_finite((#[trigger] xs[i]).d),
        ys.len() == 4 * nb,
        forall|j: int|
            0 <= j < 4 * nb ==> (#[trigger] ys[j])@ == q8_0::quantized(
                f,
                g,
                q8_0::group(acts, j),
            ),
        accuracy::moderate(f, acts, 4 * nb),
        nb <= 0x40_0000,
    ensures
        ({
            let (ws, zs) = (quants::models(xs), quants::models(ys));
            let r = quants::dot(quants::single(f), ws, zs, nb);
            let n = 128 * nb as int;
            let off = ieee::size(
                binary32::value(r) * pow2(24) - accuracy::dense_input(ws, acts, n),
            );
            &&& binary32::is_finite(r)
            &&& off * 0x800_0000 <= 16 * ((nb + 8) * (quants::dense(
                accuracy::sizes(ws),
                accuracy::sizes(zs),
                n,
            ) * pow2(125))) + 0x480_0000 * accuracy::steps_met(f, ws, acts, n)
        }),
{
    let ws = quants::models(xs);
    assert(quants::models(ys) =~= q8_0::blocks(f, g, acts, 4 * nb));
    assert(accuracy::regular_weights(ws, nb));
    accuracy::law_dot_near_input(f, g, ws, acts, nb);
}

/// What the first `128 * nb` of the weights `ws` are quantised to.
pub open spec fn blocks(f: Rounding, g: Narrowing, ws: Seq<u32>, nb: nat) -> Seq<Quants> {
    Seq::new(nb, |i: int| quantized(f, g, quants::weights_of(ws, i)))
}

/// What bipolar weights are quantised to stands for them up to `33 * 2^-16` of the
/// scale.
proof fn lemma_bipolar_near(f: Rounding, g: Narrowing, weights: Seq<u32>, s: u32, e: int)
    requires
        ieee::is_arithmetic(f),
        narrowing::is_narrowing(g),
        binary16::widened(0x400) <= s <= binary16::widened(0x7bff),
        weights.len() == 128,
        is_bipolar(weights, s),
        0 <= e < 128,
    ensures
        binary16::is_finite(quantized(f, g, weights).d),
        ({
            let b = quantized(f, g, weights);
            ieee::size(
                binary16::value(b.d) * b.q[e] * pow2(125) - binary32::value(weights[e]),
            ) * 0x1_0000 <= 33 * binary32::units(s)
        }),
{
    let b = quantized(f, g, weights);
    let wide = binary16::widened(b.d);
    let r = if b.q[e] == 1 {
        wide
    } else {
        binary32::flipped(wide)
    };
    law_bipolar_near(f, g, weights, s, e, r);
    binary32::lemma_flipped(wide);
    binary16::law_widened(b.d);
    binary16::lemma_widened_range(b.d, wide);
    let (v, p) = (binary16::value(b.d), pow2(125) as int);
    binary16::lemma_widened_value(b.d);
    assert(v * 1 * p == v * p && v * (-1) * p == -(v * p)) by (nonlinear_arith);
}

/// The packed dot product of bipolar weights is near the dense one that it stands
/// in for. Where the weights of block `i` are `-scales[i]` and `scales[i]`, with
/// scales in the normal range of half precision, quantising weights and
/// activations and multiplying them is off from the dot product of the weights
/// and activations themselves by at most `(nb + 8) * 2^-23` of the dense dot
/// product of the magnitudes, for the rounding; 9/16 of the steps that the weights
/// meet, for the activations; and `33 * 2^-16` of the scales that the activations
/// meet, for the scales. All is in units of `2^-298`.
pub proof fn law_bipolar_dot_near_raw(
    f: Rounding,
    g: Narrowing,
    ws: Seq<u32>,
    scales: Seq<u32>,
    acts: Seq<u32>,
    nb: nat,
)
    requires
        ieee::is_arithmetic(f),
        narrowing::is_narrowing(g),
        ws.len() >= 128 * nb,
        scales.len() >= nb,
        forall|i: int|
            0 <= i < nb ==> is_bipolar(quants::weights_of(ws, i), #[trigger] scales[i]) && binary16::widened(
                0x400,
            ) <= scales[i] <= binary16::widened(0x7bff),
        accuracy::moderate(f, acts, 4 * nb),
        nb <= 0x40_0000,
    ensures
        ({
            let (xs, ys) = (blocks(f, g, ws, nb), q8_0::blocks(f, g, acts, 4 * nb));
            let r = quants::dot(quants::single(f), xs, ys, nb);
            let n = 128 * nb as int;
            let off = ieee::size(
                binary32::value(r) * pow2(149) - accuracy::dense_raw(ws, acts, n),
            );
            &&& binary32::is_finite(r)
            &&& off * 0x800_0000 <= 16 * ((nb + 8) * (quants::dense(
                accuracy::sizes(xs),
                accuracy::sizes(ys),
                n,
            ) * pow2(250))) + 0x480_0000 * (accuracy::steps_met(f, xs, acts, n) * pow2(125))
                + 0x1_0800 * accuracy::scales_met(scales, acts, n)
        }),
{
    let xs = blocks(f, g, ws, nb);
    assert forall|i: int| 0 <= i < nb implies (#[trigger] xs[i]).q.len() == 128
        && binary16::is_finite(xs[i].d) by {
        lemma_bipolar_near(f, g, quants::weights_of(ws, i), scales[i], 0);
    }
    assert forall|e: int| 0 <= e < 128 * nb implies ieee::size(
        #[trigger] quants::element_value(xs, 128, e) * pow2(125) - binary32::value(ws[e]),
    ) * 0x1_0000 <= 33 * binary32::units(scales[e / 128]) by {
        let (i, t) = (e / 128, e % 128);
        lemma_bipolar_near(f, g, quants::weights_of(ws, i), scales[i], t);
        assert(quants::weights_of(ws, i)[t] == ws[e]);
    }
    accuracy::lemma_dot_near_raw(f, g, xs, ws, scales, acts, nb, 33, 0x1_0000, 0x800);
}

} // verus!
