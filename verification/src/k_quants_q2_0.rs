//! Ternary (1.58-bit) packed block type `Q2_0` and its dot kernel.
//!
//! `Q2_0` stores 128 weights per block as 2-bit codes `{0, 1, 2, 3}` that stand
//! for the integers `code - 1`, so that ternary weights use the codes
//! `{0, 1, 2}`, and one half-precision scale that multiplies them all. Element
//! `e` sits in bits `2 * (e % 4)` and up of byte `e / 4`.
use crate::accuracy;
use crate::arith;
use crate::arith::{Narrowing, Op, Rounding};
use crate::binary16;
use crate::binary32;
use crate::dtype::GgmlDType;
use crate::error::MatmulError;
use crate::ieee;
use crate::kernel;
use crate::kernel::{PackedBlock, RowKernel};
use crate::narrowing;
use crate::q8_0;
use crate::q8_0::BlockQ8_0;
use crate::quants;
use crate::quants::Quants;
use vstd::arithmetic::power2::*;
use vstd::prelude::*;
use vstd::std_specs::cmp::PartialEqSpecImpl;

verus! {

/// Weights per `Q2_0` block.
pub const QK2_0: usize = 128;

/// A ternary weight block: one half-precision scale, as its bit pattern, and
/// 128 weights packed as 2-bit codes, four to a byte.
#[derive(Debug, Clone, Copy)]
pub struct BlockQ2_0 {
    pub d: u16,
    pub qs: [u8; 32],
}

/// The 2-bit code in place `pos` of `byte`.
pub open spec fn slot(byte: u8, pos: int) -> int {
    if pos == 0 {
        byte as int % 4
    } else if pos == 1 {
        byte as int / 4 % 4
    } else if pos == 2 {
        byte as int / 16 % 4
    } else {
        byte as int / 64
    }
}

/// The code of element `e` of the packed bytes `qs`.
pub open spec fn code(qs: Seq<u8>, e: int) -> int {
    slot(qs[e / 4], e % 4)
}

impl PartialEqSpecImpl for BlockQ2_0 {
    open spec fn obeys_eq_spec() -> bool {
        true
    }

    /// Scales are equal as numbers, so that a block whose scale is a NaN equals
    /// none, not even itself.
    open spec fn eq_spec(&self, other: &Self) -> bool {
        binary16::same_number(self.d, other.d) && self.qs@ == other.qs@
    }
}

impl PartialEq for BlockQ2_0 {
    fn eq(&self, other: &Self) -> (r: bool) {
        binary16::equal(self.d, other.d) && quants::same_bytes(&self.qs, &other.qs)
    }
}

impl View for BlockQ2_0 {
    type V = Quants;

    /// A block stands for its scale and the 128 integers `code - 1`.
    open spec fn view(&self) -> Quants {
        Quants { d: self.d, q: Seq::new(128, |e: int| code(self.qs@, e) - 1) }
    }
}

/// The scale of `weights`: their largest magnitude, and one where that is not
/// positive.
pub open spec fn scale_of(weights: Seq<u32>) -> u32 {
    binary32::positive_or_one_spec(binary32::largest(weights))
}

/// What 128 weights are quantised to: each over the scale, rounded to the nearest
/// of `-1`, `0` and `1`.
pub open spec fn quantized(f: Rounding, g: Narrowing, weights: Seq<u32>) -> Quants {
    let scale = scale_of(weights);
    Quants {
        d: g(scale),
        q: Seq::new(128, |e: int| binary32::rounded(f(Op::Div, weights[e], scale), 1)),
    }
}

/// Shifting and masking read a slot.
proof fn lemma_read_slot(byte: u8, shift: u8)
    requires
        shift == 0 || shift == 2 || shift == 4 || shift == 6,
    ensures
        ((byte >> shift) & 3) == slot(byte, shift as int / 2),
{
    assert(((byte >> 0) & 3) == byte % 4) by (bit_vector);
    assert(((byte >> 2) & 3) == byte / 4 % 4) by (bit_vector);
    assert(((byte >> 4) & 3) == byte / 16 % 4) by (bit_vector);
    assert(((byte >> 6) & 3) == byte / 64) by (bit_vector);
}

/// Or-ing a code into an empty slot fills that slot and keeps the others.
proof fn lemma_fill_slot(byte: u8, c: u8, shift: u8)
    requires
        shift == 0 || shift == 2 || shift == 4 || shift == 6,
        c < 4,
        slot(byte, shift as int / 2) == 0,
    ensures
        slot(byte | (c << shift), shift as int / 2) == c,
        forall|p: int|
            0 <= p < 4 && p != shift as int / 2 ==> #[trigger] slot(byte | (c << shift), p) == slot(
                byte,
                p,
            ),
{
    let r = byte | (c << shift);
    assert(r % 4 == if shift == 0 {
        c
    } else {
        byte % 4
    }) by (bit_vector)
        requires
            r == byte | (c << shift),
            shift == 0 || shift == 2 || shift == 4 || shift == 6,
            c < 4,
            shift == 0 ==> byte % 4 == 0,
    ;
    assert(r / 4 % 4 == if shift == 2 {
        c
    } else {
        byte / 4 % 4
    }) by (bit_vector)
        requires
            r == byte | (c << shift),
            shift == 0 || shift == 2 || shift == 4 || shift == 6,
            c < 4,
            shift == 2 ==> byte / 4 % 4 == 0,
    ;
    assert(r / 16 % 4 == if shift == 4 {
        c
    } else {
        byte / 16 % 4
    }) by (bit_vector)
        requires
            r == byte | (c << shift),
            shift == 0 || shift == 2 || shift == 4 || shift == 6,
            c < 4,
            shift == 4 ==> byte / 16 % 4 == 0,
    ;
    assert(r / 64 == if shift == 6 {
        c
    } else {
        byte / 64
    }) by (bit_vector)
        requires
            r == byte | (c << shift),
            shift == 0 || shift == 2 || shift == 4 || shift == 6,
            c < 4,
            shift == 6 ==> byte / 64 == 0,
    ;
}

/// The product of the integer of a code and an activation.
fn term(byte: u8, shift: u8, q: i8) -> (r: i32)
    requires
        shift == 0 || shift == 2 || shift == 4 || shift == 6,
    ensures
        r == (slot(byte, shift as int / 2) - 1) * q,
        -256 <= r <= 256,
{
    proof {
        lemma_read_slot(byte, shift);
    }
    let w: i32 = ((byte >> shift) & 0b11) as i32 - 1;
    assert(-256 <= w * q <= 256) by (nonlinear_arith)
        requires
            -1 <= w <= 2,
            -128 <= q <= 127,
    ;
    w * q as i32
}

impl PackedBlock for BlockQ2_0 {
    fn scale(&self) -> (r: u16) {
        self.d
    }

    fn group_sum(&self, k: usize, y: &BlockQ8_0) -> (r: i32) {
        let mut sum: i32 = 0;
        for b in 0..8usize
            invariant
                k < 4,
                sum == quants::inner(self@.q, 32 * k, y@.q, 0, (4 * b) as nat),
                -1024 * b <= sum <= 1024 * b,
        {
            let byte: u8 = self.qs[k * 8 + b];
            sum = sum + term(byte, 0, y.qs[b * 4]) + term(byte, 2, y.qs[b * 4 + 1]) + term(
                byte,
                4,
                y.qs[b * 4 + 2],
            ) + term(byte, 6, y.qs[b * 4 + 3]);
            proof {
                let e = 32 * k + 4 * b;
                assert(self@.q[e] == slot(byte, 0) - 1 && self@.q[e + 1] == slot(byte, 1) - 1);
                assert(self@.q[e + 2] == slot(byte, 2) - 1 && self@.q[e + 3] == slot(byte, 3) - 1);
                quants::lemma_inner_four(self@.q, 32 * k, y@.q, 0, (4 * b) as nat);
            }
        }
        sum
    }
}

impl RowKernel for BlockQ2_0 {
    fn fill_row<O: Fn(Op, u32, u32) -> u32 + Sync>(
        out: &mut [u32],
        k: usize,
        rhs_t: &[Self],
        act: &[BlockQ8_0],
        op: &O,
    ) {
        let n: usize = out.len();
        for col in 0..n
            invariant
                arith::callable(op),
                n == old(out)@.len() == out@.len(),
                rhs_t@.len() >= n * (k / 128),
                act@.len() >= k / 128 * 4,
                forall|t: int|
                    0 <= t < col ==> quants::is_dot(
                        op,
                        kernel::weight_row(quants::models(rhs_t@), k as int, t),
                        quants::models(act@),
                        k as int / 128,
                        #[trigger] out@[t],
                    ),
        {
            proof {
                let kb = k as int / 128;
                assert((col + 1) * kb <= n * kb) by (nonlinear_arith)
                    requires
                        col < n,
                        kb >= 0,
                ;
            }
            out[col] = kernel::column(k, rhs_t, act, col, op);
        }
    }
}

/// Packs 128 ternary codes.
fn pack(codes: &[u8; 128]) -> (qs: [u8; 32])
    requires
        forall|t: int| 0 <= t < 128 ==> #[trigger] codes@[t] < 4,
    ensures
        forall|t: int| 0 <= t < 128 ==> #[trigger] code(qs@, t) == codes@[t],
{
    let mut qs: [u8; 32] = [0u8; 32];
    for e in 0..QK2_0
        invariant
            forall|t: int| 0 <= t < 128 ==> #[trigger] codes@[t] < 4,
            forall|t: int| 0 <= t < e ==> #[trigger] code(qs@, t) == codes@[t],
            forall|t: int| e <= t < 128 ==> #[trigger] code(qs@, t) == 0,
    {
        let k: usize = e / 32;
        let within: usize = e % 32;
        let b: usize = within / 4;
        let pos: usize = within % 4;
        let shift: u8 = (pos * 2) as u8;
        let ghost before = qs@;
        assert(code(before, e as int) == 0);
        proof {
            lemma_fill_slot(qs@[e as int / 4], codes@[e as int], shift);
        }
        qs[k * 8 + b] = qs[k * 8 + b] | (codes[e] << shift);
        assert forall|t: int| 0 <= t < 128 && t != e implies #[trigger] code(qs@, t) == code(
            before,
            t,
        ) by {
            if t / 4 == e as int / 4 {
                assert(t % 4 != e as int % 4);
            }
        }
    }
    qs
}

/// Maps 128 weights, as single-precision patterns, to one `Q2_0` block.
///
/// The scale is the maximum magnitude among the weights; each weight is rounded
/// to the nearest ternary code `round(w / scale) + 1`.
pub fn quantize_block_q2_0<O: Fn(Op, u32, u32) -> u32, N: Fn(u32) -> u16>(
    weights: &[u32; 128],
    op: &O,
    narrow: &N,
) -> (r: BlockQ2_0)
    requires
        arith::callable(op),
        arith::narrow_callable(narrow),
    ensures
        forall|e: int| 0 <= e < 128 ==> -1 <= #[trigger] r@.q[e] <= 1,
        forall|f: Rounding, g: Narrowing| #[trigger]
            arith::both_compute(f, g, op, narrow) ==> r@ == quantized(f, g, weights@),
{
    let amax: u32 = binary32::max_magnitude(weights);
    let scale: u32 = binary32::positive_or_one(amax);
    let mut codes: [u8; 128] = [0u8; 128];
    for e in 0..QK2_0
        invariant
            arith::callable(op),
            forall|t: int| 0 <= t < 128 ==> #[trigger] codes@[t] < 3,
            forall|f: Rounding, t: int|
                #![trigger arith::computes(f, op), codes@[t]]
                arith::computes(f, op) && 0 <= t < e ==> codes@[t] - 1 == binary32::rounded(
                    f(Op::Div, weights@[t], scale),
                    1,
                ),
    {
        let signed: i32 = binary32::round_clamped(op(Op::Div, weights[e], scale), 1);
        codes[e] = (signed + 1) as u8;
    }
    let r = BlockQ2_0 { d: narrow(scale), qs: pack(&codes) };
    proof {
        assert forall|f: Rounding, g: Narrowing| #[trigger]
            arith::both_compute(f, g, op, narrow) implies r@ == quantized(f, g, weights@) by {
            assert(arith::computes(f, op));
            assert(r@.q =~= quantized(f, g, weights@).q);
        }
    }
    r
}

/// `after` is what unpacking `xs` leaves of the numbers `before`: each whole chunk
/// of 128 that a block is there for holds the products of the integers and the
/// scale, and the rest is as it was.
pub open spec fn is_unpacked(xs: Seq<BlockQ2_0>, before: Seq<u32>, after: Seq<u32>) -> bool {
    &&& after.len() == before.len()
    &&& forall|j: int|
        0 <= j < before.len() && j / 128 < xs.len() && 128 * (j / 128) + 128 <= before.len()
            ==> binary16::is_exact_multiple(xs[j / 128]@.q[j % 128], xs[j / 128].d, #[trigger] after[j])
    &&& forall|j: int|
        0 <= j < before.len() && (j / 128 >= xs.len() || 128 * (j / 128) + 128 > before.len())
            ==> #[trigger] after[j] == before[j]
}

/// `after` is what quantising the numbers `xs` leaves of the blocks `before`: each
/// block that a whole chunk of 128 is there for is quantised from it, and the rest
/// is as it was.
pub open spec fn is_packed(
    f: Rounding,
    g: Narrowing,
    xs: Seq<u32>,
    before: Seq<BlockQ2_0>,
    after: Seq<BlockQ2_0>,
) -> bool {
    &&& after.len() == before.len()
    &&& forall|i: int|
        0 <= i < before.len() && 128 * i + 128 <= xs.len() ==> (#[trigger] after[i])@ == quantized(
            f,
            g,
            xs.subrange(128 * i, 128 * i + 128),
        )
    &&& forall|i: int|
        0 <= i < before.len() && 128 * i + 128 > xs.len() ==> #[trigger] after[i] == before[i]
}

impl BlockQ2_0 {
    /// The registered type of the block.
    pub const DTYPE: GgmlDType = GgmlDType::Q2_0;

    /// Weights per block.
    pub const BLCK_SIZE: usize = QK2_0;

    /// The block of all zero bytes.
    pub fn zeros() -> (r: Self)
        ensures
            r.d == 0,
            r.qs@ == Seq::new(32, |j: int| 0u8),
    {
        BlockQ2_0 { d: 0, qs: [0u8; 32] }
    }

    /// Unpacks as many blocks of `xs` as fill a whole chunk of 128 elements of
    /// `ys` with single-precision patterns: the integer of each code times the
    /// scale of its block.
    pub fn to_float(xs: &[Self], ys: &mut [u32])
        ensures
            final(ys)@.len() == old(ys)@.len(),
            forall|j: int|
                0 <= j < 128 * quants::converted(old(ys)@.len(), 128, xs@.len())
                    ==> binary16::is_exact_multiple(
                    xs@[j / 128]@.q[j % 128],
                    xs@[j / 128].d,
                    #[trigger] final(ys)@[j],
                ),
            forall|j: int|
                128 * quants::converted(old(ys)@.len(), 128, xs@.len()) <= j < old(ys)@.len()
                    ==> #[trigger] final(ys)@[j] == old(ys)@[j],
            is_unpacked(xs@, old(ys)@, final(ys)@),
    {
        let whole: usize = ys.len() / QK2_0;
        let count: usize = if whole < xs.len() {
            whole
        } else {
            xs.len()
        };
        for i in 0..count
            invariant
                count == quants::converted(old(ys)@.len(), 128, xs@.len()),
                count * 128 <= ys.len(),
                ys@.len() == old(ys)@.len(),
                forall|j: int|
                    0 <= j < 128 * i ==> binary16::is_exact_multiple(
                        xs@[j / 128]@.q[j % 128],
                        xs@[j / 128].d,
                        #[trigger] ys@[j],
                    ),
                forall|j: int| 128 * i <= j < ys@.len() ==> #[trigger] ys@[j] == old(ys)@[j],
        {
            let d: u32 = binary16::widen(xs[i].d);
            proof {
                binary16::lemma_widened_range(xs@[i as int].d, d);
            }
            for e in 0..QK2_0
                invariant
                    i < count <= xs@.len(),
                    count * 128 <= ys.len(),
                    ys@.len() == old(ys)@.len(),
                    d == binary16::widened(xs@[i as int].d),
                    binary32::is_finite(d) ==> binary32::magnitude(d) == 0 || 1
                        <= binary32::exponent(d) < 254,
                    forall|j: int|
                        0 <= j < 128 * i + e ==> binary16::is_exact_multiple(
                            xs@[j / 128]@.q[j % 128],
                            xs@[j / 128].d,
                            #[trigger] ys@[j],
                        ),
                    forall|j: int| 128 * i + e <= j < ys@.len() ==> #[trigger] ys@[j] == old(ys)@[j],
            {
                let k: usize = e / 32;
                let within: usize = e % 32;
                let b: usize = within / 4;
                let pos: usize = within % 4;
                let shift: u8 = (pos * 2) as u8;
                let byte: u8 = xs[i].qs[k * 8 + b];
                proof {
                    lemma_read_slot(byte, shift);
                }
                let w: i32 = ((byte >> shift) & 0b11) as i32 - 1;
                let out: u32 = binary32::small_multiple(w, d);
                proof {
                    assert(w == xs@[i as int]@.q[e as int]);
                    binary16::lemma_multiple_of_widened(w as int, xs@[i as int].d, out);
                    assert((128 * i + e) / 128 == i && (128 * i + e) % 128 == e);
                }
                ys[QK2_0 * i + e] = out;
            }
        }
    }

    /// Quantises as many whole chunks of 128 elements of `xs`, which holds
    /// single-precision patterns, as `ys` has room for.
    pub fn from_float<O: Fn(Op, u32, u32) -> u32, N: Fn(u32) -> u16>(
        xs: &[u32],
        ys: &mut [Self],
        op: &O,
        narrow: &N,
    )
        requires
            arith::callable(op),
            arith::narrow_callable(narrow),
        ensures
            final(ys)@.len() == old(ys)@.len(),
            forall|f: Rounding, g: Narrowing, i: int|
                #![trigger arith::both_compute(f, g, op, narrow), final(ys)@[i]]
                arith::both_compute(f, g, op, narrow) && 0 <= i < quants::converted(
                    xs@.len(),
                    128,
                    old(ys)@.len(),
                ) ==> final(ys)@[i]@ == quantized(f, g, xs@.subrange(128 * i, 128 * i + 128)),
            forall|i: int|
                quants::converted(xs@.len(), 128, old(ys)@.len()) <= i < old(ys)@.len()
                    ==> #[trigger] final(ys)@[i] == old(ys)@[i],
            forall|f: Rounding, g: Narrowing| #[trigger]
                arith::both_compute(f, g, op, narrow) ==> is_packed(
                    f,
                    g,
                    xs@,
                    old(ys)@,
                    final(ys)@,
                ),
    {
        let whole: usize = xs.len() / QK2_0;
        let count: usize = if whole < ys.len() {
            whole
        } else {
            ys.len()
        };
        for i in 0..count
            invariant
                arith::callable(op),
                arith::narrow_callable(narrow),
                count == quants::converted(xs@.len(), 128, old(ys)@.len()),
                count * 128 <= xs.len(),
                count <= ys@.len(),
                ys@.len() == old(ys)@.len(),
                forall|f: Rounding, g: Narrowing, t: int|
                    #![trigger arith::both_compute(f, g, op, narrow), ys@[t]]
                    arith::both_compute(f, g, op, narrow) && 0 <= t < i ==> ys@[t]@ == quantized(
                        f,
                        g,
                        xs@.subrange(128 * t, 128 * t + 128),
                    ),
                forall|t: int| i <= t < ys@.len() ==> #[trigger] ys@[t] == old(ys)@[t],
        {
            let arr: [u32; 128] = quants::chunk(xs, i);
            ys[i] = quantize_block_q2_0(&arr, op, narrow);
        }
    }

    /// The dot product of weights with activations; see [`vec_dot_q2_0_q8_0`].
    pub fn vec_dot<O: Fn(Op, u32, u32) -> u32>(
        n: usize,
        xs: &[Self],
        ys: &[BlockQ8_0],
        op: &O,
    ) -> (r: u32)
        requires
            arith::callable(op),
            n % 128 == 0,
            xs@.len() >= n / 128,
            ys@.len() >= n / 32,
        ensures
            quants::is_dot(op, quants::models(xs@), quants::models(ys@), n as int / 128, r),
    {
        Self::vec_dot_unopt(n, xs, ys, op)
    }

    /// The dot product of weights with activations; see [`vec_dot_q2_0_q8_0`].
    pub fn vec_dot_unopt<O: Fn(Op, u32, u32) -> u32>(
        n: usize,
        xs: &[Self],
        ys: &[BlockQ8_0],
        op: &O,
    ) -> (r: u32)
        requires
            arith::callable(op),
            n % 128 == 0,
            xs@.len() >= n / 128,
            ys@.len() >= n / 32,
        ensures
            quants::is_dot(op, quants::models(xs@), quants::models(ys@), n as int / 128, r),
    {
        vec_dot_q2_0_q8_0(n, xs, ys, op)
    }

    /// The matrix product; see [`matmul_q2_0`].
    pub fn matmul_t<O: Fn(Op, u32, u32) -> u32 + Sync, N: Fn(u32) -> u16>(
        mkn: (usize, usize, usize),
        lhs: &[u32],
        rhs_t: &[Self],
        dst: &mut [u32],
        op: &O,
        narrow: &N,
    ) -> (r: Result<(), MatmulError>)
        requires
            arith::callable(op),
            arith::narrow_callable(narrow),
            kernel::accepts(GgmlDType::Q2_0, mkn, lhs.len(), rhs_t@.len(), old(dst)@.len()),
        ensures
            kernel::is_product(
                op,
                narrow,
                GgmlDType::Q2_0,
                mkn,
                lhs,
                quants::models(rhs_t@),
                old(dst)@,
                final(dst)@,
                r,
            ),
            r is Ok <==> mkn.1 as int % 128 == 0 && mkn.0 * mkn.1 == lhs@.len(),
            r is Err ==> final(dst)@ == old(dst)@,
    {
        matmul_q2_0(mkn, lhs, rhs_t, dst, op, narrow)
    }
}

/// Dot product of a row of `Q2_0` weights with `Q8_0` activations.
///
/// `n` is the shared dimension, a multiple of [`QK2_0`]. Each weight block
/// pairs with four activation blocks and gives one share of the product.
pub fn vec_dot_q2_0_q8_0<O: Fn(Op, u32, u32) -> u32>(
    n: usize,
    xs: &[BlockQ2_0],
    ys: &[BlockQ8_0],
    op: &O,
) -> (r: u32)
    requires
        arith::callable(op),
        n % 128 == 0,
        xs@.len() >= n / 128,
        ys@.len() >= n / 32,
    ensures
        quants::is_dot(op, quants::models(xs@), quants::models(ys@), n as int / 128, r),
{
    kernel::dot(n, xs, ys, op)
}

/// Quantised matrix product for `Q2_0` weights: `dst[m, n] = lhs[m, k] * rhs`.
///
/// `rhs_t` holds `n` rows of `k / 128` weight blocks, one row for each column of
/// the product. `lhs` and `dst` hold single-precision patterns. The activations
/// of `lhs` are quantised to `Q8_0` blocks, `k / 32` to a row, and each element
/// of `dst` is a [`vec_dot_q2_0_q8_0`]. Elements of `dst` beyond the product
/// keep their values.
pub fn matmul_q2_0<O: Fn(Op, u32, u32) -> u32 + Sync, N: Fn(u32) -> u16>(
    mkn: (usize, usize, usize),
    lhs: &[u32],
    rhs_t: &[BlockQ2_0],
    dst: &mut [u32],
    op: &O,
    narrow: &N,
) -> (r: Result<(), MatmulError>)
    requires
        arith::callable(op),
        arith::narrow_callable(narrow),
        kernel::accepts(GgmlDType::Q2_0, mkn, lhs.len(), rhs_t@.len(), old(dst)@.len()),
    ensures
        kernel::is_product(
            op,
            narrow,
            GgmlDType::Q2_0,
            mkn,
            lhs,
            quants::models(rhs_t@),
            old(dst)@,
            final(dst)@,
            r,
        ),
        r is Ok <==> mkn.1 as int % 128 == 0 && mkn.0 * mkn.1 == lhs@.len(),
        r is Err ==> final(dst)@ == old(dst)@,
{
    kernel::matmul(GgmlDType::Q2_0, mkn, lhs, rhs_t, dst, op, narrow)
}

/// A byte is determined by its four codes.
proof fn lemma_slots_determine(a: u8, b: u8)
    requires
        forall|p: int| 0 <= p < 4 ==> #[trigger] slot(a, p) == slot(b, p),
    ensures
        a == b,
{
    assert(slot(a, 0) == slot(b, 0) && slot(a, 1) == slot(b, 1));
    assert(slot(a, 2) == slot(b, 2) && slot(a, 3) == slot(b, 3));
    assert(a == b) by (bit_vector)
        requires
            a % 4 == b % 4,
            a / 4 % 4 == b / 4 % 4,
            a / 16 % 4 == b / 16 % 4,
            a / 64 == b / 64,
    ;
}

/// Packing loses nothing: two blocks that stand for the same scale and the same
/// integers hold the same bytes.
pub proof fn law_packing_injective(a: BlockQ2_0, b: BlockQ2_0)
    requires
        a@ == b@,
    ensures
        a.d == b.d,
        a.qs@ == b.qs@,
{
    assert forall|i: int| 0 <= i < 32 implies a.qs@[i] == b.qs@[i] by {
        assert forall|p: int| 0 <= p < 4 implies #[trigger] slot(a.qs@[i], p) == slot(
            b.qs@[i],
            p,
        ) by {
            let e = 4 * i + p;
            assert(e / 4 == i && e % 4 == p);
            assert(a@.q[e] == code(a.qs@, e) - 1);
            assert(b@.q[e] == code(b.qs@, e) - 1);
        }
        lemma_slots_determine(a.qs@[i], b.qs@[i]);
    }
    assert(a.qs@ =~= b.qs@);
}

/// Quantising gives ternary weights only: the code `3` is never produced.
pub proof fn law_quantized_is_ternary(f: Rounding, g: Narrowing, weights: Seq<u32>, e: int)
    requires
        0 <= e < 128,
    ensures
        -1 <= quantized(f, g, weights).q[e] <= 1,
{
    binary32::law_rounded(f(Op::Div, weights[e], scale_of(weights)), 1);
}

/// The scale is a positive number, and no weight but a NaN exceeds it in
/// magnitude.
pub proof fn law_scale(weights: Seq<u32>)
    ensures
        0 < scale_of(weights) <= binary32::INFINITY,
        forall|e: int|
            0 <= e < weights.len() && !binary32::is_nan(#[trigger] weights[e])
                ==> binary32::magnitude(weights[e]) <= scale_of(weights),
{
    binary32::law_largest(weights);
}

/// Whether each of `weights` is `-s`, zero or `s`.
pub open spec fn is_ternary(weights: Seq<u32>, s: u32) -> bool {
    forall|e: int|
        0 <= e < weights.len() ==> binary32::magnitude(#[trigger] weights[e]) == 0
            || binary32::magnitude(weights[e]) == s
}

/// The scale of ternary weights `-s`, zero and `s` is `s`, and one where all are
/// zero.
pub proof fn law_ternary_scale(weights: Seq<u32>, s: u32)
    requires
        0 < s < binary32::INFINITY,
        is_ternary(weights, s),
    ensures
        (exists|e: int|
            0 <= e < weights.len() && binary32::magnitude(#[trigger] weights[e]) == s)
            ==> scale_of(weights) == s,
        (forall|e: int|
            0 <= e < weights.len() ==> binary32::magnitude(#[trigger] weights[e]) == 0)
            ==> scale_of(weights) == binary32::ONE,
{
    let most = binary32::largest(weights);
    binary32::law_largest(weights);
    if exists|e: int|
        0 <= e < weights.len() && binary32::magnitude(#[trigger] weights[e]) == s {
        let e = choose|e: int|
            0 <= e < weights.len() && binary32::magnitude(#[trigger] weights[e]) == s;
        assert(!binary32::is_nan(weights[e]));
        assert(binary32::is_max_magnitude(weights, s));
        binary32::law_max_magnitude_unique(weights, s, most);
    } else {
        assert(binary32::is_max_magnitude(weights, 0));
        binary32::law_max_magnitude_unique(weights, 0, most);
    }
}

/// The sign of the number `x`: `-1`, `0` or `1`.
pub open spec fn signum(x: u32) -> int {
    if binary32::magnitude(x) == 0 {
        0
    } else if binary32::negative(x) {
        -1
    } else {
        1
    }
}

/// A number that is zero or the scale in magnitude, over the scale, is rounded to
/// its sign.
proof fn lemma_ternary_code(f: Rounding, s: u32, w: u32)
    requires
        ieee::is_arithmetic(f),
        0 < s < binary32::INFINITY,
        binary32::magnitude(w) == 0 || binary32::magnitude(w) == s,
    ensures
        binary32::rounded(f(Op::Div, w, s), 1) == signum(w),
{
    let x = f(Op::Div, w, s);
    let (u, p) = (binary32::units(w), pow2(149) as int);
    binary32::law_rounded(x, 1);
    binary32::lemma_sign_split(s);
    binary32::lemma_sign_split(w);
    binary32::lemma_sign_split(x);
    ieee::lemma_patterns();
    ieee::lemma_units_positive(s);
    lemma_pow2_strictly_increases(148, 149);
    lemma_pow2_pos(148);
    if binary32::magnitude(w) == 0 {
        assert(u == 0);
        assert(0 * p == 0 && 0 * binary32::units(s) == 0) by (nonlinear_arith);
        assert(binary32::units(0) == 0);
        ieee::lemma_exact(x, 0, binary32::units(s), 0);
        assert(binary32::units(x) == 0);
    } else {
        binary32::law_magnitude_order(w, s);
        assert(p * u == u * p) by (nonlinear_arith);
        binary32::lemma_sign_split(binary32::ONE);
        ieee::lemma_exact(x, u * p, binary32::units(s), binary32::ONE);
        binary32::law_magnitude_order(x, binary32::ONE);
    }
}

/// The codes of ternary weights are exact: where all weights are `-s`, zero or
/// `s`, each is quantised to its sign, whatever `s` is.
pub proof fn law_ternary_codes(f: Rounding, g: Narrowing, weights: Seq<u32>, s: u32, e: int)
    requires
        ieee::is_arithmetic(f),
        0 < s < binary32::INFINITY,
        weights.len() == 128,
        is_ternary(weights, s),
        0 <= e < 128,
    ensures
        quantized(f, g, weights).q[e] == signum(weights[e]),
{
    law_ternary_scale(weights, s);
    lemma_ternary_code(f, scale_of(weights), weights[e]);
}

/// Ternary weights survive quantising and unpacking: where all weights are
/// `-s`, zero or `s`, and half precision holds `s`, the number unpacked from the
/// block is the weight.
pub proof fn law_ternary_lossless(
    f: Rounding,
    g: Narrowing,
    weights: Seq<u32>,
    s: u16,
    e: int,
    r: u32,
)
    requires
        ieee::is_arithmetic(f),
        narrowing::is_narrowing(g),
        0 < s < 0x7c00,
        weights.len() == 128,
        is_ternary(weights, binary16::widened(s)),
        0 <= e < 128,
        binary16::is_exact_multiple(
            quantized(f, g, weights).q[e],
            quantized(f, g, weights).d,
            r,
        ),
    ensures
        binary32::is_finite(r),
        binary32::value(r) == binary32::value(weights[e]),
{
    let wide = binary16::widened(s);
    binary16::law_widened(s);
    binary16::lemma_widened_positive(s, wide);
    binary16::lemma_widened_value(s);
    law_ternary_scale(weights, wide);
    law_ternary_codes(f, g, weights, wide, e);
    binary16::lemma_widened_one();
    narrowing::lemma_held(g, s);
    narrowing::lemma_held(g, 0x3c00);
    binary32::lemma_sign_split(wide);
    binary32::lemma_sign_split(weights[e]);
    let p = pow2(125) as int;
    let d = quantized(f, g, weights).d;
    let v = binary16::value(d);
    if binary32::magnitude(weights[e]) == 0 {
        assert(d == s || d == 0x3c00);
        assert(0 * v * p == 0) by (nonlinear_arith);
        assert(binary32::units(weights[e]) == 0);
    } else {
        assert(d == s);
        binary32::law_magnitude_order(weights[e], wide);
        assert(1 * v * p == v * p) by (nonlinear_arith);
        assert((-1) * v * p == -(v * p)) by (nonlinear_arith);
    }
}

/// What ternary weights are quantised to stands for them up to `2^-11` of the scale.
proof fn lemma_ternary_near(f: Rounding, g: Narrowing, weights: Seq<u32>, s: u32, e: int)
    requires
        ieee::is_arithmetic(f),
        narrowing::is_narrowing(g),
        0 < s < narrowing::LIMIT,
        weights.len() == 128,
        is_ternary(weights, s),
        0 <= e < 128,
    ensures
        binary16::is_finite(quantized(f, g, weights).d),
        ({
            let b = quantized(f, g, weights);
            let off = ieee::size(
                b.q[e] * binary16::value(b.d) * pow2(125) - binary32::value(weights[e]),
            );
            &&& off * 2048 <= binary32::units(s) || off * 2 <= pow2(125)
            &&& s >= binary16::widened(0x400) ==> off * 2048 <= binary32::units(s)
        }),
{
    let w = weights[e];
    let d = quantized(f, g, weights).d;
    let (v, p) = (binary16::value(d), pow2(125) as int);
    law_ternary_scale(weights, s);
    law_ternary_codes(f, g, weights, s, e);
    assert(narrowing::is_narrowed(scale_of(weights), d));
    binary32::lemma_sign_split(s);
    binary32::lemma_sign_split(w);
    binary32::lemma_sign_split(scale_of(weights));
    narrowing::law_narrowed_near(scale_of(weights), d);
    narrowing::lemma_smallest_normal();
    binary32::lemma_sign_split(binary16::widened(0x400));
    binary32::law_magnitude_order(binary16::widened(0x400), s);
    binary32::lemma_units_nonnegative(s);
    assert(0 * v * p == 0) by (nonlinear_arith);
    assert(1 * v * p == v * p) by (nonlinear_arith);
    assert((-1) * v * p == -(v * p)) by (nonlinear_arith);
    if binary32::magnitude(w) != 0 {
        assert(scale_of(weights) == s);
        binary32::law_magnitude_order(w, s);
    } else {
        assert(binary32::units(w) == 0);
    }
}

/// Ternary weights survive quantising and unpacking to half precision: where all
/// weights are `-s`, zero or `s`, for any `s` that is not too large for half
/// precision, the number unpacked from the block is off by at most `2^-11` of
/// `s`, or by at most `2^-25` where `s` is below the normal range.
pub proof fn law_ternary_near(
    f: Rounding,
    g: Narrowing,
    weights: Seq<u32>,
    s: u32,
    e: int,
    r: u32,
)
    requires
        ieee::is_arithmetic(f),
        narrowing::is_narrowing(g),
        0 < s < narrowing::LIMIT,
        weights.len() == 128,
        is_ternary(weights, s),
        0 <= e < 128,
        binary16::is_exact_multiple(
            quantized(f, g, weights).q[e],
            quantized(f, g, weights).d,
            r,
        ),
    ensures
        binary32::is_finite(r),
        ({
            let off = ieee::size(binary32::value(r) - binary32::value(weights[e]));
            &&& off * 2048 <= binary32::units(s) || off * 2 <= pow2(125)
            &&& s >= binary16::widened(0x400) ==> off * 2048 <= binary32::units(s)
        }),
{
    lemma_ternary_near(f, g, weights, s, e);
}

/// The nearest of `-1`, `0` and `1` to the quotient of `w` by the positive `s`,
/// halves away from zero. What is finite is nearest to no infinity.
pub open spec fn nearest_code(w: u32, s: u32) -> int {
    if s < binary32::INFINITY && 2 * binary32::units(w) >= binary32::units(s) {
        signum(w)
    } else {
        0
    }
}

/// What is less than half of a number lies below half of it by at least `2^-25`
/// of it.
proof fn lemma_below_half(w: u32, s: u32)
    requires
        binary32::is_finite(w),
        binary32::is_finite(s),
        2 * binary32::units(w) < binary32::units(s),
    ensures
        0x100_0000 * (binary32::units(s) - 2 * binary32::units(w)) >= binary32::units(s),
{
    binary32::lemma_sign_split(w);
    binary32::lemma_sign_split(s);
    lemma2_to64();
    let (mw, ew) = ieee::lemma_parts(w);
    let (ms, es) = ieee::lemma_parts(s);
    let (pw, ps) = (pow2(ew) as int, pow2(es) as int);
    lemma_pow2_pos(es);
    lemma_pow2_pos(ew);
    if ew + 1 >= es {
        let k = pow2((ew + 1 - es) as nat) as int;
        lemma_pow2_adds((ew + 1 - es) as nat, es);
        lemma_pow2_unfold(ew + 1);
        assert(2 * (mw * pw) == (mw * k) * ps) by (nonlinear_arith)
            requires
                2 * pw == k * ps,
        ;
        let d = ms - mw * k;
        assert(ms * ps - (mw * k) * ps == d * ps) by (nonlinear_arith)
            requires
                d == ms - mw * k,
        ;
        assert(d * ps >= ps) by (nonlinear_arith)
            requires
                d * ps > 0,
                ps > 0,
        ;
        assert(ms * ps <= 0x100_0000 * ps) by (nonlinear_arith)
            requires
                ms <= 0x100_0000,
                ps > 0,
        ;
    } else {
        let h = pow2((es - 1) as nat) as int;
        lemma_pow2_unfold(es);
        lemma_pow2_pos((es - 1) as nat);
        lemma_pow2_unfold(ew + 1);
        if ew + 1 < es - 1 {
            lemma_pow2_strictly_increases(ew + 1, (es - 1) as nat);
        }
        assert(2 * (mw * pw) <= 0xff_ffff * h) by (nonlinear_arith)
            requires
                0 <= mw <= 0xff_ffff,
                0 <= 2 * pw <= h,
        ;
        let k = 2 * ms - 0x100_0000;
        assert(ms * ps == (k + 0x100_0000) * h) by (nonlinear_arith)
            requires
                ps == 2 * h,
                k == 2 * ms - 0x100_0000,
        ;
        assert((k + 0x100_0000) * h - 0xff_ffff * h == (k + 1) * h) by (nonlinear_arith);
        assert(0x100_0000 * ((k + 1) * h) >= (k + 0x100_0000) * h) by (nonlinear_arith)
            requires
                k >= 0,
                h > 0,
        ;
    }
}

/// The rounded quotient of a finite number by the scale is rounded to its nearest
/// code.
pub(crate) proof fn lemma_nearest_code(f: Rounding, s: u32, w: u32)
    requires
        ieee::is_arithmetic(f),
        0 < s <= binary32::INFINITY,
        binary32::is_finite(w),
    ensures
        binary32::rounded(f(Op::Div, w, s), 1) == nearest_code(w, s),
{
    let x = f(Op::Div, w, s);
    assert(ieee::is_quotient(w, s, x));
    binary32::law_rounded(x, 1);
    binary32::lemma_sign_split(s);
    binary32::lemma_sign_split(w);
    binary32::lemma_sign_split(x);
    lemma_pow2_pos(148);
    if s == binary32::INFINITY {
        assert(binary32::units(x) == 0);
    } else {
        let (u, v, p, h) = (
            binary32::units(w),
            binary32::units(s),
            pow2(149) as int,
            pow2(148) as int,
        );
        ieee::lemma_patterns();
        ieee::lemma_units_positive(s);
        lemma_pow2_unfold(149);
        if 2 * u >= v {
            assert(h * v <= u * p) by (nonlinear_arith)
                requires
                    p == 2 * h,
                    2 * u >= v,
                    h > 0,
            ;
            binary32::lemma_sign_split(0x3f00_0000);
            ieee::lemma_neighbour(x, u * p, v, 0x3f00_0000);
            if binary32::is_finite(x) {
                binary32::law_magnitude_order(0x3f00_0000, x);
            }
        } else {
            let y = 0x3eff_ffffu32;
            let t = pow2(124) as int;
            lemma_below_half(w, s);
            binary32::lemma_sign_split(y);
            lemma_pow2_pos(124);
            lemma_pow2_adds(24, 124);
            lemma2_to64();
            assert(binary32::units(y) == 0xff_ffff * t);
            assert((0xff_ffff * t) * v >= u * p) by (nonlinear_arith)
                requires
                    p == 2 * h,
                    h == 0x100_0000 * t,
                    0x100_0000 * (v - 2 * u) >= v,
                    t > 0,
            ;
            ieee::lemma_neighbour(x, u * p, v, y);
            binary32::law_magnitude_order(x, y);
            assert(0xff_ffff * t < 0x100_0000 * t) by (nonlinear_arith)
                requires
                    t > 0,
            ;
        }
    }
}

/// Each code is the nearest: a finite weight is quantised to its sign exactly
/// where twice its magnitude reaches the scale, and to zero otherwise.
pub proof fn law_nearest_codes(f: Rounding, g: Narrowing, weights: Seq<u32>, e: int)
    requires
        ieee::is_arithmetic(f),
        weights.len() == 128,
        0 <= e < 128,
        binary32::is_finite(weights[e]),
    ensures
        quantized(f, g, weights).q[e] == nearest_code(weights[e], scale_of(weights)),
{
    law_scale(weights);
    lemma_nearest_code(f, scale_of(weights), weights[e]);
}

/// The codes keep the order of the weights.
pub proof fn law_codes_ordered(f: Rounding, g: Narrowing, weights: Seq<u32>, a: int, b: int)
    requires
        ieee::is_arithmetic(f),
        weights.len() == 128,
        0 <= a < 128,
        0 <= b < 128,
        binary32::is_finite(weights[a]),
        binary32::is_finite(weights[b]),
        binary32::value(weights[a]) <= binary32::value(weights[b]),
    ensures
        quantized(f, g, weights).q[a] <= quantized(f, g, weights).q[b],
{
    law_nearest_codes(f, g, weights, a);
    law_nearest_codes(f, g, weights, b);
    binary32::lemma_units_nonnegative(weights[a]);
    binary32::lemma_units_nonnegative(weights[b]);
    law_scale(weights);
    let s = scale_of(weights);
    if s < binary32::INFINITY {
        binary32::lemma_sign_split(s);
        ieee::lemma_units_positive(s);
    }
}

/// Negated weights have the same scale.
proof fn lemma_mirrored_scale(weights: Seq<u32>, mirror: Seq<u32>)
    requires
        mirror.len() == weights.len(),
        forall|e: int|
            0 <= e < weights.len() ==> #[trigger] mirror[e] == binary32::flipped(weights[e]),
    ensures
        scale_of(mirror) == scale_of(weights),
{
    let most = binary32::largest(weights);
    binary32::law_largest(weights);
    binary32::law_largest(mirror);
    assert forall|e: int| 0 <= e < mirror.len() && !binary32::is_nan(
        #[trigger] mirror[e],
    ) implies binary32::magnitude(mirror[e]) <= most by {
        binary32::lemma_flipped(weights[e]);
    }
    if most != 0 {
        let e = choose|e: int|
            0 <= e < weights.len() && !binary32::is_nan(#[trigger] weights[e])
                && binary32::magnitude(weights[e]) == most;
        binary32::lemma_flipped(weights[e]);
        assert(binary32::magnitude(mirror[e]) == most);
    }
    assert(binary32::is_max_magnitude(mirror, most));
    binary32::law_max_magnitude_unique(mirror, most, binary32::largest(mirror));
}

/// The quotient of a negated weight by the scale is rounded to the opposite.
proof fn lemma_mirrored_code(f: Rounding, s: u32, w: u32)
    requires
        ieee::is_arithmetic(f),
        0 < s <= binary32::INFINITY,
        binary32::is_nan(w) || binary32::magnitude(w) <= s,
    ensures
        binary32::rounded(f(Op::Div, binary32::flipped(w), s), 1) == -binary32::rounded(
            f(Op::Div, w, s),
            1,
        ),
{
    let (x, y) = (f(Op::Div, w, s), f(Op::Div, binary32::flipped(w), s));
    assert(ieee::is_quotient(w, s, x));
    assert(ieee::is_quotient(binary32::flipped(w), s, y));
    binary32::lemma_flipped(w);
    binary32::lemma_sign_split(s);
    binary32::lemma_sign_split(w);
    if binary32::is_finite(w) {
        if s < binary32::INFINITY {
            ieee::lemma_units_positive(s);
            ieee::lemma_unique(x, y, binary32::units(w) * pow2(149), binary32::units(s));
        }
        binary32::law_rounded_mirrored(x, y, 1);
    }
}

/// Negated weights keep the scale and mirror the codes.
pub proof fn law_mirrored(f: Rounding, g: Narrowing, weights: Seq<u32>, mirror: Seq<u32>)
    requires
        ieee::is_arithmetic(f),
        weights.len() == 128,
        mirror.len() == 128,
        forall|e: int| 0 <= e < 128 ==> #[trigger] mirror[e] == binary32::flipped(weights[e]),
    ensures
        quantized(f, g, mirror).d == quantized(f, g, weights).d,
        forall|e: int|
            0 <= e < 128 ==> #[trigger] quantized(f, g, mirror).q[e] == -quantized(
                f,
                g,
                weights,
            ).q[e],
{
    lemma_mirrored_scale(weights, mirror);
    law_scale(weights);
    assert forall|e: int| 0 <= e < 128 implies #[trigger] quantized(f, g, mirror).q[e]
        == -quantized(f, g, weights).q[e] by {
        lemma_mirrored_code(f, scale_of(weights), weights[e]);
        assert(mirror[e] == binary32::flipped(weights[e]));
    }
}

/// Weights whose largest magnitude lies in the range of half precision, or is
/// zero, get a scale that is positive and finite in half precision.
pub proof fn law_scale_held(f: Rounding, g: Narrowing, weights: Seq<u32>)
    requires
        narrowing::is_narrowing(g),
        binary32::largest(weights) == 0 || binary16::widened(1) <= binary32::largest(weights)
            < narrowing::LIMIT,
    ensures
        0 < quantized(f, g, weights).d < 0x7c00,
{
    let s = scale_of(weights);
    let (h, low) = (g(s), binary16::widened(1));
    binary16::lemma_widened_one();
    narrowing::lemma_held(g, 0x3c00);
    binary16::law_widened(1);
    binary16::lemma_widened_positive(1, low);
    assert(narrowing::is_narrowed(s, h));
    if binary32::largest(weights) != 0 {
        binary32::lemma_sign_split(s);
        binary32::lemma_sign_split(low);
        binary32::law_magnitude_order(low, s);
        narrowing::lemma_neighbour(s, h, 1);
    }
}

/// The numbers unpacked from a block of ternary integers are ternary.
proof fn lemma_unpacked_ternary(block: Quants, unpacked: Seq<u32>, e: int)
    requires
        0 < block.d < 0x7c00,
        0 <= e < unpacked.len(),
        -1 <= block.q[e] <= 1,
        binary16::is_exact_multiple(block.q[e], block.d, unpacked[e]),
    ensures
        binary32::magnitude(unpacked[e]) == if block.q[e] == 0 {
            0
        } else {
            binary16::widened(block.d) as int
        },
        signum(unpacked[e]) == block.q[e],
{
    let wide = binary16::widened(block.d);
    let (q, v, p) = (block.q[e], binary16::value(block.d), pow2(125) as int);
    let r = unpacked[e];
    binary16::law_widened(block.d);
    binary16::lemma_widened_positive(block.d, wide);
    binary16::lemma_widened_value(block.d);
    binary32::lemma_sign_split(wide);
    binary32::lemma_sign_split(r);
    binary32::lemma_sign_split(0);
    if q == 0 {
        assert(0 * v * p == 0) by (nonlinear_arith);
        binary32::law_magnitude_order(r, 0);
    } else {
        assert(1 * v * p == v * p) by (nonlinear_arith);
        assert((-1) * v * p == -(v * p)) by (nonlinear_arith);
        binary32::law_magnitude_order(r, wide);
    }
}

/// A block whose scale half precision holds has a nonzero integer, unless its
/// weights have the scale one.
proof fn lemma_some_code(f: Rounding, g: Narrowing, weights: Seq<u32>)
    requires
        ieee::is_arithmetic(f),
        narrowing::is_narrowing(g),
        weights.len() == 128,
        quantized(f, g, weights).d < 0x7c00,
    ensures
        scale_of(weights) == binary32::ONE || exists|e: int|
            0 <= e < 128 && #[trigger] quantized(f, g, weights).q[e] != 0,
{
    let most = binary32::largest(weights);
    let s = scale_of(weights);
    binary32::law_largest(weights);
    if most != 0 {
        let e = choose|e: int|
            0 <= e < weights.len() && !binary32::is_nan(#[trigger] weights[e])
                && binary32::magnitude(weights[e]) == most;
        if s == binary32::INFINITY {
            binary16::law_widened(0x7c00);
            binary32::lemma_sign_split(binary16::widened(0x7c00));
            narrowing::lemma_held(g, 0x7c00);
        }
        lemma_ternary_code(f, s, weights[e]);
        assert(quantized(f, g, weights).q[e] != 0);
    }
}

/// Unpacking and quantising again changes nothing: a block that was quantised
/// with a positive and finite scale is what the numbers unpacked from it are
/// quantised to.
pub proof fn law_requantized(
    f: Rounding,
    g: Narrowing,
    weights: Seq<u32>,
    block: BlockQ2_0,
    unpacked: Seq<u32>,
    again: BlockQ2_0,
)
    requires
        ieee::is_arithmetic(f),
        narrowing::is_narrowing(g),
        weights.len() == 128,
        block@ == quantized(f, g, weights),
        0 < block.d < 0x7c00,
        unpacked.len() == 128,
        forall|e: int|
            0 <= e < 128 ==> binary16::is_exact_multiple(
                block@.q[e],
                block.d,
                #[trigger] unpacked[e],
            ),
        again@ == quantized(f, g, unpacked),
    ensures
        again.d == block.d,
        again.qs@ == block.qs@,
{
    let wide = binary16::widened(block.d);
    binary16::law_widened(block.d);
    binary16::lemma_widened_positive(block.d, wide);
    binary32::lemma_sign_split(wide);
    assert forall|e: int| 0 <= e < 128 implies {
        &&& #[trigger] signum(unpacked[e]) == block@.q[e]
        &&& binary32::magnitude(unpacked[e]) == if block@.q[e] == 0 {
            0
        } else {
            wide as int
        }
    } by {
        law_quantized_is_ternary(f, g, weights, e);
        assert(binary16::is_exact_multiple(block@.q[e], block.d, unpacked[e]));
        lemma_unpacked_ternary(block@, unpacked, e);
    }
    assert(is_ternary(unpacked, wide)) by {
        assert forall|e: int| 0 <= e < 128 implies binary32::magnitude(#[trigger] unpacked[e]) == 0
            || binary32::magnitude(unpacked[e]) == wide by {
            assert(signum(unpacked[e]) == block@.q[e]);
        }
    }
    law_ternary_scale(unpacked, wide);
    narrowing::lemma_held(g, block.d);
    narrowing::lemma_held(g, 0x3c00);
    binary16::lemma_widened_one();
    lemma_some_code(f, g, weights);
    if exists|e: int| 0 <= e < 128 && #[trigger] block@.q[e] != 0 {
        let e = choose|e: int| 0 <= e < 128 && #[trigger] block@.q[e] != 0;
        assert(signum(unpacked[e]) == block@.q[e]);
    } else {
        assert forall|e: int| 0 <= e < 128 implies binary32::magnitude(#[trigger] unpacked[e])
            == 0 by {
            assert(signum(unpacked[e]) == block@.q[e]);
        }
    }
    assert(again.d == block.d);
    assert forall|e: int| 0 <= e < 128 implies again@.q[e] == block@.q[e] by {
        law_ternary_codes(f, g, unpacked, wide, e);
        assert(signum(unpacked[e]) == block@.q[e]);
    }
    assert(again@.q =~= block@.q);
    law_packing_injective(again, block);
}

/// Blocks of the format are such as the laws of rounding ask for.
proof fn lemma_regular(xs: Seq<BlockQ2_0>, ys: Seq<BlockQ8_0>, nb: nat)
    requires
        xs.len() >= nb,
        ys.len() >= 4 * nb,
        quants::finite_scales(quants::models(xs), quants::models(ys), nb),
    ensures
        accuracy::is_regular(quants::models(xs), quants::models(ys), nb),
{
}

/// A dot product over one more block is the dot product so far plus that of the
/// block alone, in one addition; over no blocks it is zero. The scales are
/// finite.
pub proof fn law_dot_appended(
    f: Rounding,
    xs: Seq<BlockQ2_0>,
    ys: Seq<BlockQ8_0>,
    a: nat,
)
    requires
        ieee::is_arithmetic(f),
        xs.len() >= a + 1,
        ys.len() >= 4 * (a + 1),
        quants::finite_scales(quants::models(xs), quants::models(ys), a + 1),
    ensures
        quants::dot(quants::single(f), quants::models(xs), quants::models(ys), a + 1) == f(
            Op::Add,
            quants::dot(quants::single(f), quants::models(xs), quants::models(ys), a),
            quants::dot(
                quants::single(f),
                quants::models(xs.skip(a as int)),
                quants::models(ys.skip(4 * a as int)),
                1,
            ),
        ),
        quants::dot(quants::single(f), quants::models(xs), quants::models(ys), 0) == 0,
{
    lemma_regular(xs, ys, a + 1);
    accuracy::law_dot_appended(f, quants::models(xs), quants::models(ys), a);
    assert(quants::models(xs.skip(a as int)) =~= quants::models(xs).skip(a as int));
    assert(quants::models(ys.skip(4 * a as int)) =~= quants::models(ys).skip(4 * a as int));
}

/// The packed dot product is the dense one up to rounding: it is off by at most
/// `(nb + 8) * 2^-23` of the dense dot product of the magnitudes. The dense
/// products are in units of `2^-48`, the packed one in units of `2^-149`.
pub proof fn law_dot_near_dense(
    f: Rounding,
    xs: Seq<BlockQ2_0>,
    ys: Seq<BlockQ8_0>,
    nb: nat,
)
    requires
        ieee::is_arithmetic(f),
        xs.len() >= nb,
        ys.len() >= 4 * nb,
        quants::finite_scales(quants::models(xs), quants::models(ys), nb),
        nb <= 0x40_0000,
    ensures
        ({
            let (ws, zs) = (quants::models(xs), quants::models(ys));
            let r = quants::dot(quants::single(f), ws, zs, nb);
            let (dense, sizes) = (
                quants::dense(ws, zs, 128 * nb as int),
                quants::dense(accuracy::sizes(ws), accuracy::sizes(zs), 128 * nb as int),
            );
            &&& binary32::is_finite(r)
            &&& ieee::size(binary32::value(r) - dense * pow2(101)) * 0x80_0000 <= (nb + 8) * (sizes
                * pow2(101))
        }),
{
    lemma_regular(xs, ys, nb);
    accuracy::law_dot_near_dense(f, quants::models(xs), quants::models(ys), nb);
}

/// The dot product of packed weights with the blocks of quantised activations is
/// near the dense one of the unpacked weights with the activations themselves: it
/// is off by at most `(nb + 8) * 2^-23` of the dense dot product of the
/// magnitudes, for the rounding, and 9/16 of the steps that the weights meet, for
/// the quantising. All is in units of `2^-173`.
pub proof fn law_dot_near_input(
    f: Rounding,
    g: Narrowing,
    xs: Seq<BlockQ2_0>,
    ys: Seq<BlockQ8_0>,
    acts: Seq<u32>,
    nb: nat,
)
    requires
        ieee::is_arithmetic(f),
        narrowing::is_narrowing(g),
        xs.len() >= nb,
        forall|i: int| 0 <= i < nb ==> binary16::is_finite((#[trigger] xs[i]).d),
        ys.len() == 4 * nb,
        forall|j: int|
            0 <= j < 4 * nb ==> (#[trigger] ys[j])@ == q8_0::quantized(
                f,
                g,
                q8_0::group(acts, j),
            ),
        accuracy::moderate(f, acts, 4 * nb),
        nb <= 0x40_0000,
    ensures
        ({
            let (ws, zs) = (quants::models(xs), quants::models(ys));
            let r = quants::dot(quants::single(f), ws, zs, nb);
            let n = 128 * nb as int;
            let off = ieee::size(
                binary32::value(r) * pow2(24) - accuracy::dense_input(ws, acts, n),
            );
            &&& binary32::is_finite(r)
            &&& off * 0x800_0000 <= 16 * ((nb + 8) * (quants::dense(
                accuracy::sizes(ws),
                accuracy::sizes(zs),
                n,
            ) * pow2(125))) + 0x480_0000 * accuracy::steps_met(f, ws, acts, n)
        }),
{
    let ws = quants::models(xs);
    assert(quants::models(ys) =~= q8_0::blocks(f, g, acts, 4 * nb));
    assert(accuracy::regular_weights(ws, nb));
    accuracy::law_dot_near_input(f, g, ws, acts, nb);
}

/// Negated activations negate the dot product, exactly. The scales are finite.
pub proof fn law_negated_activations(
    f: Rounding,
    xs: Seq<BlockQ2_0>,
    ys: Seq<BlockQ8_0>,
    mirror: Seq<BlockQ8_0>,
    nb: nat,
)
    requires
        ieee::is_arithmetic(f),
        xs.len() >= nb,
        ys.len() >= 4 * nb,
        mirror.len() >= 4 * nb,
        quants::finite_scales(quants::models(xs), quants::models(ys), nb),
        forall|j: int| 0 <= j < 4 * nb ==> (#[trigger] mirror[j]).d == ys[j].d,
        forall|j: int, t: int|
            0 <= j < 4 * nb && 0 <= t < 32 ==> #[trigger] mirror[j].qs@[t] == -ys[j].qs@[t],
    ensures
        ({
            let (ws, zs, ms) = (quants::models(xs), quants::models(ys), quants::models(mirror));
            let r = quants::dot(quants::single(f), ws, zs, nb);
            let m = quants::dot(quants::single(f), ws, ms, nb);
            &&& m == accuracy::negation(r)
            &&& binary32::is_finite(r) && binary32::is_finite(m)
            &&& binary32::value(m) == -binary32::value(r)
        }),
{
    let (ws, zs, ms) = (quants::models(xs), quants::models(ys), quants::models(mirror));
    assert(quants::finite_scales(ws, ms, nb)) by {
        assert forall|j: int| 0 <= j < 4 * nb implies binary16::is_finite((#[trigger] ms[j]).d) by {
            assert(mirror[j].d == zs[j].d);
        }
    }
    lemma_regular(xs, ys, nb);
    lemma_regular(xs, mirror, nb);
    assert forall|i: int, k: int| 0 <= i < nb && 0 <= k < 4 implies #[trigger] accuracy::group(
        ws,
        ms,
        i,
        k,
    ) == -accuracy::group(ws, zs, i, k) by {
        let j = 4 * i + k;
        let (q, z, m) = (ws[i].q, zs[j].q, ms[j].q);
        assert forall|t: int| 0 <= t < 32 implies #[trigger] q[32 * k + t] == q[32 * k + t]
            && m[t] == -z[t] by {
            assert(mirror[j].qs@[t] == -ys[j].qs@[t]);
        }
        accuracy::lemma_inner_negated(q, 32 * k, z, q, m, 32);
    }
    accuracy::law_dot_mirrored(f, ws, zs, ws, ms, nb);
    accuracy::law_dot_finite(f, ws, zs, nb);
    accuracy::law_dot_finite(f, ws, ms, nb);
    accuracy::lemma_negation(
        quants::dot(quants::single(f), ws, zs, nb),
        quants::dot(quants::single(f), ws, ms, nb),
    );
}

/// What the first `128 * nb` of the weights `ws` are quantised to.
pub open spec fn blocks(f: Rounding, g: Narrowing, ws: Seq<u32>, nb: nat) -> Seq<Quants> {
    Seq::new(nb, |i: int| quantized(f, g, quants::weights_of(ws, i)))
}

/// The packed dot product of ternary weights is near the dense one that it stands
/// in for. Where the weights of block `i` are `-scales[i]`, zero and `scales[i]`,
/// with scales in the normal range of half precision, quantising weights and
/// activations and multiplying them is off from the dot product of the weights
/// and activations themselves by at most `(nb + 8) * 2^-23` of the dense dot
/// product of the magnitudes, for the rounding; 9/16 of the steps that the weights
/// meet, for the activations; and `2^-11` of the scales that the activations meet,
/// for the scales. All is in units of `2^-298`.
pub proof fn law_ternary_dot_near_raw(
    f: Rounding,
    g: Narrowing,
    ws: Seq<u32>,
    scales: Seq<u32>,
    acts: Seq<u32>,
    nb: nat,
)
    requires
        ieee::is_arithmetic(f),
        narrowing::is_narrowing(g),
        ws.len() >= 128 * nb,
        scales.len() >= nb,
        forall|i: int|
            0 <= i < nb ==> is_ternary(quants::weights_of(ws, i), #[trigger] scales[i]) && binary16::widened(
                0x400,
            ) <= scales[i] < narrowing::LIMIT,
        accuracy::moderate(f, acts, 4 * nb),
        nb <= 0x40_0000,
    ensures
        ({
            let (xs, ys) = (blocks(f, g, ws, nb), q8_0::blocks(f, g, acts, 4 * nb));
            let r = quants::dot(quants::single(f), xs, ys, nb);
            let n = 128 * nb as int;
            let off = ieee::size(
                binary32::value(r) * pow2(149) - accuracy::dense_raw(ws, acts, n),
            );
            &&& binary32::is_finite(r)
            &&& off * 0x800_0000 <= 16 * ((nb + 8) * (quants::dense(
                accuracy::sizes(xs),
                accuracy::sizes(ys),
                n,
            ) * pow2(250))) + 0x480_0000 * (accuracy::steps_met(f, xs, acts, n) * pow2(125))
                + 0x1_0000 * accuracy::scales_met(scales, acts, n)
        }),
{
    let xs = blocks(f, g, ws, nb);
    binary16::law_widened(0x400);
    binary16::lemma_widened_positive(0x400, binary16::widened(0x400));
    assert forall|i: int| 0 <= i < nb implies (#[trigger] xs[i]).q.len() == 128
        && binary16::is_finite(xs[i].d) by {
        lemma_ternary_near(f, g, quants::weights_of(ws, i), scales[i], 0);
    }
    assert forall|i: int, e: int| 0 <= i < nb && 0 <= e < 128 implies -2 <= #[trigger] xs[i].q[e]
        <= 2 by {
        law_quantized_is_ternary(f, g, quants::weights_of(ws, i), e);
    }
    assert forall|e: int| 0 <= e < 128 * nb implies ieee::size(
        #[trigger] quants::element_value(xs, 128, e) * pow2(125) - binary32::value(ws[e]),
    ) * 2048 <= 1 * binary32::units(scales[e / 128]) by {
        let (i, t) = (e / 128, e % 128);
        lemma_ternary_near(f, g, quants::weights_of(ws, i), scales[i], t);
        assert(quants::weights_of(ws, i)[t] == ws[e]);
        let (q, v) = (xs[i].q[t], binary16::value(xs[i].d));
        assert(v * q == q * v) by (nonlinear_arith);
    }
    accuracy::lemma_dot_near_raw(f, g, xs, ws, scales, acts, nb, 1, 2048, 0x1_0000);
}

} // verus!
