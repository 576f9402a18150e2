//! Tests of the ternary format.
use lowbit_quants::arith::Op;
use lowbit_quants::dtype::GgmlDType;
use lowbit_quants::error::MatmulError;
use lowbit_quants::k_quants_q2_0::{
    matmul_q2_0, quantize_block_q2_0, vec_dot_q2_0_q8_0, BlockQ2_0, QK2_0,
};
use lowbit_quants::q8_0::{quantize_block_q8_0, BlockQ8_0};

fn op(o: Op, a: u32, b: u32) -> u32 {
    let (a, b) = (f32::from_bits(a), f32::from_bits(b));
    let r = match o {
        Op::Add => a + b,
        Op::Mul => a * b,
        Op::Div => a / b,
    };
    r.to_bits()
}

fn narrow(x: u32) -> u16 {
    half::f16::from_f32(f32::from_bits(x)).to_bits()
}

fn bits(xs: &[f32]) -> Vec<u32> {
    xs.iter().map(|x| x.to_bits()).collect()
}

fn floats(xs: &[u32]) -> Vec<f32> {
    xs.iter().map(|&x| f32::from_bits(x)).collect()
}

fn quantize(weights: &[f32; QK2_0]) -> BlockQ2_0 {
    quantize_block_q2_0(&weights.map(f32::to_bits), &op, &narrow)
}

fn scale(block: &BlockQ2_0) -> f32 {
    half::f16::from_bits(block.d).to_f32()
}

/// A deterministic stream of numbers between -1 and 1.
fn noise(seed: u64, n: usize) -> Vec<f32> {
    let mut state = seed;
    (0..n)
        .map(|_| {
            state = state.wrapping_mul(6364136223846793005).wrapping_add(1442695040888963407);
            ((state >> 40) as f32) / 8388608.0 - 1.0
        })
        .collect()
}

fn reference_quantize(weights: &[f32]) -> (u16, [u8; 32]) {
    let amax = weights.iter().fold(0.0f32, |m, &w| m.max(w.abs()));
    let scale = if amax > 0.0 { amax } else { 1.0 };
    let mut qs = [0u8; 32];
    for (e, &w) in weights.iter().enumerate() {
        let signed = (w / scale).round().clamp(-1.0, 1.0) as i32;
        qs[e / 4] |= ((signed + 1) as u8) << (2 * (e % 4));
    }
    (half::f16::from_f32(scale).to_bits(), qs)
}

fn reference_dot(n: usize, xs: &[BlockQ2_0], ys: &[BlockQ8_0]) -> f32 {
    let mut sumf = 0.0f32;
    for i in 0..n / 128 {
        let mut sumi = 0.0f32;
        for k in 0..4 {
            let yb = &ys[i * 4 + k];
            let mut sum: i32 = 0;
            for j in 0..32 {
                let e = 32 * k + j;
                let code = (xs[i].qs[e / 4] >> (2 * (e % 4))) & 3;
                sum += (code as i32 - 1) * yb.qs[j] as i32;
            }
            sumi += half::f16::from_bits(yb.d).to_f32() * sum as f32;
        }
        sumf += scale(&xs[i]) * sumi;
    }
    sumf
}

#[test]
fn q2_0_dot_matches_dense() {
    let scale = 0.7f32;
    let mut weights = [0.0f32; QK2_0];
    let mut acts = [0.0f32; QK2_0];
    for e in 0..QK2_0 {
        let t = ((e * 7 + 3) % 3) as i32 - 1;
        weights[e] = t as f32 * scale;
        acts[e] = (((e as f32) * 0.13).sin()) * (1.0 + (e % 5) as f32);
    }

    let dense: f32 = weights.iter().zip(acts.iter()).map(|(w, a)| w * a).sum();

    let xblock = quantize(&weights);
    let yblocks: Vec<BlockQ8_0> = (0..4)
        .map(|k| quantize_block_q8_0(&bits(&acts[k * 32..k * 32 + 32]), &op, &narrow))
        .collect();

    let got = f32::from_bits(vec_dot_q2_0_q8_0(QK2_0, &[xblock], &yblocks, &op));

    let abs_terms: f32 = weights
        .iter()
        .zip(acts.iter())
        .map(|(w, a)| (w * a).abs())
        .sum();
    let tol = 0.03 * abs_terms;
    assert!(
        (got - dense).abs() < tol,
        "q2_0 dot {got} diverged from dense {dense} (tol {tol})"
    );
}

#[test]
fn q2_0_ggml_type_roundtrip() {
    let scale = 0.9f32;
    let weights: Vec<f32> = (0..QK2_0 * 2)
        .map(|e| (((e * 3 + 2) % 3) as i32 - 1) as f32 * scale)
        .collect();
    let mut blocks = vec![BlockQ2_0::zeros(); 2];
    BlockQ2_0::from_float(&bits(&weights), &mut blocks, &op, &narrow);
    let mut back = vec![0u32; QK2_0 * 2];
    BlockQ2_0::to_float(&blocks, &mut back);
    for (e, (&w, &b)) in weights.iter().zip(floats(&back).iter()).enumerate() {
        assert!((b - w).abs() < 1e-2 * scale, "elem {e}: {b} != {w}");
    }
}

#[test]
fn q2_0_matmul_matches_dense() {
    let (m, k, n) = (2usize, 256usize, 3usize);
    let scale = 0.5f32;

    let mut w = vec![0f32; n * k];
    for c in 0..n {
        for i in 0..k {
            w[c * k + i] = (((c * 31 + i * 7 + 1) % 3) as i32 - 1) as f32 * scale;
        }
    }
    let mut lhs = vec![0f32; m * k];
    for r in 0..m {
        for i in 0..k {
            lhs[r * k + i] = (((r * 13 + i) as f32) * 0.07).sin() * (1.0 + (i % 4) as f32);
        }
    }

    let kb = k / QK2_0;
    let mut rhs_t = vec![BlockQ2_0::zeros(); n * kb];
    for c in 0..n {
        for blk in 0..kb {
            let mut chunk = [0f32; QK2_0];
            chunk.copy_from_slice(&w[c * k + blk * QK2_0..c * k + (blk + 1) * QK2_0]);
            rhs_t[c * kb + blk] = quantize(&chunk);
        }
    }

    let mut out = vec![0u32; m * n];
    matmul_q2_0((m, k, n), &bits(&lhs), &rhs_t, &mut out, &op, &narrow).unwrap();
    let got = floats(&out);

    for r in 0..m {
        for c in 0..n {
            let dense: f32 = (0..k).map(|i| lhs[r * k + i] * w[c * k + i]).sum();
            let abs_terms: f32 = (0..k).map(|i| (lhs[r * k + i] * w[c * k + i]).abs()).sum();
            let g = got[r * n + c];
            let tol = 0.03 * abs_terms.max(1e-3);
            assert!(
                (g - dense).abs() < tol,
                "[{r}][{c}] {g} != {dense} (tol {tol})"
            );
        }
    }
}

#[test]
fn q2_0_qmatmul_end_to_end() {
    let (out, k, m) = (4usize, 256usize, 2usize);
    let w: Vec<f32> = (0..out * k)
        .map(|e| (((e * 7 + 1) % 3) as i32 - 1) as f32 * 0.5)
        .collect();
    let mut qt = vec![BlockQ2_0::zeros(); out * k / QK2_0];
    BlockQ2_0::from_float(&bits(&w), &mut qt, &op, &narrow);

    let x: Vec<f32> = (0..m * k).map(|e| ((e as f32) * 0.05).sin()).collect();

    let mut dst = vec![0u32; m * out];
    BlockQ2_0::matmul_t((m, k, out), &bits(&x), &qt, &mut dst, &op, &narrow).unwrap();
    let got = floats(&dst);

    for r in 0..m {
        for c in 0..out {
            let dense: f32 = (0..k).map(|i| x[r * k + i] * w[c * k + i]).sum();
            let abs_terms: f32 = (0..k).map(|i| (x[r * k + i] * w[c * k + i]).abs()).sum();
            let tol = 0.05 * abs_terms.max(1e-3);
            assert!(
                (got[r * out + c] - dense).abs() < tol,
                "[{r}][{c}] {} vs dense {}",
                got[r * out + c],
                dense
            );
        }
    }
}

#[test]
fn q2_0_dtype_id_roundtrips() {
    assert_eq!(GgmlDType::Q2_0.to_u32(), 42);
    assert_eq!(GgmlDType::from_u32(42).unwrap(), GgmlDType::Q2_0);
    assert_eq!(GgmlDType::Q2_0.block_size(), QK2_0);
    assert_eq!(
        GgmlDType::Q2_0.type_size(),
        std::mem::size_of::<BlockQ2_0>()
    );
}

#[test]
fn q2_0_ternary_roundtrip_is_lossless() {
    let scale = 1.3f32;
    let mut weights = [0.0f32; QK2_0];
    for e in 0..QK2_0 {
        weights[e] = (((e * 5 + 1) % 3) as i32 - 1) as f32 * scale;
    }
    let block = quantize(&weights);
    let d = half::f16::from_bits(block.d).to_f32();
    for e in 0..QK2_0 {
        let k = e / 32;
        let within = e % 32;
        let b = within / 4;
        let pos = within % 4;
        let code = (block.qs[k * 8 + b] >> (pos * 2)) & 0b11;
        let decoded = (code as i32 - 1) as f32 * d;
        assert!(
            (decoded - weights[e]).abs() < 1e-2 * scale,
            "elem {e}: decoded {decoded} != {}",
            weights[e]
        );
    }
}

#[test]
fn ternary_weights_survive_exactly() {
    for s in [0.5f32, 1.0, 3.0, 0.0999755859375, 65504.0, 6.103515625e-5] {
        let mut weights = [0.0f32; QK2_0];
        for e in 0..QK2_0 {
            weights[e] = ((e * 11 % 3) as i32 - 1) as f32 * s;
        }
        let block = quantize(&weights);
        assert_eq!(scale(&block), s);
        let mut back = [0u32; QK2_0];
        BlockQ2_0::to_float(&[block], &mut back);
        assert_eq!(floats(&back), weights.to_vec());
    }
    let block = quantize(&[0.0; QK2_0]);
    assert_eq!(scale(&block), 1.0);
    let mut back = [7u32; QK2_0];
    BlockQ2_0::to_float(&[block], &mut back);
    assert_eq!(back, [0u32; QK2_0]);
}

#[test]
fn quantizing_agrees_with_float_code() {
    let mut cases: Vec<Vec<f32>> = (0..50).map(|i| noise(i, QK2_0)).collect();
    cases.push(vec![0.0; QK2_0]);
    cases.push(vec![-0.0; QK2_0]);
    cases.push(vec![f32::NAN; QK2_0]);
    for odd in [f32::NAN, f32::INFINITY, f32::NEG_INFINITY, 1e-45, -1e-40, 1e38] {
        let mut w = noise(99, QK2_0);
        w[17] = odd;
        cases.push(w);
        let mut w = vec![0.0; QK2_0];
        w[3] = odd;
        w[4] = -odd;
        cases.push(w);
    }
    let mut halves = vec![0.45f32; QK2_0];
    halves[0] = 0.9;
    halves[1] = -0.45;
    cases.push(halves);
    for w in cases {
        let mut arr = [0f32; QK2_0];
        arr.copy_from_slice(&w);
        let block = quantize(&arr);
        assert_eq!((block.d, block.qs), reference_quantize(&w));
    }
}

#[test]
fn every_code_unpacks_to_its_multiple() {
    let mut block = BlockQ2_0::zeros();
    for i in 0..32 {
        block.qs[i] = 0b11_10_01_00u8.rotate_left(2 * (i as u32 % 4));
    }
    for d in [0x3c00u16, 0xbc00, 0x0001, 0x83ff, 0x7bff, 0x0000, 0x8000] {
        block.d = d;
        let mut back = [0u32; QK2_0];
        BlockQ2_0::to_float(&[block], &mut back);
        for e in 0..QK2_0 {
            let code = (block.qs[e / 4] >> (2 * (e % 4))) & 3;
            let want = (code as i32 - 1) as f32 * scale(&block);
            assert_eq!(back[e], want.to_bits());
        }
    }
    for d in [0x7c00u16, 0xfc00, 0x7e00] {
        block.d = d;
        let mut back = [0u32; QK2_0];
        BlockQ2_0::to_float(&[block], &mut back);
        for e in 0..QK2_0 {
            let code = (block.qs[e / 4] >> (2 * (e % 4))) & 3;
            let want = (code as i32 - 1) as f32 * scale(&block);
            let got = f32::from_bits(back[e]);
            assert_eq!(got.is_nan(), want.is_nan());
            assert!(got.is_nan() || got == want);
        }
    }
}

#[test]
fn conversions_take_whole_blocks_only() {
    let weights = bits(&noise(5, QK2_0 * 2 + 60));
    let mut blocks = vec![BlockQ2_0 { d: 7, qs: [9; 32] }; 3];
    BlockQ2_0::from_float(&weights, &mut blocks, &op, &narrow);
    assert!(blocks[0].d != 7 && blocks[1].d != 7);
    assert_eq!(blocks[2], BlockQ2_0 { d: 7, qs: [9; 32] });

    let mut one = vec![BlockQ2_0::zeros(); 1];
    BlockQ2_0::from_float(&weights, &mut one, &op, &narrow);
    assert_eq!(one[0], blocks[0]);

    let mut back = vec![77u32; QK2_0 + 100];
    BlockQ2_0::to_float(&blocks, &mut back);
    assert!(back[..QK2_0].iter().all(|&x| x != 77));
    assert!(back[QK2_0..].iter().all(|&x| x == 77));
}

#[test]
fn dot_agrees_with_float_code_to_the_bit() {
    let n = 1024;
    let mut xs = vec![BlockQ2_0::zeros(); n / 128];
    BlockQ2_0::from_float(&bits(&noise(1, n)), &mut xs, &op, &narrow);
    xs[3].qs = [0xff; 32];
    let mut ys = vec![BlockQ8_0::zeros(); n / 32];
    BlockQ8_0::from_float(&bits(&noise(2, n)), &mut ys, &op, &narrow);
    ys[12].qs = [-128; 32];
    let want = reference_dot(n, &xs, &ys).to_bits();
    assert_eq!(vec_dot_q2_0_q8_0(n, &xs, &ys, &op), want);
    assert_eq!(BlockQ2_0::vec_dot(n, &xs, &ys, &op), want);
    assert_eq!(BlockQ2_0::vec_dot_unopt(n, &xs, &ys, &op), want);
    assert_eq!(vec_dot_q2_0_q8_0(0, &xs, &ys, &op), 0);
}

#[test]
fn dot_is_the_dense_dot_where_nothing_rounds() {
    let n = 256;
    let mut xs = vec![BlockQ2_0::zeros(); 2];
    let mut ys = vec![BlockQ8_0::zeros(); 8];
    for (i, x) in xs.iter_mut().enumerate() {
        x.d = [0x3800u16, 0x4400][i];
        for j in 0..32 {
            x.qs[j] = (j * 37 + i * 11 + 5) as u8;
        }
    }
    for (i, y) in ys.iter_mut().enumerate() {
        y.d = [0x3c00u16, 0x4000, 0x3400][i % 3];
        for j in 0..32 {
            y.qs[j] = ((j * 29 + i * 17) % 251) as u8 as i8;
        }
    }
    let mut w = vec![0u32; n];
    BlockQ2_0::to_float(&xs, &mut w);
    let mut dense = 0.0f64;
    for e in 0..n {
        let y = &ys[e / 32];
        let a = half::f16::from_bits(y.d).to_f32() * y.qs[e % 32] as f32;
        dense += f32::from_bits(w[e]) as f64 * a as f64;
    }
    let got = f32::from_bits(vec_dot_q2_0_q8_0(n, &xs, &ys, &op));
    assert_eq!(got as f64, dense);
}

#[test]
fn matmul_elements_are_dots() {
    let (m, k, n) = (3usize, 384usize, 5usize);
    let lhs = bits(&noise(7, m * k));
    let mut rhs_t = vec![BlockQ2_0::zeros(); n * k / 128];
    BlockQ2_0::from_float(&bits(&noise(8, n * k)), &mut rhs_t, &op, &narrow);
    let mut dst = vec![123u32; m * n + 4];
    assert_eq!(
        matmul_q2_0((m, k, n), &lhs, &rhs_t, &mut dst, &op, &narrow),
        Ok(())
    );
    for r in 0..m {
        let mut act = vec![BlockQ8_0::zeros(); k / 32];
        BlockQ8_0::from_float(&lhs[r * k..(r + 1) * k], &mut act, &op, &narrow);
        for c in 0..n {
            let row = &rhs_t[c * k / 128..(c + 1) * k / 128];
            assert_eq!(dst[r * n + c], vec_dot_q2_0_q8_0(k, row, &act, &op));
        }
    }
    assert!(dst[m * n..].iter().all(|&x| x == 123));
}

#[test]
fn matmul_refuses_bad_shapes() {
    let rhs_t = vec![BlockQ2_0::zeros(); 8];
    let mut dst = vec![5u32; 4];
    let lhs = vec![0u32; 200];
    let e = matmul_q2_0((2, 100, 2), &lhs, &rhs_t, &mut dst, &op, &narrow).unwrap_err();
    assert_eq!(e, MatmulError::RowLength { dtype: GgmlDType::Q2_0, k: 100 });
    assert_eq!(e.message(), "Q2_0 matmul requires k (100) to be a multiple of 128");
    let e = matmul_q2_0((2, 128, 2), &lhs, &rhs_t, &mut dst, &op, &narrow).unwrap_err();
    assert_eq!(e, MatmulError::LhsLength { len: 200, m: 2, k: 128, n: 2 });
    assert_eq!(e.message(), "unexpected lhs length 200 for (2,128,2)");
    let e = matmul_q2_0((usize::MAX, 128, 0), &lhs, &rhs_t, &mut dst, &op, &narrow).unwrap_err();
    assert_eq!(e, MatmulError::LhsLength { len: 200, m: usize::MAX, k: 128, n: 0 });
    assert_eq!(dst, vec![5u32; 4]);
    assert_eq!(matmul_q2_0((0, 128, 9), &[], &[], &mut dst, &op, &narrow), Ok(()));
    assert_eq!(matmul_q2_0((3, 0, 1), &[], &[], &mut dst, &op, &narrow), Ok(()));
    assert_eq!(dst, vec![0, 0, 0, 5]);
}

#[test]
fn scale_and_codes_are_ternary() {
    for seed in 0..20 {
        let w = noise(seed, QK2_0);
        let mut arr = [0f32; QK2_0];
        arr.copy_from_slice(&w);
        let block = quantize(&arr);
        let most = w.iter().fold(0.0f32, |m, x| m.max(x.abs()));
        assert_eq!(block.d, narrow(most.to_bits()));
        for e in 0..QK2_0 {
            assert!((block.qs[e / 4] >> (2 * (e % 4))) & 3 < 3);
        }
    }
    assert_eq!(BlockQ2_0::DTYPE, GgmlDType::Q2_0);
    assert_eq!(BlockQ2_0::BLCK_SIZE, 128);
}

#[test]
fn every_bit_of_a_block_counts() {
    let mut block = BlockQ2_0::zeros();
    block.d = 0x3c00;
    for i in 0..32 {
        block.qs[i] = (i * 57 + 3) as u8;
    }
    let mut plain = [0u32; QK2_0];
    BlockQ2_0::to_float(&[block], &mut plain);
    for i in 0..32 {
        for bit in 0..8 {
            let mut other = block;
            other.qs[i] ^= 1 << bit;
            let mut changed = [0u32; QK2_0];
            BlockQ2_0::to_float(&[other], &mut changed);
            for e in 0..QK2_0 {
                assert_eq!(plain[e] != changed[e], e == 4 * i + bit / 2);
            }
        }
    }
}

#[test]
fn matmul_is_dense_where_nothing_rounds() {
    let (m, k, n) = (2usize, 128usize, 3usize);
    let lhs: Vec<f32> = (0..m * k)
        .map(|e| if e % 32 == 0 { 127.0 } else { ((e * 31) % 255) as f32 - 127.0 })
        .collect();
    let w: Vec<f32> = (0..n * k)
        .map(|e| ((e * e + e / 3) % 3) as f32 - 1.0)
        .collect();
    let mut rhs_t = vec![BlockQ2_0::zeros(); n];
    BlockQ2_0::from_float(&bits(&w), &mut rhs_t, &op, &narrow);
    let mut dst = vec![0u32; m * n];
    matmul_q2_0((m, k, n), &bits(&lhs), &rhs_t, &mut dst, &op, &narrow).unwrap();
    for r in 0..m {
        for c in 0..n {
            let dense: f32 = (0..k).map(|i| lhs[r * k + i] * w[c * k + i]).sum();
            assert_eq!(f32::from_bits(dst[r * n + c]), dense);
        }
    }
}

fn code(block: &BlockQ2_0, e: usize) -> u8 {
    (block.qs[e / 4] >> (2 * (e % 4))) & 3
}

#[test]
fn half_the_scale_is_rounded_up() {
    let mut weights = [0.0f32; QK2_0];
    weights[0] = 41.0;
    weights[1] = 20.5;
    let block = quantize(&weights);
    assert_eq!(scale(&block), 41.0);
    assert_eq!(block.qs[0], 0x5a);
    assert!(block.qs[1..].iter().all(|&b| b == 0x55));

    let tiny = f32::from_bits(5);
    let mut weights = [0.0f32; QK2_0];
    weights[0] = tiny;
    weights[1] = f32::from_bits(2);
    weights[2] = -f32::from_bits(3);
    let block = quantize(&weights);
    assert_eq!((code(&block, 0), code(&block, 1), code(&block, 2), code(&block, 3)), (2, 1, 0, 1));
}

#[test]
fn codes_are_nearest_and_ordered() {
    for seed in 0..40 {
        let mut weights = [0f32; QK2_0];
        weights.copy_from_slice(&noise(seed, QK2_0));
        let most = weights.iter().fold(0.0f32, |m, x| m.max(x.abs()));
        weights[4] = most;
        weights[5] = most / 2.0;
        weights[6] = f32::from_bits((most / 2.0).to_bits() - 1);
        weights[7] = -weights[5];
        weights[8] = -weights[6];
        let block = quantize(&weights);
        for e in 0..QK2_0 {
            let w = weights[e] as f64;
            let want = if 2.0 * w.abs() < most as f64 {
                1
            } else if w < 0.0 {
                0
            } else {
                2
            };
            assert_eq!(code(&block, e), want);
        }
        for a in 0..QK2_0 {
            for b in 0..QK2_0 {
                assert!(weights[a] > weights[b] || code(&block, a) <= code(&block, b));
            }
        }
    }
}

#[test]
fn negated_weights_mirror_the_codes() {
    for seed in 0..20 {
        let mut weights = [0f32; QK2_0];
        weights.copy_from_slice(&noise(seed, QK2_0));
        weights[9] = [f32::NAN, f32::INFINITY, 0.0, -0.0, 1e30][seed as usize % 5];
        let p = quantize(&weights);
        let q = quantize(&weights.map(|w| -w));
        assert_eq!(p.d, q.d);
        for e in 0..QK2_0 {
            assert_eq!(code(&q, e), 2 - code(&p, e));
        }
    }
}

#[test]
fn quantizing_what_was_unpacked_changes_nothing() {
    let mut weights = noise(3, QK2_0 * 6);
    for w in &mut weights[QK2_0..2 * QK2_0] {
        *w = 0.0;
    }
    for w in &mut weights[2 * QK2_0..3 * QK2_0] {
        *w *= 65504.0;
    }
    for w in &mut weights[3 * QK2_0..4 * QK2_0] {
        *w *= 1e-6;
    }
    let small = 2.0f32.powi(-24);
    for w in &mut weights[4 * QK2_0..5 * QK2_0] {
        *w = if *w > 0.3 { small } else { 0.0 };
    }
    let mut first = vec![BlockQ2_0::zeros(); 6];
    BlockQ2_0::from_float(&bits(&weights), &mut first, &op, &narrow);
    let mut back = vec![0u32; weights.len()];
    BlockQ2_0::to_float(&first, &mut back);
    let mut second = vec![BlockQ2_0::zeros(); 6];
    BlockQ2_0::from_float(&back, &mut second, &op, &narrow);
    for (a, b) in first.iter().zip(&second) {
        assert_eq!((a.d, a.qs), (b.d, b.qs));
    }
}

fn operands(n: usize) -> (Vec<BlockQ2_0>, Vec<BlockQ8_0>) {
    let mut xs = vec![BlockQ2_0::zeros(); n / 128];
    BlockQ2_0::from_float(&bits(&noise(11, n)), &mut xs, &op, &narrow);
    for (i, x) in xs.iter_mut().enumerate() {
        x.d ^= if i % 3 == 0 { 0x8000 } else { 0 };
        x.qs[i % 32] = (i * 91) as u8;
    }
    let mut ys = vec![BlockQ8_0::zeros(); n / 32];
    BlockQ8_0::from_float(&bits(&noise(12, n)), &mut ys, &op, &narrow);
    (xs, ys)
}

#[test]
fn dot_splits_at_block_boundaries() {
    let n = 2048;
    let (mut xs, mut ys) = operands(n);
    xs[4].d = 0x8000;
    for y in &mut ys[28..32] {
        y.qs = [0; 32];
    }
    assert_eq!(vec_dot_q2_0_q8_0(0, &xs, &ys, &op), 0);
    for a in 0..n / 128 {
        let p = vec_dot_q2_0_q8_0(128 * a, &xs, &ys, &op);
        let q = vec_dot_q2_0_q8_0(128, &xs[a..], &ys[4 * a..], &op);
        let whole = vec_dot_q2_0_q8_0(128 * (a + 1), &xs, &ys, &op);
        assert_eq!(whole, op(Op::Add, p, q));
    }
}

#[test]
fn negated_activations_negate_the_dot() {
    let n = 1024;
    let (xs, ys) = operands(n);
    let mut mirror = ys.clone();
    for y in &mut mirror {
        for q in &mut y.qs {
            *q = -*q;
        }
    }
    for nb in 0..=n / 128 {
        let r = f32::from_bits(vec_dot_q2_0_q8_0(128 * nb, &xs, &ys, &op));
        let m = f32::from_bits(vec_dot_q2_0_q8_0(128 * nb, &xs, &mirror, &op));
        assert_eq!(m, -r);
    }
}

#[test]
fn dot_is_near_the_dense_dot() {
    for n in [128usize, 1024, 16384] {
        let (xs, ys) = operands(n);
        let mut w = vec![0u32; n];
        BlockQ2_0::to_float(&xs, &mut w);
        let (mut dense, mut sizes) = (0.0f64, 0.0f64);
        for e in 0..n {
            let y = &ys[e / 32];
            let a = half::f16::from_bits(y.d).to_f64() * y.qs[e % 32] as f64;
            let t = f32::from_bits(w[e]) as f64 * a;
            dense += t;
            sizes += t.abs();
        }
        let got = f32::from_bits(vec_dot_q2_0_q8_0(n, &xs, &ys, &op)) as f64;
        let bound = (n / 128 + 8) as f64 / 8388608.0 * sizes;
        assert!((got - dense).abs() <= bound);
    }
}

#[test]
fn matmul_is_near_the_dense_product() {
    let (m, k, n) = (3usize, 512usize, 4usize);
    let lhs = bits(&noise(21, m * k));
    let mut rhs_t = vec![BlockQ2_0::zeros(); n * k / 128];
    BlockQ2_0::from_float(&bits(&noise(22, n * k)), &mut rhs_t, &op, &narrow);
    let mut w = vec![0u32; n * k];
    BlockQ2_0::to_float(&rhs_t, &mut w);
    let mut act = vec![BlockQ8_0::zeros(); m * k / 32];
    BlockQ8_0::from_float(&lhs, &mut act, &op, &narrow);
    let mut dst = vec![0u32; m * n];
    matmul_q2_0((m, k, n), &lhs, &rhs_t, &mut dst, &op, &narrow).unwrap();
    for r in 0..m {
        for c in 0..n {
            let (mut dense, mut sizes) = (0.0f64, 0.0f64);
            for i in 0..k {
                let y = &act[(r * k + i) / 32];
                let a = half::f16::from_bits(y.d).to_f64() * y.qs[i % 32] as f64;
                let t = f32::from_bits(w[c * k + i]) as f64 * a;
                dense += t;
                sizes += t.abs();
            }
            let got = f32::from_bits(dst[r * n + c]) as f64;
            assert!((got - dense).abs() <= (k / 128 + 8) as f64 / 8388608.0 * sizes);
        }
    }
}

#[test]
fn scales_are_equal_as_numbers() {
    let zero = BlockQ2_0::zeros();
    let minus = BlockQ2_0 { d: 0x8000, qs: [0; 32] };
    let nan = BlockQ2_0 { d: 0x7e00, qs: [0; 32] };
    assert!(zero == minus);
    assert!(nan != nan);
    assert!(nan != zero);
    assert!(zero == zero);
    assert!(zero != BlockQ2_0 { d: 1, qs: [0; 32] });
    let mut other = zero;
    other.qs[31] = 1;
    assert!(zero != other);
    let act = BlockQ8_0::zeros();
    assert!(act == BlockQ8_0 { d: 0x8000, qs: [0; 32] });
    assert!(act != BlockQ8_0 { d: 0xfe00, qs: [0; 32] });
    let mut other = act;
    other.qs[31] = -1;
    assert!(act != other);
}

#[test]
fn ternary_weights_survive_to_half_precision() {
    for s in [1.3f32, 0.9, 0.7, 6.2e-5, 12345.678, 65519.0, 1e-5, 3e-8, 1e-12] {
        let mut weights = [0.0f32; QK2_0];
        for e in 0..QK2_0 {
            weights[e] = ((e * 5 % 3) as i32 - 1) as f32 * s;
        }
        let mut back = [0u32; QK2_0];
        BlockQ2_0::to_float(&[quantize(&weights)], &mut back);
        for e in 0..QK2_0 {
            let off = (f32::from_bits(back[e]) as f64 - weights[e] as f64).abs();
            assert!(off * 2048.0 <= s as f64 || (s < 6.1e-5 && off <= 2.0f64.powi(-25)));
        }
    }
}

#[test]
fn ternary_dot_is_near_the_dense_dot_of_the_input() {
    let (nb, n) = (3usize, 384usize);
    let scales = [0.7f32, 1.3, 0.011];
    let weights: Vec<f32> = (0..n)
        .map(|e| ((e * 7 + e / 5) % 3) as f32 * scales[e / 128] - scales[e / 128])
        .collect();
    let acts = noise(31, n);
    let mut xs = vec![BlockQ2_0::zeros(); nb];
    BlockQ2_0::from_float(&bits(&weights), &mut xs, &op, &narrow);
    let mut ys = vec![BlockQ8_0::zeros(); 4 * nb];
    BlockQ8_0::from_float(&bits(&acts), &mut ys, &op, &narrow);
    let mut unpacked = vec![0u32; n];
    BlockQ2_0::to_float(&xs, &mut unpacked);
    let (mut raw, mut input, mut sizes, mut steps, mut met) = (0.0f64, 0.0, 0.0, 0.0, 0.0);
    for e in 0..n {
        let w = f32::from_bits(unpacked[e]) as f64;
        let most = acts[e / 32 * 32..e / 32 * 32 + 32].iter().fold(0.0f32, |m, x| m.max(x.abs()));
        let near = half::f16::from_bits(ys[e / 32].d).to_f64() * ys[e / 32].qs[e % 32] as f64;
        raw += weights[e] as f64 * acts[e] as f64;
        input += w * acts[e] as f64;
        sizes += (w * near).abs();
        steps += w.abs() * (most / 127.0).max(2.0f32.powi(-14)) as f64;
        met += scales[e / 128] as f64 * acts[e].abs() as f64;
    }
    let got = f32::from_bits(vec_dot_q2_0_q8_0(n, &xs, &ys, &op)) as f64;
    let bound = (nb + 8) as f64 / 8388608.0 * sizes + 9.0 / 16.0 * steps;
    assert!((got - input).abs() <= bound);
    assert!((got - raw).abs() <= bound + met / 2048.0);

    let mut dst = vec![0u32; 1];
    matmul_q2_0((1, n, 1), &bits(&acts), &xs, &mut dst, &op, &narrow).unwrap();
    assert!((f32::from_bits(dst[0]) as f64 - input).abs() <= bound);
}
