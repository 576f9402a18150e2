//! Tests of the 1-bit format.
use lowbit_quants::arith::Op;
use lowbit_quants::dtype::GgmlDType;
use lowbit_quants::error::MatmulError;
use lowbit_quants::k_quants_q1_0_g128::{
    matmul_q1_0_g128, quantize_block_q1_0_g128, vec_dot_q1_0_g128_q8_0, BlockQ1_0_g128, QK1_0_G128,
};
use lowbit_quants::q8_0::BlockQ8_0;

fn op(o: Op, a: u32, b: u32) -> u32 {
    let (a, b) = (f32::from_bits(a), f32::from_bits(b));
    let r = match o {
        Op::Add => a + b,
        Op::Mul => a * b,
        Op::Div => a / b,
    };
    r.to_bits()
}

fn narrow(x: u32) -> u16 {
    half::f16::from_f32(f32::from_bits(x)).to_bits()
}

fn bits(xs: &[f32]) -> Vec<u32> {
    xs.iter().map(|x| x.to_bits()).collect()
}

fn floats(xs: &[u32]) -> Vec<f32> {
    xs.iter().map(|&x| f32::from_bits(x)).collect()
}

fn quantize(weights: &[f32; QK1_0_G128]) -> BlockQ1_0_g128 {
    quantize_block_q1_0_g128(&weights.map(f32::to_bits), &op, &narrow)
}

fn noise(seed: u64, n: usize) -> Vec<f32> {
    let mut state = seed;
    (0..n)
        .map(|_| {
            state = state.wrapping_mul(6364136223846793005).wrapping_add(1442695040888963407);
            ((state >> 40) as f32) / 8388608.0 - 1.0
        })
        .collect()
}

fn reference_quantize(weights: &[f32]) -> (u16, [u8; 16]) {
    let amean = weights.iter().map(|w| w.abs()).sum::<f32>() / 128.0;
    let scale = if amean > 0.0 { amean } else { 1.0 };
    let mut qs = [0u8; 16];
    for (e, &w) in weights.iter().enumerate() {
        if w >= 0.0 {
            qs[e / 8] |= 1 << (e % 8);
        }
    }
    (half::f16::from_f32(scale).to_bits(), qs)
}

fn reference_dot(n: usize, xs: &[BlockQ1_0_g128], ys: &[BlockQ8_0]) -> f32 {
    let mut sumf = 0.0f32;
    for i in 0..n / 128 {
        let mut sumi = 0.0f32;
        for k in 0..4 {
            let yb = &ys[i * 4 + k];
            let mut sum: i32 = 0;
            for j in 0..32 {
                let e = 32 * k + j;
                let q = yb.qs[j] as i32;
                sum += if (xs[i].qs[e / 8] >> (e % 8)) & 1 == 1 { q } else { -q };
            }
            sumi += half::f16::from_bits(yb.d).to_f32() * sum as f32;
        }
        sumf += half::f16::from_bits(xs[i].d).to_f32() * sumi;
    }
    sumf
}

#[test]
fn q1_0_dot_matches_dense() {
    let s = 0.6f32;
    let mut weights = [0.0f32; QK1_0_G128];
    let mut acts = [0.0f32; QK1_0_G128];
    for e in 0..QK1_0_G128 {
        weights[e] = if (e * 5 + 1) % 2 == 0 { s } else { -s };
        acts[e] = (((e as f32) * 0.11).cos()) * (1.0 + (e % 6) as f32);
    }
    let dense: f32 = weights.iter().zip(acts.iter()).map(|(w, a)| w * a).sum();

    let xb = quantize(&weights);
    let mut yb = vec![BlockQ8_0::zeros(); 4];
    BlockQ8_0::from_float(&bits(&acts), &mut yb, &op, &narrow);
    let got = f32::from_bits(vec_dot_q1_0_g128_q8_0(QK1_0_G128, &[xb], &yb, &op));

    let abs_terms: f32 = weights
        .iter()
        .zip(acts.iter())
        .map(|(w, a)| (w * a).abs())
        .sum();
    assert!(
        (got - dense).abs() < 0.03 * abs_terms,
        "q1_0 dot {got} vs dense {dense}"
    );
}

#[test]
fn q1_0_qmatmul_end_to_end() {
    let (out, k, m) = (4usize, 256usize, 2usize);
    let s = 0.6f32;
    let w: Vec<f32> = (0..out * k)
        .map(|e| if (e * 3 + 1) % 2 == 0 { s } else { -s })
        .collect();
    let mut qt = vec![BlockQ1_0_g128::zeros(); out * k / QK1_0_G128];
    BlockQ1_0_g128::from_float(&bits(&w), &mut qt, &op, &narrow);

    let x: Vec<f32> = (0..m * k).map(|e| ((e as f32) * 0.05).sin()).collect();
    let mut dst = vec![0u32; m * out];
    BlockQ1_0_g128::matmul_t((m, k, out), &bits(&x), &qt, &mut dst, &op, &narrow).unwrap();
    let got = floats(&dst);

    for r in 0..m {
        for c in 0..out {
            let dense: f32 = (0..k).map(|i| x[r * k + i] * w[c * k + i]).sum();
            let abs_terms: f32 = (0..k).map(|i| (x[r * k + i] * w[c * k + i]).abs()).sum();
            assert!(
                (got[r * out + c] - dense).abs() < 0.05 * abs_terms.max(1e-3),
                "[{r}][{c}] {} vs {}",
                got[r * out + c],
                dense
            );
        }
    }
}

#[test]
fn q1_0_dtype_id_roundtrips() {
    assert_eq!(GgmlDType::Q1_0_g128.to_u32(), 41);
    assert_eq!(GgmlDType::from_u32(41).unwrap(), GgmlDType::Q1_0_g128);
    assert_eq!(GgmlDType::Q1_0_g128.block_size(), QK1_0_G128);
}

#[test]
fn unregistered_type_numbers_are_refused() {
    assert_eq!(GgmlDType::from_u32(40), None);
    assert_eq!(GgmlDType::from_u32(43), None);
    assert_eq!(GgmlDType::from_u32(u32::MAX), None);
    assert_eq!(
        GgmlDType::Q1_0_g128.type_size(),
        std::mem::size_of::<BlockQ1_0_g128>()
    );
    assert_eq!(BlockQ1_0_g128::DTYPE.type_size(), 18);
    assert_eq!(BlockQ1_0_g128::BLCK_SIZE, 128);
}

#[test]
fn bipolar_weights_survive_exactly() {
    for s in [0.5f32, 1.0, 3.0, 0.0999755859375, 1024.0] {
        let mut weights = [0.0f32; QK1_0_G128];
        for e in 0..QK1_0_G128 {
            weights[e] = if e * e % 7 < 3 { s } else { -s };
        }
        let block = quantize(&weights);
        let mut back = [0u32; QK1_0_G128];
        BlockQ1_0_g128::to_float(&[block], &mut back);
        assert_eq!(floats(&back), weights.to_vec());
    }
}

#[test]
fn unpacked_blocks_pack_to_the_same_bits() {
    for i in 0..64usize {
        let mut block = BlockQ1_0_g128::zeros();
        block.d = 1 + (i * 495) as u16;
        for j in 0..16 {
            block.qs[j] = (i * 83 + j * 151) as u8;
        }
        let mut back = [0u32; QK1_0_G128];
        BlockQ1_0_g128::to_float(&[block], &mut back);
        let again = quantize_block_q1_0_g128(&back, &op, &narrow);
        assert_eq!((again.d, again.qs), (block.d, block.qs));
    }
}

#[test]
fn one_bit_quantizing_agrees_with_float_code() {
    let mut cases: Vec<Vec<f32>> = (0..50).map(|i| noise(i, QK1_0_G128)).collect();
    cases.push(vec![0.0; QK1_0_G128]);
    cases.push(vec![-0.0; QK1_0_G128]);
    cases.push(vec![f32::NAN; QK1_0_G128]);
    for odd in [f32::NAN, f32::INFINITY, f32::NEG_INFINITY, -0.0, 1e-45, 3e38] {
        let mut w = noise(99, QK1_0_G128);
        w[17] = odd;
        w[18] = odd;
        cases.push(w);
    }
    for w in cases {
        let mut arr = [0f32; QK1_0_G128];
        arr.copy_from_slice(&w);
        let block = quantize(&arr);
        assert_eq!((block.d, block.qs), reference_quantize(&w));
    }
}

#[test]
fn bits_unpack_to_the_scale_and_its_negation() {
    let mut block = BlockQ1_0_g128::zeros();
    for j in 0..16 {
        block.qs[j] = (j * 73 + 29) as u8;
    }
    for d in [0x3c00u16, 0xbc00, 0x0001, 0x83ff, 0x7bff, 0x0000, 0x8000, 0x7c00] {
        block.d = d;
        let wide = half::f16::from_bits(d).to_f32();
        let mut back = [0u32; QK1_0_G128];
        BlockQ1_0_g128::to_float(&[block], &mut back);
        for e in 0..QK1_0_G128 {
            let set = (block.qs[e / 8] >> (e % 8)) & 1 == 1;
            let want = if set { wide } else { -wide };
            assert_eq!(back[e], want.to_bits());
        }
    }
}

#[test]
fn one_bit_conversions_take_whole_blocks_only() {
    let weights = bits(&noise(5, QK1_0_G128 * 2 + 127));
    let mut blocks = vec![BlockQ1_0_g128 { d: 7, qs: [9; 16] }; 3];
    BlockQ1_0_g128::from_float(&weights, &mut blocks, &op, &narrow);
    assert!(blocks[0].d != 7 && blocks[1].d != 7);
    assert_eq!(blocks[2], BlockQ1_0_g128 { d: 7, qs: [9; 16] });
    let mut back = vec![77u32; QK1_0_G128 - 1];
    BlockQ1_0_g128::to_float(&blocks, &mut back);
    assert!(back.iter().all(|&x| x == 77));
}

#[test]
fn one_bit_dot_agrees_with_float_code_to_the_bit() {
    let n = 1024;
    let mut xs = vec![BlockQ1_0_g128::zeros(); n / 128];
    BlockQ1_0_g128::from_float(&bits(&noise(1, n)), &mut xs, &op, &narrow);
    let mut ys = vec![BlockQ8_0::zeros(); n / 32];
    BlockQ8_0::from_float(&bits(&noise(2, n)), &mut ys, &op, &narrow);
    ys[12].qs = [-128; 32];
    let want = reference_dot(n, &xs, &ys).to_bits();
    assert_eq!(vec_dot_q1_0_g128_q8_0(n, &xs, &ys, &op), want);
    assert_eq!(BlockQ1_0_g128::vec_dot(n, &xs, &ys, &op), want);
    assert_eq!(BlockQ1_0_g128::vec_dot_unopt(n, &xs, &ys, &op), want);
}

#[test]
fn one_bit_matmul_elements_are_dots() {
    let (m, k, n) = (3usize, 384usize, 37usize);
    let lhs = bits(&noise(7, m * k));
    let mut rhs_t = vec![BlockQ1_0_g128::zeros(); n * k / 128];
    BlockQ1_0_g128::from_float(&bits(&noise(8, n * k)), &mut rhs_t, &op, &narrow);
    let mut dst = vec![123u32; m * n + 4];
    assert_eq!(
        matmul_q1_0_g128((m, k, n), &lhs, &rhs_t, &mut dst, &op, &narrow),
        Ok(())
    );
    for r in 0..m {
        let mut act = vec![BlockQ8_0::zeros(); k / 32];
        BlockQ8_0::from_float(&lhs[r * k..(r + 1) * k], &mut act, &op, &narrow);
        for c in 0..n {
            let row = &rhs_t[c * k / 128..(c + 1) * k / 128];
            let want = reference_dot(k, row, &act).to_bits();
            assert_eq!(dst[r * n + c], want);
        }
    }
    assert!(dst[m * n..].iter().all(|&x| x == 123));
}

#[test]
fn one_bit_matmul_refuses_bad_shapes() {
    let rhs_t = vec![BlockQ1_0_g128::zeros(); 8];
    let mut dst = vec![5u32; 4];
    let lhs = vec![0u32; 1234];
    let e = matmul_q1_0_g128((2, 617, 2), &lhs, &rhs_t, &mut dst, &op, &narrow).unwrap_err();
    assert_eq!(e, MatmulError::RowLength { dtype: GgmlDType::Q1_0_g128, k: 617 });
    assert_eq!(
        e.message(),
        "Q1_0_g128 matmul requires k (617) to be a multiple of 128"
    );
    let e = matmul_q1_0_g128((10, 128, 0), &lhs, &rhs_t, &mut dst, &op, &narrow).unwrap_err();
    assert_eq!(e, MatmulError::LhsLength { len: 1234, m: 10, k: 128, n: 0 });
    assert_eq!(e.message(), "unexpected lhs length 1234 for (10,128,0)");
    assert_eq!(dst, vec![5u32; 4]);
}

fn operands(n: usize) -> (Vec<BlockQ1_0_g128>, Vec<BlockQ8_0>) {
    let mut xs = vec![BlockQ1_0_g128::zeros(); n / 128];
    BlockQ1_0_g128::from_float(&bits(&noise(11, n)), &mut xs, &op, &narrow);
    for (i, x) in xs.iter_mut().enumerate() {
        x.d ^= if i % 3 == 0 { 0x8000 } else { 0 };
    }
    let mut ys = vec![BlockQ8_0::zeros(); n / 32];
    BlockQ8_0::from_float(&bits(&noise(12, n)), &mut ys, &op, &narrow);
    (xs, ys)
}

#[test]
fn one_bit_dot_splits_at_block_boundaries() {
    let n = 2048;
    let (mut xs, ys) = operands(n);
    xs[4].d = 0x8000;
    assert_eq!(vec_dot_q1_0_g128_q8_0(0, &xs, &ys, &op), 0);
    for a in 0..n / 128 {
        let p = vec_dot_q1_0_g128_q8_0(128 * a, &xs, &ys, &op);
        let q = vec_dot_q1_0_g128_q8_0(128, &xs[a..], &ys[4 * a..], &op);
        let whole = vec_dot_q1_0_g128_q8_0(128 * (a + 1), &xs, &ys, &op);
        assert_eq!(whole, op(Op::Add, p, q));
    }
}

#[test]
fn flipped_bits_negate_the_dot() {
    let n = 1024;
    let (xs, ys) = operands(n);
    let mut mirror = xs.clone();
    for x in &mut mirror {
        for b in &mut x.qs {
            *b = !*b;
        }
    }
    for nb in 0..=n / 128 {
        let r = f32::from_bits(vec_dot_q1_0_g128_q8_0(128 * nb, &xs, &ys, &op));
        let m = f32::from_bits(vec_dot_q1_0_g128_q8_0(128 * nb, &mirror, &ys, &op));
        assert_eq!(m, -r);
    }
}

#[test]
fn one_bit_dot_is_near_the_dense_dot() {
    for n in [128usize, 1024, 16384] {
        let (xs, ys) = operands(n);
        let mut w = vec![0u32; n];
        BlockQ1_0_g128::to_float(&xs, &mut w);
        let (mut dense, mut sizes) = (0.0f64, 0.0f64);
        for e in 0..n {
            let y = &ys[e / 32];
            let a = half::f16::from_bits(y.d).to_f64() * y.qs[e % 32] as f64;
            let t = f32::from_bits(w[e]) as f64 * a;
            dense += t;
            sizes += t.abs();
        }
        let got = f32::from_bits(vec_dot_q1_0_g128_q8_0(n, &xs, &ys, &op)) as f64;
        assert!((got - dense).abs() <= (n / 128 + 8) as f64 / 8388608.0 * sizes);
    }
}

#[test]
fn one_bit_scales_are_equal_as_numbers() {
    let zero = BlockQ1_0_g128::zeros();
    let nan = BlockQ1_0_g128 { d: 0xfe01, qs: [0; 16] };
    assert!(zero == BlockQ1_0_g128 { d: 0x8000, qs: [0; 16] });
    assert!(nan != nan);
    assert!(zero != BlockQ1_0_g128 { d: 0, qs: [1; 16] });
    assert!(zero != BlockQ1_0_g128 { d: 0x3c00, qs: [0; 16] });
}

#[test]
fn bipolar_weights_survive_to_half_precision() {
    for s in [0.6f32, 1.3, 0.9, 6.2e-5, 12345.678, 65504.0] {
        let mut weights = [0.0f32; QK1_0_G128];
        for e in 0..QK1_0_G128 {
            weights[e] = if e * e % 7 < 3 { s } else { -s };
        }
        let mut back = [0u32; QK1_0_G128];
        BlockQ1_0_g128::to_float(&[quantize(&weights)], &mut back);
        for e in 0..QK1_0_G128 {
            let r = f32::from_bits(back[e]);
            assert_eq!(r < 0.0, weights[e] < 0.0);
            assert!((r as f64 - weights[e] as f64).abs() * 65536.0 <= 33.0 * s as f64);
        }
    }
}

#[test]
fn bipolar_dot_is_near_the_dense_dot_of_the_input() {
    let (nb, n) = (3usize, 384usize);
    let scales = [0.6f32, 1.3, 0.011];
    let weights: Vec<f32> = (0..n)
        .map(|e| if (e * 7 + e / 5) % 3 == 0 { scales[e / 128] } else { -scales[e / 128] })
        .collect();
    let acts = noise(31, n);
    let mut xs = vec![BlockQ1_0_g128::zeros(); nb];
    BlockQ1_0_g128::from_float(&bits(&weights), &mut xs, &op, &narrow);
    let mut ys = vec![BlockQ8_0::zeros(); 4 * nb];
    BlockQ8_0::from_float(&bits(&acts), &mut ys, &op, &narrow);
    let mut unpacked = vec![0u32; n];
    BlockQ1_0_g128::to_float(&xs, &mut unpacked);
    let (mut raw, mut input, mut sizes, mut steps, mut met) = (0.0f64, 0.0, 0.0, 0.0, 0.0);
    for e in 0..n {
        let w = f32::from_bits(unpacked[e]) as f64;
        let most = acts[e / 32 * 32..e / 32 * 32 + 32].iter().fold(0.0f32, |m, x| m.max(x.abs()));
        let near = half::f16::from_bits(ys[e / 32].d).to_f64() * ys[e / 32].qs[e % 32] as f64;
        raw += weights[e] as f64 * acts[e] as f64;
        input += w * acts[e] as f64;
        sizes += (w * near).abs();
        steps += w.abs() * (most / 127.0).max(2.0f32.powi(-14)) as f64;
        met += scales[e / 128] as f64 * acts[e].abs() as f64;
    }
    let got = f32::from_bits(vec_dot_q1_0_g128_q8_0(n, &xs, &ys, &op)) as f64;
    let bound = (nb + 8) as f64 / 8388608.0 * sizes + 9.0 / 16.0 * steps;
    assert!((got - input).abs() <= bound);
    assert!((got - raw).abs() <= bound + 33.0 / 65536.0 * met);
}
