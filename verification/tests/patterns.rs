//! Tests of the number patterns and of the activation blocks.
use lowbit_quants::arith::Op;
use lowbit_quants::binary16;
use lowbit_quants::binary32;
use lowbit_quants::error::MatmulError;
use lowbit_quants::q8_0::{quantize_block_q8_0, BlockQ8_0};

fn op(o: Op, a: u32, b: u32) -> u32 {
    let (a, b) = (f32::from_bits(a), f32::from_bits(b));
    let r = match o {
        Op::Add => a + b,
        Op::Mul => a * b,
        Op::Div => a / b,
    };
    r.to_bits()
}

fn narrow(x: u32) -> u16 {
    half::f16::from_f32(f32::from_bits(x)).to_bits()
}

#[test]
fn widening_agrees_with_half_on_all_patterns() {
    for h in 0..=u16::MAX {
        let want = half::f16::from_bits(h).to_f32_const().to_bits();
        assert_eq!(binary16::widen(h), want);
        let native = half::f16::from_bits(h).to_f32();
        assert!(native.is_nan() || native.to_bits() == want);
    }
}

#[test]
fn widening_gives_known_values() {
    assert_eq!(binary16::widen(0x3c00), 1.0f32.to_bits());
    assert_eq!(binary16::widen(0xc000), (-2.0f32).to_bits());
    assert_eq!(binary16::widen(0x0001), 5.9604645e-8f32.to_bits());
    assert_eq!(binary16::widen(0x7bff), 65504.0f32.to_bits());
    assert_eq!(binary16::widen(0x8000), (-0.0f32).to_bits());
    assert_eq!(binary16::widen(0x7c00), f32::INFINITY.to_bits());
}

#[test]
fn integers_have_the_pattern_of_a_cast() {
    for s in -9000..=9000 {
        assert_eq!(binary32::from_integer(s), (s as f32).to_bits());
    }
    for s in [0xff_ffff, -0xff_ffff, 0x80_0000, 0x7f_ffff, -0x80_0000] {
        assert_eq!(binary32::from_integer(s), (s as f32).to_bits());
    }
}

#[test]
fn rounding_agrees_with_round_and_clamp() {
    let mut patterns: Vec<u32> = (0..=0xffffu32).map(|i| i << 16).collect();
    for x in [0.5f32, 1.5, 2.5, 126.5, 127.5, 128.0, 0.49999997, 1e30] {
        for p in [x.to_bits() - 1, x.to_bits(), x.to_bits() + 1] {
            patterns.push(p);
            patterns.push(p | 0x8000_0000);
        }
    }
    for limit in [1u8, 2, 64, 127] {
        for &p in &patterns {
            let l = limit as f32;
            let want = f32::from_bits(p).round().clamp(-l, l) as i32;
            assert_eq!(binary32::round_clamped(p, limit), want);
        }
    }
}

#[test]
fn the_largest_magnitude_ignores_nans() {
    let nan = f32::NAN.to_bits();
    assert_eq!(binary32::max_magnitude(&[]), 0);
    assert_eq!(binary32::max_magnitude(&[nan, nan]), 0);
    let xs: Vec<u32> = [1.0f32, -3.5, f32::NAN, 2.0].iter().map(|x| x.to_bits()).collect();
    assert_eq!(binary32::max_magnitude(&xs), 3.5f32.to_bits());
    let ys: Vec<u32> = [1.0f32, f32::NEG_INFINITY].iter().map(|x| x.to_bits()).collect();
    assert_eq!(binary32::max_magnitude(&ys), f32::INFINITY.to_bits());
}

#[test]
fn signs_and_defaults() {
    for p in (0..=0xffffu32).map(|i| i << 16) {
        let x = f32::from_bits(p);
        assert_eq!(binary32::is_at_least_zero(p), x >= 0.0);
        assert_eq!(binary32::absolute(p), x.abs().to_bits());
        assert_eq!(binary32::negated(p), (-x).to_bits());
        let want = if x > 0.0 { x } else { 1.0 };
        assert_eq!(binary32::positive_or_one(p), want.to_bits());
    }
}

#[test]
fn activations_are_rounded_to_127_steps() {
    let acts: Vec<f32> = (0..32).map(|i| (i as f32 - 16.0) * 0.25).collect();
    let bits: Vec<u32> = acts.iter().map(|x| x.to_bits()).collect();
    let block = quantize_block_q8_0(&bits, &op, &narrow);
    let d = 4.0f32 / 127.0;
    let inv = 1.0 / d;
    assert_eq!(block.d, half::f16::from_f32(d).to_bits());
    for i in 0..32 {
        assert_eq!(block.qs[i], (acts[i] * inv).round().clamp(-127.0, 127.0) as i8);
    }
    assert_eq!(block.qs[0], -127);
    let zeros = quantize_block_q8_0(&[0u32; 32], &op, &narrow);
    assert_eq!(zeros, BlockQ8_0::zeros());
}

#[test]
fn activation_blocks_are_whole() {
    let bits: Vec<u32> = (0..95).map(|i| (i as f32).to_bits()).collect();
    let mut ys = vec![BlockQ8_0 { d: 9, qs: [1; 32] }; 4];
    BlockQ8_0::from_float(&bits, &mut ys, &op, &narrow);
    assert_eq!(ys[0], quantize_block_q8_0(&bits[..32], &op, &narrow));
    assert_eq!(ys[1], quantize_block_q8_0(&bits[32..64], &op, &narrow));
    assert_eq!(ys[2], BlockQ8_0 { d: 9, qs: [1; 32] });
    assert_eq!(ys[3], BlockQ8_0 { d: 9, qs: [1; 32] });
}

#[test]
fn narrowing_keeps_what_half_precision_holds() {
    let mut seen = std::collections::HashSet::new();
    for h in 0..=u16::MAX {
        if !half::f16::from_bits(h).is_nan() {
            let wide = binary16::widen(h);
            assert!(seen.insert(wide));
            assert_eq!(narrow(wide), h);
        }
    }
}

#[test]
fn magnitudes_are_ordered_as_patterns() {
    let patterns: Vec<u32> = (0..0x7f80u32).map(|i| i << 16 | (i * 40503) & 0xffff).collect();
    for pair in patterns.windows(2) {
        assert!(pair[0] < pair[1]);
        assert!(f32::from_bits(pair[0]) < f32::from_bits(pair[1]));
    }
}

#[test]
fn a_number_times_its_inverse_rounds_to_one() {
    for i in 1..0x7f80u32 {
        let s = i << 16;
        let inv = op(Op::Div, binary32::ONE, s);
        assert_eq!(binary32::round_clamped(op(Op::Mul, s, inv), 1), 1);
        let minus = binary32::negated(s);
        assert_eq!(binary32::round_clamped(op(Op::Mul, minus, inv), 1), -1);
        assert_eq!(binary32::round_clamped(op(Op::Mul, 0, inv), 1), 0);
    }
}

#[test]
fn messages_spell_numbers_in_decimal() {
    let e = MatmulError::LhsLength { len: 0, m: 10, k: 909, n: 4294967295 };
    assert_eq!(e.message(), "unexpected lhs length 0 for (10,909,4294967295)");
    let e = MatmulError::LhsLength { len: 7, m: 100, k: 12, n: 3 };
    assert_eq!(e.message(), "unexpected lhs length 7 for (100,12,3)");
}

#[test]
fn half_precision_numbers_are_compared_by_value() {
    let patterns = [0u16, 0x8000, 1, 0x3c00, 0xbc00, 0x7c00, 0xfc00, 0x7c01, 0x7e00, 0xffff];
    for a in patterns {
        for b in patterns {
            let want = half::f16::from_bits(a) == half::f16::from_bits(b);
            assert_eq!(binary16::equal(a, b), want);
        }
    }
}

#[test]
fn narrowing_takes_back_widening_and_keeps_order() {
    for h in (0..=0x7c00u16).chain(0x8000..=0xfc00) {
        assert_eq!(narrow(binary16::widen(h)), h);
    }
    let mut last = 0u16;
    for x in (0..=0x7f80_0000u32).step_by(4099) {
        let h = narrow(x);
        assert!(last <= h && h <= 0x7c00);
        last = h;
    }
}

#[test]
fn narrowing_goes_to_the_nearest_number() {
    let half = |h: u16| half::f16::from_bits(h).to_f64();
    for x in (0..0x477f_f000u32).step_by(5003) {
        for x in [x, x & 0xffff_f000, x & 0xffff_e000] {
            let (h, v) = (narrow(x), f32::from_bits(x) as f64);
            assert!(h < 0x7c00);
            let off = (half(h) - v).abs();
            for k in [h.saturating_sub(1), (h + 1).min(0x7bff)] {
                if k != h {
                    let other = (half(k) - v).abs();
                    assert!(off < other || (off == other && h % 2 == 0));
                }
            }
            assert!(off * 2048.0 <= v || off <= 2.0f64.powi(-25));
        }
    }
    assert_eq!(narrow(0x477f_f000), 0x7c00);
    assert_eq!(narrow(0x477f_efff), 0x7bff);
}

#[test]
fn activations_are_within_9_16_of_a_step() {
    let mut state = 5u64;
    for scale in [1.0f32, 3.7, 1e-3, 1e-5, 1e-7, 1e-20, 1e-40, 60000.0, 8e6, 0.0] {
        let acts: Vec<f32> = (0..32)
            .map(|_| {
                state = state.wrapping_mul(6364136223846793005).wrapping_add(1442695040888963407);
                (((state >> 40) as f32) / 8388608.0 - 1.0) * scale
            })
            .collect();
        let patterns: Vec<u32> = acts.iter().map(|x| x.to_bits()).collect();
        let block = quantize_block_q8_0(&patterns, &op, &narrow);
        let most = acts.iter().fold(0.0f32, |m, x| m.max(x.abs()));
        let step = (most / 127.0).max(2.0f32.powi(-14)) as f64;
        for t in 0..32 {
            let near = half::f16::from_bits(block.d).to_f64() * block.qs[t] as f64;
            assert!(16.0 * (acts[t] as f64 - near).abs() <= 9.0 * step);
        }
    }
}
