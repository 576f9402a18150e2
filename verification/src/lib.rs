//! Packed low-bit weight formats and their dot and matrix kernels.
//!
//! Two formats store 128 weights per block under one half-precision scale:
//! `Q2_0` as 2-bit codes for ternary weights, and `Q1_0_g128` as sign bits. The
//! kernels multiply such blocks with activations that are quantised to `Q8_0`
//! blocks of 32 signed bytes, without unpacking the weights.
//!
//! All numbers are IEEE 754 bit patterns. What needs no rounding is computed
//! here: packing and unpacking, integer sums, magnitudes, signs, rounding to
//! integers, widening from half to single precision. The rounding operations
//! come from the caller (see [`arith`]), and the contracts say which of them are
//! applied to what, in which order.

pub mod accuracy;
pub mod arith;
pub mod binary16;
pub mod binary32;
pub mod dtype;
pub mod error;
pub mod ieee;
pub mod k_quants_q1_0_g128;
pub mod k_quants_q2_0;
pub mod kernel;
pub mod laws;
pub mod laws_q1_0_g128;
pub mod laws_q2_0;
pub mod laws_q8_0;
pub mod narrowing;
pub mod q8_0;
pub mod quants;
