//! Low-bit-width quantization for tensor storage, and a kernel that applies
//! reproducible stochastic dropout directly over the packed representation.
//!
//! Values are carried as fixed-point numbers ([`fixed::Fx`], mantissa over a
//! power-of-two scale), so every conversion between values and 4-bit codes is
//! exact integer arithmetic with a proved rounding and clamping policy.

pub mod dropout;
pub mod fixed;
pub mod quantize;
pub mod rng;
pub mod storage;

pub use fixed::Fx;
pub use quantize::{HalfByteConstructionError, OffsetQuant, Quantize, ScaledQuant, u4};
