//! Lossless and lossy coding of 16-bit integer signal recordings into a
//! self-describing `NEUR` container: block-wise linear prediction, Rice and
//! rANS entropy coding, a sparse residual representation, and a spike/VQ
//! event coder.

pub mod bits;
pub mod bytes;
pub mod coder;
pub mod container;
pub mod errors;
pub mod lpc;
pub mod rans;
pub mod simd_ops;
pub mod spike;
pub mod sparse;
