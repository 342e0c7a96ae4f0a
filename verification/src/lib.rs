//! A fixed-ratio resampler of single-precision samples.
//!
//! A virtual index walks over the input in steps of the ratio of input rate
//! to output rate; at each step one of four interpolation kernels makes an
//! output sample from the input samples around the index. Samples, the ratio
//! and the index are carried as bit patterns. The library says which steps of
//! arithmetic are taken on them and hands each step to the caller; where the
//! index lies among the input samples it reads from the bit pattern itself.

pub mod algorithms;
pub mod filedata;
pub mod fraction;
pub mod ratio;
pub mod resamplers;
pub mod single;
mod text;
