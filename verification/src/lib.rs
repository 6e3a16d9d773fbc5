//! A strided, multi-dimensional array over a flat buffer of elements.
//!
//! A [`tensor::CpuTensor`] pairs a buffer with a shape and per-dimension
//! strides. Views (transpose, sub-tensor, reshape) only rewrite the shape and
//! the strides; every address they compute is proved to stay inside the buffer.

pub mod buffer;
pub mod display;
pub mod error;
pub mod iter;
pub mod laws;
pub mod layout;
pub mod model;
pub mod permutation;
pub mod tensor;
