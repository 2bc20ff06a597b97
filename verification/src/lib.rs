//! Streaming convolution: a fixed impulse response is applied to a stream of
//! samples that arrives in blocks, and the blocks' outputs, followed by what
//! `flush` hands over, are the linear convolution of the whole stream with
//! the impulse response, however the stream was cut into blocks.
//!
//! The sample type is a parameter: anything that can be copied, has a default
//! value, taken as zero, and can be added and multiplied. What the engine
//! computes is stated over the sample type's own sums and products; the laws
//! of convolution are proved for every sample type whose sums and products
//! keep the laws that each proof names.
//!
//! - [`ring_buffer`]: the circular sample buffer that holds the tail.
//! - [`fast_convolver`]: the engine, in the time domain and partitioned.
//! - [`convolution`]: what a sample of a result is.
//! - [`algebra`]: the laws of sums and products that the proofs rest on.
//! - [`streaming`]: the laws of block convolution.
//! - [`partitioning`]: why partitioning the impulse response changes nothing.
//! - [`sample`]: a sample type with exact arithmetic that keeps every law.

pub mod algebra;
pub mod convolution;
pub mod fast_convolver;
pub mod partitioning;
pub mod ring_buffer;
pub mod sample;
pub mod streaming;
