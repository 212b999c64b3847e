//! Finite-field and polynomial kernels for STARK-style proving: base and
//! cubic-extension field arithmetic, polynomial algebra and transforms,
//! row-major trace matrices, Montgomery arithmetic, a sponge hash and a
//! constraint substitution evaluator, with the conversions to and from the
//! host interpreter's value trees. Alongside: zero-filled pooled buffers, a
//! chunked table builder and the miner's message tags and key settings.

pub mod belt;
pub mod bpoly;
pub mod error;
pub mod felt;
pub mod fft;
pub mod fpoly;
pub mod inversion;
pub mod jets;
pub mod mary;
pub mod mega;
pub mod memory_pool;
pub mod mining;
pub mod montgomery;
pub mod noun;
pub mod ntt;
pub mod sponge;
pub mod streaming;
