//! A sparse numeric vector library: a fixed-dimension vector stored as a
//! sorted list of (index, value) pairs omitting zeros, together with a
//! validating constructor, a dense-to-sparse converter, a bounded top-k
//! truncation, and a compact self-describing binary layout.
//!
//! Values are 32-bit IEEE-754 bit patterns carried as `u32`. Everything the
//! library decides about a value - whether it is finite, whether it is zero,
//! and how two values compare under the IEEE-754 total order - is a function
//! of the bit pattern alone, so the logic is stated and proved over plain
//! `u32`s. Callers that hold `f32` values convert with `f32::to_bits` /
//! `f32::from_bits` at the boundary.

pub mod codec;
pub mod config;
pub mod count;
pub mod order;
pub mod sparsevec;
pub mod truncate;

pub use codec::truncate_encoded;
pub use config::preload_models;
pub use codec::SparsevecInput;
pub use codec::SparsevecOutput;
pub use order::rank_key;
pub use order::value_is_finite;
pub use order::value_is_nonzero;
pub use sparsevec::check_sparsevec;
pub use sparsevec::ConversionError;
pub use sparsevec::SparsevecBorrowed;
pub use sparsevec::SparsevecOwned;
pub use sparsevec::ValidationError;
pub use sparsevec::MAX_DIM;
pub use sparsevec::MAX_NNZ;
pub use truncate::truncate_sparsevec;
pub use truncate::TruncationError;
