//! Wavelet matrices over bounded-width integer symbols: a static matrix
//! built once from a sequence, and a dynamic one that supports insertion and
//! deletion of symbols. Both answer access, rank and select by the same
//! level descent over a bit sequence per level.
pub mod model;
pub mod bit_sequence;
pub mod bit_rank_select;
pub mod dynamic_bits;
pub mod query;
pub mod error;
pub mod static_matrix;
pub mod dynamic_matrix;
pub mod laws;

pub use error::WaveletError;
pub use static_matrix::WaveletMatrix;
pub use dynamic_matrix::DynamicWaveletMatrix;
pub use bit_rank_select::BitRankSelect;
pub use dynamic_bits::DynamicBitSequence;
pub use bit_sequence::BitSequence;
