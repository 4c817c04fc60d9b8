//! Deterministic similarity fingerprints of a file's raw bytes.
//!
//! A file of `n` bytes is cut into a fixed number of contiguous segments, each
//! segment is summarised by the truncated mean of its bytes, and the ordered
//! summaries become a bit vector by a monotonicity rule. Two fingerprints are
//! compared by the fraction of positions at which their bits agree.

pub mod bits;
pub mod error;
pub mod fingerprint;
pub mod fingerprinter;
pub mod frames;
pub mod rng;
pub mod partition;
pub mod raw;

pub use bits::BitVector;
pub use error::FingerprintError;
pub use frames::{extract_frames, DecodedFrame};
pub use fingerprint::{compare_bits, Fingerprint, Similarity, Type};
pub use fingerprinter::Fingerprinter;
pub use partition::{segment_sizes, SEGMENT_COUNT};
pub use raw::{bits_from_summaries, mean_of, RawFingerprinter, RawSegment};
pub use rng::{StableRng, RNG_SEED};
