//! What can go wrong while fingerprinting or comparing.

use vstd::prelude::*;

verus! {

/// Errors of fingerprinting and comparison.
#[derive(Debug, Clone, Copy, PartialEq, Eq, Structural)]
pub enum FingerprintError {
    /// A segment's bytes could not all be read: the content is shorter than
    /// the size the fingerprinter was made for.
    ShortRead,
    /// A comparison was asked of a fingerprint with no bits, for which the
    /// share of matching bits is undefined.
    InvalidFingerprintLength,
}

impl FingerprintError {
    /// A short description of the error.
    pub fn message(&self) -> (r: String) {
        match self {
            FingerprintError::ShortRead => String::from_str("a segment could not be read in full"),
            FingerprintError::InvalidFingerprintLength => String::from_str(
                "cannot compare a fingerprint with no bits",
            ),
        }
    }
}

}
