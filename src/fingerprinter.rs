//! What every fingerprinter offers.

use vstd::prelude::*;

use crate::bits::{bit_head, bits_of, BitVector};
use crate::error::FingerprintError;

verus! {

/// A fingerprinter of one file: it computes the file's bits from the file's
/// content. Fingerprinters of every kind produce bit vectors that one
/// comparison serves.
pub trait Fingerprinter {
    /// The fingerprinter's own data are consistent.
    spec fn wf(&self) -> bool;

    /// The path of the file, as given.
    spec fn spec_path(&self) -> Seq<char>;

    /// The size of the file in bytes.
    spec fn spec_file_size(&self) -> nat;

    /// The bits computed from the file content `content`.
    spec fn spec_bits(&self, content: Seq<u8>) -> Seq<bool>;

    /// The path of the file being fingerprinted.
    fn path(&self) -> (r: String)
        ensures
            r@ == self.spec_path(),
    ;

    /// The fingerprint bits of the file whose whole content is `content`.
    /// Fails when `content` is shorter than the file, as part of the file
    /// then cannot be read.
    fn finger(&self, content: &[u8]) -> (r: Result<BitVector, FingerprintError>)
        requires
            self.wf(),
        ensures
            r.is_ok() <==> content@.len() >= self.spec_file_size(),
            r matches Ok(b) ==> bits_of(b) == self.spec_bits(content@) && bit_head(b) == 0,
            r matches Err(e) ==> e == FingerprintError::ShortRead,
    ;
}

}
