//! The packed bit vector that holds a fingerprint, kept in a `bitvec` box.
//!
//! The box is held behind a struct of this crate whose contents Verus sees
//! only through `bits_of` (the bits, in index order) and `bit_head` (where the
//! first bit sits in the first storage byte).

use bitvec::boxed::BitBox;
use bitvec::order::Lsb0;
use vstd::prelude::*;

verus! {

/// A fixed-length sequence of bits, stored least-significant-bit first in bytes.
#[verifier::external_body]
pub struct BitVector {
    inner: BitBox<u8, Lsb0>,
}

/// The bits that a vector holds, in index order.
pub uninterp spec fn bits_of(b: BitVector) -> Seq<bool>;

/// The bit offset, inside the first storage byte, at which a vector's bits begin.
pub uninterp spec fn bit_head(b: BitVector) -> nat;

/// Whether `bit` is set in `byte`, counting from the least significant bit.
pub open spec fn bit_in_byte(byte: u8, bit: nat) -> bool {
    (byte >> (bit as u8)) & 1u8 == 1u8
}

/// `bytes` stores `bits` least-significant-bit first, the first bit sitting at
/// offset `head` of the first byte.
pub open spec fn stores(bytes: Seq<u8>, bits: Seq<bool>, head: nat) -> bool {
    &&& bytes.len() == (head + bits.len() + 7) / 8
    &&& forall|i: int|
        0 <= i < bits.len() ==> #[trigger] bits[i] == bit_in_byte(
            bytes[(head + i) / 8],
            ((head + i) % 8) as nat,
        )
}

/// Relies on `BitBox::from_boxed_slice`: a box over `n` zero bytes holds
/// `8 * n` cleared bits that start at the first bit of the first byte.
#[verifier::external_body]
pub(crate) fn zeroed_bits(n_bytes: usize) -> (r: BitVector)
    requires
        n_bytes <= usize::MAX / 8,
    ensures
        bits_of(r) == Seq::new(8 * n_bytes as nat, |i: int| false),
        bit_head(r) == 0,
{
    BitVector { inner: BitBox::from_boxed_slice(std::vec::from_elem(0u8, n_bytes).into_boxed_slice()) }
}

/// Relies on `BitSlice::len`: the number of bits held.
#[verifier::external_body]
pub(crate) fn bit_len(b: &BitVector) -> (r: usize)
    ensures
        r == bits_of(*b).len(),
{
    b.inner.len()
}

/// Relies on indexing a `BitSlice`: the bit at `index`, which must be in bounds.
#[verifier::external_body]
pub(crate) fn get_bit(b: &BitVector, index: usize) -> (r: bool)
    requires
        index < bits_of(*b).len(),
    ensures
        r == bits_of(*b)[index as int],
{
    b.inner[index]
}

/// Relies on `BitSlice::set`, which writes one bit in bounds and leaves the
/// others, and the layout, as they were.
#[verifier::external_body]
pub(crate) fn set_bit(b: &mut BitVector, index: usize, value: bool)
    requires
        index < bits_of(*old(b)).len(),
    ensures
        bits_of(*final(b)) == bits_of(*old(b)).update(index as int, value),
        bit_head(*final(b)) == bit_head(*old(b)),
{
    b.inner.set(index, value)
}

/// Relies on `BitBox::clone`, which copies the bits into a box of the same
/// layout (`BitBox::from_bitslice`).
#[verifier::external_body]
pub(crate) fn clone_bits(b: &BitVector) -> (r: BitVector)
    ensures
        bits_of(r) == bits_of(*b),
        bit_head(r) == bit_head(*b),
{
    BitVector { inner: b.inner.clone() }
}

/// Relies on `BitBox::as_raw_slice`: the storage bytes, in which an `Lsb0`
/// box keeps bit `head + i` at bit `(head + i) % 8` of byte `(head + i) / 8`.
#[verifier::external_body]
pub(crate) fn raw_bytes(b: &BitVector) -> (r: &[u8])
    ensures
        stores(r@, bits_of(*b), bit_head(*b)),
{
    b.inner.as_raw_slice()
}

impl BitVector {
    /// A vector of `8 * n_bytes` cleared bits.
    pub fn zeroed(n_bytes: usize) -> (r: BitVector)
        requires
            n_bytes <= usize::MAX / 8,
        ensures
            bits_of(r) == Seq::new(8 * n_bytes as nat, |i: int| false),
    {
        zeroed_bits(n_bytes)
    }

    /// Writes `value` into the bit at `index`, leaving the others.
    pub fn set(&mut self, index: usize, value: bool)
        requires
            index < bits_of(*old(self)).len(),
        ensures
            bits_of(*final(self)) == bits_of(*old(self)).update(index as int, value),
    {
        set_bit(self, index, value)
    }

    /// The number of bits.
    pub fn len(&self) -> (r: usize)
        ensures
            r == bits_of(*self).len(),
    {
        bit_len(self)
    }

    /// The bit at `index`.
    pub fn get(&self, index: usize) -> (r: bool)
        requires
            index < bits_of(*self).len(),
        ensures
            r == bits_of(*self)[index as int],
    {
        get_bit(self, index)
    }
}

}
