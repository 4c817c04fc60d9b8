//! Fingerprints of files and the similarity score between two of them.

use vstd::prelude::*;

use crate::bits::{
    bit_head, bit_in_byte, bits_of, clone_bits, get_bit, raw_bytes, stores, BitVector,
};
use crate::error::FingerprintError;
use crate::partition::{offset, SEGMENT_COUNT};
use crate::fingerprinter::Fingerprinter;
use crate::raw::{
    monotonic_bits, raw_fingerprint, stable_fallbacks, stable_summary, stable_table, RawFingerprinter,
};

verus! {

/// The kinds of fingerprinter. Only `Raw` is computed by this library; the
/// others name fingerprinters for particular formats.
#[derive(Debug, Clone, Copy, PartialEq, Eq, Structural)]
pub enum Type {
    /// The fingerprinter of raw bytes.
    Raw,
    /// A fingerprinter for text.
    Text,
    /// A fingerprinter for images.
    Image,
    /// A fingerprinter for audio.
    Audio,
    /// A fingerprinter for video.
    Video,
}

/// The outcome of comparing two fingerprints: of the first `total` bits of
/// each, `matching` are equal. The similarity is `matching / total`.
#[derive(Debug, Clone, Copy, PartialEq, Eq, Structural)]
pub struct Similarity {
    /// How many of the compared positions hold equal bits.
    pub matching: usize,
    /// How many positions were compared: the length of the shorter fingerprint.
    pub total: usize,
}

/// The shorter of two lengths.
pub open spec fn min_len(a: Seq<bool>, b: Seq<bool>) -> nat {
    if a.len() <= b.len() {
        a.len()
    } else {
        b.len()
    }
}

/// How many of the first `n` positions hold equal bits in `a` and `b`.
pub open spec fn match_count(a: Seq<bool>, b: Seq<bool>, n: int) -> nat
    decreases n,
{
    if n <= 0 {
        0
    } else {
        match_count(a, b, n - 1) + if a[n - 1] == b[n - 1] {
            1nat
        } else {
            0nat
        }
    }
}

/// How many positions, up to the shorter length, hold equal bits.
pub open spec fn matching_bits(a: Seq<bool>, b: Seq<bool>) -> nat {
    match_count(a, b, min_len(a, b) as int)
}

/// Compares two bit vectors position by position over the shorter length.
/// Fails when either has no bits.
pub fn compare_bits(a: &BitVector, b: &BitVector) -> (r: Result<Similarity, FingerprintError>)
    ensures
        r.is_ok() <==> min_len(bits_of(*a), bits_of(*b)) > 0,
        r matches Ok(s) ==> s.total == min_len(bits_of(*a), bits_of(*b)) && s.matching
            == matching_bits(bits_of(*a), bits_of(*b)),
        r matches Err(e) ==> e == FingerprintError::InvalidFingerprintLength,
{
    let len_a = a.len();
    let len_b = b.len();
    let n = if len_a <= len_b {
        len_a
    } else {
        len_b
    };
    if n == 0 {
        return Err(FingerprintError::InvalidFingerprintLength);
    }
    let mut matching: usize = 0;
    let mut i: usize = 0;
    while i < n
        invariant
            i <= n,
            n == min_len(bits_of(*a), bits_of(*b)),
            matching == match_count(bits_of(*a), bits_of(*b), i as int),
            matching <= i,
        decreases n - i,
    {
        if get_bit(a, i) == get_bit(b, i) {
            matching = matching + 1;
        }
        i = i + 1;
    }
    Ok(Similarity { matching, total: n })
}

/// The byte whose bit `k` (least significant first) is bit `8 * j + k` of
/// `bits`; bits past the end count as clear.
pub open spec fn pack_byte(bits: Seq<bool>, j: int) -> u8 {
    (bit_weight(bits, 8 * j, 1) + bit_weight(bits, 8 * j + 1, 2) + bit_weight(bits, 8 * j + 2, 4)
        + bit_weight(bits, 8 * j + 3, 8) + bit_weight(bits, 8 * j + 4, 16) + bit_weight(
        bits,
        8 * j + 5,
        32,
    ) + bit_weight(bits, 8 * j + 6, 64) + bit_weight(bits, 8 * j + 7, 128)) as u8
}

/// `w` when bit `i` of `bits` is set, else zero.
pub open spec fn bit_weight(bits: Seq<bool>, i: int, w: int) -> int {
    if 0 <= i < bits.len() && bits[i] {
        w
    } else {
        0
    }
}

/// `bits` packed into bytes, least significant bit first.
pub open spec fn packed(bits: Seq<bool>) -> Seq<u8> {
    Seq::new((bits.len() + 7) / 8, |j: int| pack_byte(bits, j))
}

proof fn lemma_byte_from_its_bits(b: u8)
    ensures
        b == (if bit_in_byte(b, 0) { 1int } else { 0int }) + (if bit_in_byte(b, 1) { 2int } else { 0int })
            + (if bit_in_byte(b, 2) { 4int } else { 0int }) + (if bit_in_byte(b, 3) { 8int } else { 0int })
            + (if bit_in_byte(b, 4) { 16int } else { 0int }) + (if bit_in_byte(b, 5) { 32int } else { 0int })
            + (if bit_in_byte(b, 6) { 64int } else { 0int }) + (if bit_in_byte(b, 7) { 128int } else { 0int }),
{
    assert(b == (if (b >> 0u8) & 1u8 == 1u8 { 1u8 } else { 0u8 }) + (if (b >> 1u8) & 1u8 == 1u8 { 2u8 } else { 0u8 })
        + (if (b >> 2u8) & 1u8 == 1u8 { 4u8 } else { 0u8 }) + (if (b >> 3u8) & 1u8 == 1u8 { 8u8 } else { 0u8 })
        + (if (b >> 4u8) & 1u8 == 1u8 { 16u8 } else { 0u8 }) + (if (b >> 5u8) & 1u8 == 1u8 { 32u8 } else { 0u8 })
        + (if (b >> 6u8) & 1u8 == 1u8 { 64u8 } else { 0u8 }) + (if (b >> 7u8) & 1u8 == 1u8 { 128u8 } else { 0u8 }))
        by (bit_vector);
}

/// Bytes that store a whole number of bytes' worth of bits from the first
/// bit on are those bits packed.
proof fn lemma_stores_packed(bytes: Seq<u8>, bits: Seq<bool>)
    requires
        stores(bytes, bits, 0),
        bits.len() % 8 == 0,
    ensures
        bytes == packed(bits),
{
    assert forall|j: int| 0 <= j < bytes.len() implies #[trigger] bytes[j] == pack_byte(bits, j) by {
        let b = bytes[j];
        assert forall|k: int| 0 <= k < 8 implies #[trigger] bits[8 * j + k] == bit_in_byte(b, k as nat) by {
            assert((0 + (8 * j + k)) / 8 == j);
            assert((0 + (8 * j + k)) % 8 == k);
        }
        assert(bits[8 * j + 0] == bit_in_byte(b, 0));
        assert(bits[8 * j + 1] == bit_in_byte(b, 1));
        assert(bits[8 * j + 2] == bit_in_byte(b, 2));
        assert(bits[8 * j + 3] == bit_in_byte(b, 3));
        assert(bits[8 * j + 4] == bit_in_byte(b, 4));
        assert(bits[8 * j + 5] == bit_in_byte(b, 5));
        assert(bits[8 * j + 6] == bit_in_byte(b, 6));
        assert(bits[8 * j + 7] == bit_in_byte(b, 7));
        lemma_byte_from_its_bits(b);
    }
    assert(bytes =~= packed(bits));
}

/// The lowercase hexadecimal digit of `n`, which is below 16.
pub open spec fn hex_digit(n: u8) -> char {
    seq!['0', '1', '2', '3', '4', '5', '6', '7', '8', '9', 'a', 'b', 'c', 'd', 'e', 'f'][n as int]
}

/// `bytes` in lowercase hexadecimal, two digits per byte, high digit first.
pub open spec fn hex_of(bytes: Seq<u8>) -> Seq<char>
    decreases bytes.len(),
{
    if bytes.len() == 0 {
        seq![]
    } else {
        hex_of(bytes.drop_last()) + seq![hex_digit(bytes.last() / 16), hex_digit(bytes.last() % 16)]
    }
}

/// Relies on `hex::encode`: two lowercase digits per byte, high digit first.
#[verifier::external_body]
fn to_hex(bytes: &[u8]) -> (r: String)
    ensures
        r@ == hex_of(bytes@),
{
    hex::encode(bytes)
}

/// A fingerprint: the bits computed for a file, the file's path (kept for
/// display only) and the kind of fingerprinter that computed it.
pub struct Fingerprint {
    path: String,
    fingerprint: BitVector,
    kind: Type,
}

impl Fingerprint {
    #[verifier::type_invariant]
    spec fn well_formed(&self) -> bool {
        &&& bits_of(self.fingerprint).len() == SEGMENT_COUNT
        &&& bit_head(self.fingerprint) == 0
    }

    /// The fingerprint's bits.
    pub closed spec fn spec_bits(&self) -> Seq<bool> {
        bits_of(self.fingerprint)
    }

    /// The path of the fingerprinted file.
    pub closed spec fn spec_path(&self) -> Seq<char> {
        self.path@
    }

    /// The kind of fingerprinter that computed the fingerprint.
    pub closed spec fn spec_kind(&self) -> Type {
        self.kind
    }

    /// The raw fingerprint of the file that `fp` was made for, whose whole
    /// content is `content`. Fails when `content` is shorter than that file.
    pub fn from_raw(fp: &RawFingerprinter, content: &[u8]) -> (r: Result<
        Fingerprint,
        FingerprintError,
    >)
        requires
            fp.wf(),
        ensures
            r.is_ok() <==> content@.len() >= fp.spec_file_size(),
            r matches Ok(f) ==> f.spec_bits() == monotonic_bits(fp.summaries(content@))
                && f.spec_path() == fp.spec_path() && f.spec_kind() == Type::Raw,
            r matches Err(e) ==> e == FingerprintError::ShortRead,
    {
        match fp.finger(content) {
            Ok(bits) => Ok(Fingerprint { path: fp.path(), fingerprint: bits, kind: Type::Raw }),
            Err(e) => Err(e),
        }
    }

    /// The raw fingerprint of the file at `path` whose whole content is
    /// `content`. Its segment table and the summaries of its empty segments
    /// come from the generator seeded with `RNG_SEED`, so it depends on the
    /// content alone.
    pub fn finger(path: String, content: &[u8]) -> (r: Fingerprint)
        ensures
            r.spec_path() == path@,
            r.spec_kind() == Type::Raw,
            r.spec_bits() == raw_fingerprint(content@),
    {
        let fp = RawFingerprinter::new(path, content.len());
        proof {
            let table = stable_table(content@.len());
            assert(fp.summaries(content@) =~= Seq::new(
                SEGMENT_COUNT as nat,
                |i: int| stable_summary(content@, i),
            )) by {
                assert forall|i: int| 0 <= i < SEGMENT_COUNT implies #[trigger] fp.summaries(
                    content@,
                )[i] == stable_summary(content@, i) by {
                    let seg = fp.spec_segments()[i];
                    assert(seg.spec_pos() == offset(table, i));
                    assert(seg.spec_size() == table[i]);
                    assert(seg.spec_fallback() == stable_fallbacks(content@.len())[i]);
                }
            }
        }
        Fingerprint::from_raw(&fp, content).unwrap()
    }

    /// The similarity of this fingerprint to `other`: how many of their bits
    /// agree, position by position, over the shorter length. Fingerprints of
    /// different kinds compare alike. Fails when either has no bits, which a
    /// fingerprint of this library never has.
    pub fn compare(&self, other: &Fingerprint) -> (r: Result<Similarity, FingerprintError>)
        ensures
            r.is_ok() <==> min_len(self.spec_bits(), other.spec_bits()) > 0,
            r matches Ok(s) ==> s.total == min_len(self.spec_bits(), other.spec_bits())
                && s.matching == matching_bits(self.spec_bits(), other.spec_bits()),
            r matches Err(e) ==> e == FingerprintError::InvalidFingerprintLength,
            r.is_ok(),
    {
        proof {
            use_type_invariant(self);
            use_type_invariant(other);
        }
        compare_bits(&self.fingerprint, &other.fingerprint)
    }

    /// A copy of the fingerprint's bits.
    pub fn bits(&self) -> (r: BitVector)
        ensures
            bits_of(r) == self.spec_bits(),
    {
        clone_bits(&self.fingerprint)
    }

    /// The fingerprint's bits packed into bytes, least significant bit first.
    pub fn bytes(&self) -> (r: &[u8])
        ensures
            r@ == packed(self.spec_bits()),
    {
        proof {
            use_type_invariant(self);
        }
        let r = raw_bytes(&self.fingerprint);
        proof {
            lemma_stores_packed(r@, self.spec_bits());
        }
        r
    }

    /// The path of the fingerprinted file.
    pub fn path(&self) -> (r: String)
        ensures
            r@ == self.spec_path(),
    {
        self.path.clone()
    }

    /// The kind of fingerprinter that computed the fingerprint.
    pub fn kind(&self) -> (r: Type)
        ensures
            r == self.spec_kind(),
    {
        self.kind
    }

    /// The fingerprint in lowercase hexadecimal: its packed bytes, two digits
    /// each.
    pub fn to_string(&self) -> (r: String)
        ensures
            r@ == hex_of(packed(self.spec_bits())),
    {
        to_hex(self.bytes())
    }
}

proof fn lemma_match_count_self(a: Seq<bool>, n: int)
    requires
        0 <= n <= a.len(),
    ensures
        match_count(a, a, n) == n,
    decreases n,
{
    if n > 0 {
        lemma_match_count_self(a, n - 1);
    }
}

proof fn lemma_match_count_symmetric(a: Seq<bool>, b: Seq<bool>, n: int)
    ensures
        match_count(a, b, n) == match_count(b, a, n),
    decreases n,
{
    if n > 0 {
        lemma_match_count_symmetric(a, b, n - 1);
    }
}

proof fn lemma_match_count_bound(a: Seq<bool>, b: Seq<bool>, n: int)
    requires
        0 <= n,
    ensures
        match_count(a, b, n) <= n,
    decreases n,
{
    if n > 0 {
        lemma_match_count_bound(a, b, n - 1);
    }
}

/// A fingerprint compared with itself agrees at every compared position:
/// its similarity to itself is one.
pub proof fn lemma_compare_self(f: Fingerprint)
    ensures
        matching_bits(f.spec_bits(), f.spec_bits()) == min_len(f.spec_bits(), f.spec_bits()),
        min_len(f.spec_bits(), f.spec_bits()) == f.spec_bits().len(),
{
    lemma_match_count_self(f.spec_bits(), f.spec_bits().len() as int);
}

/// Comparison is symmetric: comparing `a` with `b` compares as many
/// positions, and finds as many equal bits, as comparing `b` with `a`.
pub proof fn lemma_compare_symmetric(a: Fingerprint, b: Fingerprint)
    ensures
        min_len(a.spec_bits(), b.spec_bits()) == min_len(b.spec_bits(), a.spec_bits()),
        matching_bits(a.spec_bits(), b.spec_bits()) == matching_bits(b.spec_bits(), a.spec_bits()),
{
    lemma_match_count_symmetric(
        a.spec_bits(),
        b.spec_bits(),
        min_len(a.spec_bits(), b.spec_bits()) as int,
    );
}

/// The similarity lies between zero and one: no more positions match than
/// are compared.
pub proof fn lemma_compare_range(a: Fingerprint, b: Fingerprint)
    ensures
        0 <= matching_bits(a.spec_bits(), b.spec_bits()) <= min_len(a.spec_bits(), b.spec_bits()),
{
    lemma_match_count_bound(a.spec_bits(), b.spec_bits(), min_len(a.spec_bits(), b.spec_bits()) as int);
}

/// A file compared with itself scores one: two fingerprints computed from
/// the same content agree at all of their positions.
pub proof fn lemma_self_similarity(content: Seq<u8>)
    ensures
        raw_fingerprint(content).len() == SEGMENT_COUNT,
        min_len(raw_fingerprint(content), raw_fingerprint(content)) == SEGMENT_COUNT,
        matching_bits(raw_fingerprint(content), raw_fingerprint(content)) == SEGMENT_COUNT,
{
    lemma_match_count_self(raw_fingerprint(content), SEGMENT_COUNT as int);
}

/// Fingerprinting is deterministic: two fingerprints computed from the same
/// content hold the same bits, so the same bytes and the same hexadecimal text.
pub proof fn lemma_deterministic(a: Fingerprint, b: Fingerprint, content: Seq<u8>)
    requires
        a.spec_bits() == raw_fingerprint(content),
        b.spec_bits() == raw_fingerprint(content),
    ensures
        a.spec_bits() == b.spec_bits(),
        packed(a.spec_bits()) == packed(b.spec_bits()),
        hex_of(packed(a.spec_bits())) == hex_of(packed(b.spec_bits())),
{
}

}
