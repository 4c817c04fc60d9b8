//! The raw fingerprinter: segment summaries and the monotonic-bit rule.
//!
//! A segment with bytes is summarised by the truncated mean of its bytes; an
//! empty segment (only files under `SEGMENT_COUNT` bytes have them) takes a
//! byte drawn from the seeded generator instead. Bit `i` of the fingerprint is
//! set when the summary of segment `i + 1` is at least that of segment `i`;
//! the last bit compares the first summary with the last.

use vstd::prelude::*;

use crate::bits::{bit_head, bits_of, set_bit, zeroed_bits, BitVector};
use crate::error::FingerprintError;
use crate::fingerprinter::Fingerprinter;
use crate::partition::{
    fill, is_segment_table, lemma_empty_table, lemma_offset_bound, lemma_offset_step, offset,
    segment_sizes, spread, table_from, SEGMENT_COUNT,
};
use crate::rng::{after_byte, byte_draw, StableRng, RNG_SEED};

verus! {

/// The sum of a sequence of bytes.
pub open spec fn byte_sum(s: Seq<u8>) -> int
    decreases s.len(),
{
    if s.len() == 0 {
        0
    } else {
        byte_sum(s.drop_last()) + s.last()
    }
}

/// The mean of a non-empty sequence of bytes, truncated toward zero.
pub open spec fn mean(s: Seq<u8>) -> int
    recommends
        s.len() > 0,
{
    byte_sum(s) / (s.len() as int)
}

/// The fingerprint bits of a sequence of segment summaries: bit `i` holds
/// whether summary `i + 1` is at least summary `i`, and the last bit whether
/// the first summary is at least the last.
pub open spec fn monotonic_bits(v: Seq<u8>) -> Seq<bool> {
    Seq::new(
        v.len(),
        |i: int|
            if i + 1 < v.len() {
                v[i + 1] >= v[i]
            } else {
                v[0] >= v[i]
            },
    )
}

proof fn lemma_byte_sum_step(s: Seq<u8>, start: int, k: int)
    requires
        0 <= start,
        0 <= k,
        start + k < s.len(),
    ensures
        byte_sum(s.subrange(start, start + k + 1)) == byte_sum(s.subrange(start, start + k))
            + s[start + k],
{
    assert(s.subrange(start, start + k + 1).drop_last() =~= s.subrange(start, start + k));
}

proof fn lemma_mean_is_byte(sum: int, len: int)
    requires
        0 <= sum <= 255 * len,
        len > 0,
    ensures
        0 <= sum / len <= 255,
{
    assert(sum / len <= 255) by (nonlinear_arith)
        requires
            0 <= sum <= 255 * len,
            len > 0,
    ;
    assert(0 <= sum / len) by (nonlinear_arith)
        requires
            0 <= sum,
            len > 0,
    ;
}

/// The truncated mean of the `len` bytes of `bytes` that start at `start`,
/// summed in 128 bits so that no segment size can overflow the sum.
pub fn mean_of(bytes: &[u8], start: usize, len: usize) -> (r: u8)
    requires
        len > 0,
        start + len <= bytes@.len(),
    ensures
        r == mean(bytes@.subrange(start as int, start + len)),
{
    let n = bytes.len();
    let mut sum: u128 = 0;
    let mut k: usize = 0;
    while k < len
        invariant
            k <= len,
            n == bytes@.len(),
            start + len <= bytes@.len(),
            sum == byte_sum(bytes@.subrange(start as int, start + k)),
            sum <= 255 * k,
        decreases len - k,
    {
        proof {
            lemma_byte_sum_step(bytes@, start as int, k as int);
        }
        sum = sum + bytes[start + k] as u128;
        k = k + 1;
    }
    proof {
        lemma_mean_is_byte(sum as int, len as int);
    }
    (sum / len as u128) as u8
}

/// The fingerprint bits of `summaries`, one per segment.
pub fn bits_from_summaries(summaries: &Vec<u8>) -> (r: BitVector)
    requires
        summaries@.len() == SEGMENT_COUNT,
    ensures
        bits_of(r) == monotonic_bits(summaries@),
        bit_head(r) == 0,
{
    let mut bits = zeroed_bits(SEGMENT_COUNT / 8);
    let mut i: usize = 1;
    while i < SEGMENT_COUNT
        invariant
            1 <= i <= SEGMENT_COUNT,
            summaries@.len() == SEGMENT_COUNT,
            bit_head(bits) == 0,
            bits_of(bits) =~= Seq::new(
                SEGMENT_COUNT as nat,
                |k: int|
                    if k + 1 < i {
                        monotonic_bits(summaries@)[k]
                    } else {
                        false
                    },
            ),
        decreases SEGMENT_COUNT - i,
    {
        if summaries[i] >= summaries[i - 1] {
            set_bit(&mut bits, i - 1, true);
        }
        i = i + 1;
    }
    if summaries[0] >= summaries[SEGMENT_COUNT - 1] {
        set_bit(&mut bits, SEGMENT_COUNT - 1, true);
    }
    assert(bits_of(bits) =~= monotonic_bits(summaries@));
    bits
}

/// The drawn summaries of the segments of table `sizes` from index `i` on,
/// drawn from `rng` in index order: a byte for each empty segment, none for a
/// segment with bytes.
pub open spec fn drawn_summaries(sizes: Seq<usize>, i: int, rng: StableRng) -> Seq<Option<u8>>
    decreases sizes.len() - i,
{
    if i < 0 || i >= sizes.len() {
        seq![]
    } else if sizes[i] == 0 {
        seq![Some(byte_draw(rng.seed, rng.word).0)] + drawn_summaries(sizes, i + 1, after_byte(rng))
    } else {
        seq![None::<u8>] + drawn_summaries(sizes, i + 1, rng)
    }
}

/// The generator that fingerprinting starts from.
pub open spec fn initial_rng() -> StableRng {
    StableRng { seed: RNG_SEED, word: 0 }
}

/// The segment table that fingerprinting uses for a file of `n` bytes.
pub open spec fn stable_table(n: nat) -> Seq<usize> {
    table_from(n, initial_rng()).0
}

/// The drawn summaries that fingerprinting uses for a file of `n` bytes,
/// drawn once the table is made.
pub open spec fn stable_fallbacks(n: nat) -> Seq<Option<u8>> {
    let made = table_from(n, initial_rng());
    drawn_summaries(made.0, 0, made.1)
}

/// The summary of segment `i` of the file whose whole content is `content`.
pub open spec fn stable_summary(content: Seq<u8>, i: int) -> u8 {
    let table = stable_table(content.len());
    match stable_fallbacks(content.len())[i] {
        Some(v) => v,
        None => mean(content.subrange(offset(table, i), offset(table, i) + table[i])) as u8,
    }
}

/// The raw fingerprint of the file whose whole content is `content`.
pub open spec fn raw_fingerprint(content: Seq<u8>) -> Seq<bool> {
    monotonic_bits(Seq::new(SEGMENT_COUNT as nat, |i: int| stable_summary(content, i)))
}

proof fn lemma_drawn_summaries_len(sizes: Seq<usize>, i: int, rng: StableRng)
    requires
        0 <= i <= sizes.len(),
    ensures
        drawn_summaries(sizes, i, rng).len() == sizes.len() - i,
    decreases sizes.len() - i,
{
    if i < sizes.len() {
        lemma_drawn_summaries_len(sizes, i + 1, after_byte(rng));
        lemma_drawn_summaries_len(sizes, i + 1, rng);
    }
}

/// One segment of a file: its index, the offset of its first byte, its size,
/// and, for an empty segment, the summary drawn for it in place of a mean.
pub struct RawSegment {
    index: usize,
    pos: usize,
    size: usize,
    value: Option<u8>,
}

/// The summary of `seg` over the file content `content`: the drawn value of
/// an empty segment, else the truncated mean of the segment's bytes.
pub open spec fn segment_summary(seg: RawSegment, content: Seq<u8>) -> u8 {
    match seg.spec_fallback() {
        Some(v) => v,
        None => mean(
            content.subrange(seg.spec_pos() as int, (seg.spec_pos() + seg.spec_size()) as int),
        ) as u8,
    }
}

/// Whether the summary of `seg` can be had from `content`: it is drawn, or
/// all the segment's bytes lie in `content`.
pub open spec fn segment_readable(seg: RawSegment, content: Seq<u8>) -> bool {
    seg.spec_fallback().is_some() || seg.spec_pos() + seg.spec_size() <= content.len()
}

impl RawSegment {
    #[verifier::type_invariant]
    spec fn well_formed(&self) -> bool {
        &&& self.pos + self.size <= usize::MAX
        &&& (self.value.is_some() <==> self.size == 0)
    }

    /// The index of the segment, from zero.
    pub closed spec fn spec_index(&self) -> nat {
        self.index as nat
    }

    /// The offset of the segment's first byte in the file.
    pub closed spec fn spec_pos(&self) -> nat {
        self.pos as nat
    }

    /// The number of bytes in the segment.
    pub closed spec fn spec_size(&self) -> nat {
        self.size as nat
    }

    /// The drawn summary of an empty segment; none for a segment with bytes.
    pub closed spec fn spec_fallback(&self) -> Option<u8> {
        self.value
    }

    /// The index of the segment, from zero.
    pub fn index(&self) -> (r: usize)
        ensures
            r == self.spec_index(),
    {
        self.index
    }

    /// The offset of the segment's first byte in the file.
    pub fn pos(&self) -> (r: usize)
        ensures
            r == self.spec_pos(),
    {
        self.pos
    }

    /// The number of bytes in the segment.
    pub fn size(&self) -> (r: usize)
        ensures
            r == self.spec_size(),
    {
        self.size
    }

    /// The summary of the segment, `content` being the whole file. An empty
    /// segment reads nothing; another fails if its bytes run past the end of
    /// `content`.
    pub fn value(&self, content: &[u8]) -> (r: Result<u8, FingerprintError>)
        ensures
            r == if segment_readable(*self, content@) {
                Ok::<u8, FingerprintError>(segment_summary(*self, content@))
            } else {
                Err::<u8, FingerprintError>(FingerprintError::ShortRead)
            },
    {
        proof {
            use_type_invariant(self);
        }
        match self.value {
            Some(v) => Ok(v),
            None => {
                if self.pos + self.size <= content.len() {
                    Ok(mean_of(content, self.pos, self.size))
                } else {
                    Err(FingerprintError::ShortRead)
                }
            },
        }
    }
}

/// The fingerprinter of a file's raw bytes: the file's size, its segment
/// table and its segments, fixed when it is made.
pub struct RawFingerprinter {
    path: String,
    file_size: usize,
    segment_sizes: Vec<usize>,
    segments: Vec<RawSegment>,
}

impl RawFingerprinter {
    /// The size of each segment.
    pub closed spec fn spec_segment_sizes(&self) -> Seq<usize> {
        self.segment_sizes@
    }

    /// The segments, in index order.
    pub closed spec fn spec_segments(&self) -> Seq<RawSegment> {
        self.segments@
    }

    /// The summaries of the segments over the file content `content`.
    pub open spec fn summaries(&self, content: Seq<u8>) -> Seq<u8> {
        Seq::new(SEGMENT_COUNT as nat, |i: int| segment_summary(self.spec_segments()[i], content))
    }

    /// A fingerprinter for the file at `path` of `file_size` bytes. The
    /// segment table and the summaries of empty segments come from a
    /// generator seeded with `RNG_SEED`, in that order.
    pub fn new(path: String, file_size: usize) -> (r: RawFingerprinter)
        ensures
            r.wf(),
            r.spec_path() == path@,
            r.spec_file_size() == file_size,
            r.spec_segment_sizes() == stable_table(file_size as nat),
            forall|i: int|
                0 <= i < SEGMENT_COUNT ==> (#[trigger] r.spec_segments()[i]).spec_fallback()
                    == stable_fallbacks(file_size as nat)[i],
    {
        let mut rng = StableRng::new(RNG_SEED);
        let segment_sizes = segment_sizes(file_size, &mut rng);
        let ghost drawn = stable_fallbacks(file_size as nat);
        proof {
            lemma_drawn_summaries_len(segment_sizes@, 0, rng);
            assert(drawn.subrange(0, SEGMENT_COUNT as int) =~= drawn);
        }
        let mut segments: Vec<RawSegment> = Vec::new();
        let mut pos: usize = 0;
        let mut i: usize = 0;
        while i < SEGMENT_COUNT
            invariant
                i <= SEGMENT_COUNT,
                segment_sizes@ == stable_table(file_size as nat),
                drawn == stable_fallbacks(file_size as nat),
                drawn.len() == SEGMENT_COUNT,
                drawn_summaries(segment_sizes@, i as int, rng) =~= drawn.subrange(i as int, SEGMENT_COUNT as int),
                forall|k: int| 0 <= k < i ==> (#[trigger] segments@[k]).value == drawn[k],
                is_segment_table(segment_sizes@, file_size as nat),
                segments@.len() == i,
                pos == offset(segment_sizes@, i as int),
                forall|k: int|
                    0 <= k < i ==> {
                        let seg = #[trigger] segments@[k];
                        &&& seg.index == k
                        &&& seg.pos == offset(segment_sizes@, k)
                        &&& seg.size == segment_sizes@[k]
                        &&& (seg.value.is_some() <==> segment_sizes@[k] == 0)
                    },
            decreases SEGMENT_COUNT - i,
        {
            let size = segment_sizes[i];
            proof {
                lemma_offset_step(segment_sizes@, i as int);
                lemma_offset_bound(segment_sizes@, i + 1);
            }
            let ghost before = rng;
            let value = if size == 0 {
                Some(rng.gen_byte())
            } else {
                None
            };
            proof {
                let rest = drawn_summaries(segment_sizes@, i + 1, rng);
                assert(drawn_summaries(segment_sizes@, i as int, before) == seq![value] + rest);
                assert(drawn[i as int] == drawn.subrange(i as int, SEGMENT_COUNT as int)[0]);
                assert(drawn.subrange(i + 1, SEGMENT_COUNT as int) =~= drawn.subrange(i as int, SEGMENT_COUNT as int).drop_first());
                assert((seq![value] + rest).drop_first() =~= rest);
            }
            segments.push(RawSegment { index: i, pos, size, value });
            pos = pos + size;
            i = i + 1;
        }
        RawFingerprinter { path, file_size, segment_sizes, segments }
    }

    /// The size of the file in bytes.
    pub fn file_size(&self) -> (r: usize)
        ensures
            r == self.spec_file_size(),
    {
        self.file_size
    }

    /// The segments, in index order.
    pub fn segments(&self) -> (r: &Vec<RawSegment>)
        ensures
            r@ == self.spec_segments(),
    {
        &self.segments
    }

}

impl Fingerprinter for RawFingerprinter {
    /// The path of the file, as given.
    closed spec fn spec_path(&self) -> Seq<char> {
        self.path@
    }

    /// The size of the file in bytes.
    closed spec fn spec_file_size(&self) -> nat {
        self.file_size as nat
    }

    /// The segment table is one for the file's size, and segment `i` has
    /// index `i`, the size the table gives it, and starts where the segments
    /// before it end. Exactly the empty segments have a drawn summary.
    open spec fn wf(&self) -> bool {
        let sizes = self.spec_segment_sizes();
        &&& is_segment_table(sizes, self.spec_file_size())
        &&& self.spec_segments().len() == SEGMENT_COUNT
        &&& forall|i: int|
            0 <= i < SEGMENT_COUNT ==> {
                let seg = #[trigger] self.spec_segments()[i];
                &&& seg.spec_index() == i
                &&& seg.spec_pos() == offset(sizes, i)
                &&& seg.spec_size() == sizes[i]
                &&& (seg.spec_fallback().is_some() <==> sizes[i] == 0)
            }
    }

    /// The monotonic bits of the segment summaries.
    open spec fn spec_bits(&self, content: Seq<u8>) -> Seq<bool> {
        monotonic_bits(self.summaries(content))
    }

    /// The path of the file being fingerprinted.
    fn path(&self) -> (r: String) {
        self.path.clone()
    }

    /// The fingerprint bits of the file whose whole content is `content`.
    /// Fails when `content` is shorter than the size the fingerprinter was
    /// made for, as a segment then cannot be read in full.
    fn finger(&self, content: &[u8]) -> (r: Result<BitVector, FingerprintError>) {
        if content.len() < self.file_size {
            return Err(FingerprintError::ShortRead);
        }
        let mut values: Vec<u8> = Vec::new();
        let mut i: usize = 0;
        while i < SEGMENT_COUNT
            invariant
                self.wf(),
                i <= SEGMENT_COUNT,
                content@.len() >= self.spec_file_size(),
                values@ =~= self.summaries(content@).subrange(0, i as int),
            decreases SEGMENT_COUNT - i,
        {
            let seg = &self.segments[i];
            proof {
                lemma_offset_step(self.segment_sizes@, i as int);
                lemma_offset_bound(self.segment_sizes@, i + 1);
            }
            match seg.value(content) {
                Ok(v) => values.push(v),
                Err(e) => return Err(e),
            }
            i = i + 1;
        }
        Ok(bits_from_summaries(&values))
    }
}

/// A fingerprinter made for an empty file has only empty segments, each with
/// a drawn summary, so the fingerprint it computes is made of drawn values
/// alone, whatever content it is given.
pub proof fn lemma_empty_file(fp: RawFingerprinter, content: Seq<u8>)
    requires
        fp.wf(),
        fp.spec_file_size() == 0,
    ensures
        forall|i: int|
            0 <= i < SEGMENT_COUNT ==> (#[trigger] fp.spec_segments()[i]).spec_size() == 0
                && fp.spec_segments()[i].spec_fallback().is_some(),
        fp.summaries(content) == Seq::new(
            SEGMENT_COUNT as nat,
            |i: int| fp.spec_segments()[i].spec_fallback().unwrap(),
        ),
{
    lemma_empty_table(fp.spec_segment_sizes());
    assert(fp.summaries(content) =~= Seq::new(
        SEGMENT_COUNT as nat,
        |i: int| fp.spec_segments()[i].spec_fallback().unwrap(),
    ));
}

proof fn lemma_fill_nothing_owed(s: Seq<usize>, base: usize, j: int)
    requires
        0 <= j,
    ensures
        fill(s, base, 0, j) == s,
    decreases s.len() - j,
{
    if j < s.len() {
        lemma_fill_nothing_owed(s, base, j + 1);
    }
}

proof fn lemma_nothing_drawn(sizes: Seq<usize>, i: int, rng: StableRng)
    requires
        0 <= i <= sizes.len(),
        forall|k: int| 0 <= k < sizes.len() ==> sizes[k] > 0,
    ensures
        drawn_summaries(sizes, i, rng) =~= Seq::new((sizes.len() - i) as nat, |k: int| None::<u8>),
    decreases sizes.len() - i,
{
    if i < sizes.len() {
        lemma_nothing_drawn(sizes, i + 1, rng);
    }
}

proof fn lemma_unit_offsets(sizes: Seq<usize>, i: int)
    requires
        0 <= i <= sizes.len(),
        forall|k: int| 0 <= k < sizes.len() ==> sizes[k] == 1,
    ensures
        offset(sizes, i) == i,
    decreases i,
{
    if i > 0 {
        lemma_unit_offsets(sizes, i - 1);
        lemma_offset_step(sizes, i - 1);
    } else {
        assert(sizes.subrange(0, 0) =~= Seq::<usize>::empty());
    }
}

/// A file of exactly `SEGMENT_COUNT` bytes has one byte per segment and no
/// draws, so its fingerprint is the monotonic bits of its bytes themselves.
pub proof fn lemma_single_byte_segments(content: Seq<u8>)
    requires
        content.len() == SEGMENT_COUNT,
    ensures
        stable_table(content.len()) == Seq::new(SEGMENT_COUNT as nat, |i: int| 1usize),
        raw_fingerprint(content) == monotonic_bits(content),
{
    let ones = Seq::new(SEGMENT_COUNT as nat, |i: int| 1usize);
    let rng = initial_rng();
    assert(spread(ones, 1, 0, rng, u64::MAX as nat) == (ones, 0nat, rng));
    lemma_fill_nothing_owed(ones, 1, 0);
    assert(table_from(content.len(), rng) == (ones, rng));
    lemma_nothing_drawn(ones, 0, rng);
    assert(stable_table(content.len()) == ones);
    assert(stable_fallbacks(content.len()) =~= Seq::new(SEGMENT_COUNT as nat, |k: int| None::<u8>));
    assert forall|i: int| 0 <= i < SEGMENT_COUNT implies #[trigger] stable_summary(content, i)
        == content[i] by {
        lemma_unit_offsets(ones, i);
        let one = content.subrange(i, i + 1);
        assert(one.drop_last() =~= Seq::<u8>::empty());
        assert(byte_sum(Seq::<u8>::empty()) == 0);
        assert(one.last() == content[i]);
        assert(byte_sum(one) == content[i]);
    }
    assert(Seq::new(SEGMENT_COUNT as nat, |i: int| stable_summary(content, i)) =~= content);
}

}
