//! Cutting a file of `n` bytes into a fixed number of contiguous segments.
//!
//! Every segment gets `n / SEGMENT_COUNT` bytes; the `n % SEGMENT_COUNT`
//! bytes left over go one each to segments picked by the seeded generator,
//! so that no segment is favoured by its position.

use vstd::prelude::*;

use crate::rng::{after_index, index_draw, StableRng};

verus! {

/// The number of segments, and so of bits, in a fingerprint.
pub const SEGMENT_COUNT: usize = 128;

/// The sum of a sequence of sizes.
pub open spec fn total(s: Seq<usize>) -> int
    decreases s.len(),
{
    if s.len() == 0 {
        0
    } else {
        total(s.drop_last()) + s.last()
    }
}

/// How many entries of `s` equal `v`.
pub open spec fn count_of(s: Seq<usize>, v: usize) -> nat
    decreases s.len(),
{
    if s.len() == 0 {
        0
    } else {
        count_of(s.drop_last(), v) + if s.last() == v {
            1nat
        } else {
            0nat
        }
    }
}

/// Every entry of `s` is `base` or `base + 1`.
pub open spec fn base_or_next(s: Seq<usize>, base: int) -> bool {
    forall|i: int| 0 <= i < s.len() ==> #[trigger] s[i] == base || s[i] == base + 1
}

/// `sizes` is a segment table for a file of `n` bytes: one entry per
/// segment, summing to `n`, each entry `n / SEGMENT_COUNT` or one more, and
/// exactly `n % SEGMENT_COUNT` entries one more.
pub open spec fn is_segment_table(sizes: Seq<usize>, n: nat) -> bool {
    let base = n / (SEGMENT_COUNT as nat);
    &&& sizes.len() == SEGMENT_COUNT
    &&& total(sizes) == n
    &&& base_or_next(sizes, base as int)
    &&& count_of(sizes, (base + 1) as usize) == n % (SEGMENT_COUNT as nat)
}

/// The draws of the leftover spreading: while increments are owed and draws
/// remain in `budget`, an index is drawn from `rng`; an entry still at `base`
/// is incremented. Gives the table, the increments still owed, and the
/// generator after the draws.
pub open spec fn spread(s: Seq<usize>, base: usize, left: nat, rng: StableRng, budget: nat) -> (
    Seq<usize>,
    nat,
    StableRng,
)
    decreases budget,
{
    if left == 0 || budget == 0 {
        (s, left, rng)
    } else {
        let i = index_draw(rng.seed, rng.word, s.len() as u64).0 as int;
        let next = after_index(rng, s.len() as u64);
        if i < s.len() && s[i] == base {
            spread(s.update(i, (base + 1) as usize), base, (left - 1) as nat, next, (budget - 1) as nat)
        } else {
            spread(s, base, left, next, (budget - 1) as nat)
        }
    }
}

/// The increments still owed once the draws are spent go to the first
/// entries, from `j` on, that are still at `base`.
pub open spec fn fill(s: Seq<usize>, base: usize, left: nat, j: int) -> Seq<usize>
    decreases s.len() - j,
{
    if j >= s.len() || j < 0 {
        s
    } else if left > 0 && s[j] == base {
        fill(s.update(j, (base + 1) as usize), base, (left - 1) as nat, j + 1)
    } else {
        fill(s, base, left, j + 1)
    }
}

/// The number of draws after which the leftover spreading stops drawing.
pub open spec fn draw_budget() -> nat {
    u64::MAX as nat
}

/// The table that spreading `remainder` increments over `s` gives, and the
/// generator after it.
pub open spec fn spread_remainder(s: Seq<usize>, base: usize, remainder: nat, rng: StableRng) -> (
    Seq<usize>,
    StableRng,
) {
    let drawn = spread(s, base, remainder, rng, draw_budget());
    (fill(drawn.0, base, drawn.1, 0), drawn.2)
}

/// The segment table for a file of `n` bytes with the leftover spread by
/// `rng`, and the generator after it.
pub open spec fn table_from(n: nat, rng: StableRng) -> (Seq<usize>, StableRng) {
    let base = (n / (SEGMENT_COUNT as nat)) as usize;
    spread_remainder(
        Seq::new(SEGMENT_COUNT as nat, |i: int| base),
        base,
        n % (SEGMENT_COUNT as nat),
        rng,
    )
}

proof fn lemma_count_update(s: Seq<usize>, i: int, x: usize, v: usize)
    requires
        0 <= i < s.len(),
    ensures
        count_of(s.update(i, x), v) + (if s[i] == v { 1int } else { 0int }) == count_of(s, v) + (
        if x == v {
            1int
        } else {
            0int
        }),
    decreases s.len(),
{
    let t = s.update(i, x);
    if i < s.len() - 1 {
        assert(t.drop_last() =~= s.drop_last().update(i, x));
        lemma_count_update(s.drop_last(), i, x, v);
    } else {
        assert(t.drop_last() =~= s.drop_last());
    }
}

proof fn lemma_count_all(s: Seq<usize>, v: usize)
    requires
        forall|i: int| 0 <= i < s.len() ==> s[i] == v,
    ensures
        count_of(s, v) == s.len(),
    decreases s.len(),
{
    if s.len() > 0 {
        lemma_count_all(s.drop_last(), v);
    }
}

/// The total of entries that are `base` or `base + 1` is fixed by how many
/// are `base + 1`.
proof fn lemma_total_of_base_or_next(s: Seq<usize>, base: usize)
    requires
        base < usize::MAX,
        base_or_next(s, base as int),
    ensures
        total(s) == base * s.len() + count_of(s, (base + 1) as usize),
    decreases s.len(),
{
    if s.len() > 0 {
        let t = s.drop_last();
        assert(base_or_next(t, base as int)) by {
            assert forall|i: int| 0 <= i < t.len() implies #[trigger] t[i] == base || t[i] == base
                + 1 by {
                assert(t[i] == s[i]);
            }
        }
        lemma_total_of_base_or_next(t, base);
        assert(s.last() == s[s.len() - 1]);
        assert(base * s.len() == base * t.len() + base) by (nonlinear_arith)
            requires
                s.len() == t.len() + 1,
        ;
    }
}

/// Spreads `remainder` increments over the entries of `sizes`, all of which
/// start at `initial_segment_size`: an index is drawn from `rng` until it
/// names an entry not yet incremented, which is then incremented.
///
/// After `u64::MAX` draws the increments still owed, if any, go to the first
/// entries not yet incremented, so that the table is always complete.
pub fn choose_multiple_stable(
    sizes: &mut Vec<usize>,
    rng: &mut StableRng,
    initial_segment_size: usize,
    remainder: usize,
)
    requires
        old(sizes)@.len() > 0,
        remainder <= old(sizes)@.len(),
        initial_segment_size < usize::MAX,
        forall|i: int| 0 <= i < old(sizes)@.len() ==> old(sizes)@[i] == initial_segment_size,
    ensures
        final(sizes)@.len() == old(sizes)@.len(),
        base_or_next(final(sizes)@, initial_segment_size as int),
        count_of(final(sizes)@, (initial_segment_size + 1) as usize) == remainder,
        (final(sizes)@, *final(rng)) == spread_remainder(
            old(sizes)@,
            initial_segment_size,
            remainder as nat,
            *old(rng),
        ),
{
    let base = initial_segment_size;
    let next = base + 1;
    let len = sizes.len();
    let mut left = remainder;
    let mut draws: u64 = 0;
    let ghost drawn = spread(sizes@, base, remainder as nat, *rng, draw_budget());
    proof {
        lemma_count_all_other(sizes@, base, next);
    }
    while left > 0 && draws < u64::MAX
        invariant
            sizes@.len() == len,
            len > 0,
            next == base + 1,
            base_or_next(sizes@, base as int),
            count_of(sizes@, next) + left == remainder,
            spread(sizes@, base, left as nat, *rng, (u64::MAX - draws) as nat) == drawn,
        decreases u64::MAX - draws,
    {
        let index = rng.gen_index(len);
        draws = draws + 1;
        if sizes[index] == base {
            proof {
                lemma_count_update(sizes@, index as int, next, next);
            }
            sizes.set(index, next);
            left = left - 1;
        }
    }
    assert(drawn == (sizes@, left as nat, *rng));
    let ghost filled = fill(sizes@, base, left as nat, 0);
    let mut j: usize = 0;
    while j < len
        invariant
            sizes@.len() == len,
            j <= len,
            next == base + 1,
            remainder <= len,
            base_or_next(sizes@, base as int),
            count_of(sizes@, next) + left == remainder,
            forall|k: int| 0 <= k < j ==> left == 0 || sizes@[k] == next,
            fill(sizes@, base, left as nat, j as int) == filled,
        decreases len - j,
    {
        if left > 0 && sizes[j] == base {
            proof {
                lemma_count_update(sizes@, j as int, next, next);
            }
            sizes.set(j, next);
            left = left - 1;
        }
        j = j + 1;
    }
    if left > 0 {
        proof {
            lemma_count_all(sizes@, next);
        }
    }
}

proof fn lemma_count_all_other(s: Seq<usize>, v: usize, w: usize)
    requires
        v != w,
        forall|i: int| 0 <= i < s.len() ==> s[i] == v,
    ensures
        count_of(s, w) == 0,
    decreases s.len(),
{
    if s.len() > 0 {
        lemma_count_all_other(s.drop_last(), v, w);
    }
}

/// The segment table for a file of `file_size` bytes, the leftover bytes
/// spread by `rng`. Entries differ from one another by at most one.
pub fn segment_sizes(file_size: usize, rng: &mut StableRng) -> (sizes: Vec<usize>)
    ensures
        is_segment_table(sizes@, file_size as nat),
        forall|i: int, j: int|
            0 <= i < SEGMENT_COUNT && 0 <= j < SEGMENT_COUNT ==> #[trigger] sizes@[i] <= #[trigger] sizes@[j] + 1,
        (sizes@, *final(rng)) == table_from(file_size as nat, *old(rng)),
{
    let base = file_size / SEGMENT_COUNT;
    let remainder = file_size % SEGMENT_COUNT;
    let mut sizes: Vec<usize> = Vec::new();
    let mut i: usize = 0;
    while i < SEGMENT_COUNT
        invariant
            i <= SEGMENT_COUNT,
            sizes@.len() == i,
            forall|k: int| 0 <= k < i ==> sizes@[k] == base,
        decreases SEGMENT_COUNT - i,
    {
        sizes.push(base);
        i = i + 1;
    }
    assert(sizes@ =~= Seq::new(SEGMENT_COUNT as nat, |k: int| base));
    choose_multiple_stable(&mut sizes, rng, base, remainder);
    proof {
        lemma_total_of_base_or_next(sizes@, base);
    }
    sizes
}

/// The byte offset at which segment `i` starts: the sizes before it, summed.
pub open spec fn offset(sizes: Seq<usize>, i: int) -> int {
    total(sizes.subrange(0, i))
}

/// Segment `i + 1` starts where segment `i` ends.
pub proof fn lemma_offset_step(sizes: Seq<usize>, i: int)
    requires
        0 <= i < sizes.len(),
    ensures
        offset(sizes, i + 1) == offset(sizes, i) + sizes[i],
{
    assert(sizes.subrange(0, i + 1).drop_last() =~= sizes.subrange(0, i));
}

/// Every segment starts within the file.
pub proof fn lemma_offset_bound(sizes: Seq<usize>, i: int)
    requires
        0 <= i <= sizes.len(),
    ensures
        0 <= offset(sizes, i) <= total(sizes),
    decreases sizes.len() - i,
{
    if i < sizes.len() {
        lemma_offset_step(sizes, i);
        lemma_offset_bound(sizes, i + 1);
        lemma_total_nonneg(sizes.subrange(0, i));
    } else {
        assert(sizes.subrange(0, i) =~= sizes);
        lemma_total_nonneg(sizes);
    }
}

proof fn lemma_total_nonneg(s: Seq<usize>)
    ensures
        total(s) >= 0,
    decreases s.len(),
{
    if s.len() > 0 {
        lemma_total_nonneg(s.drop_last());
    }
}

proof fn lemma_count_zero(s: Seq<usize>, v: usize)
    requires
        count_of(s, v) == 0,
    ensures
        forall|i: int| 0 <= i < s.len() ==> s[i] != v,
    decreases s.len(),
{
    if s.len() > 0 {
        lemma_count_zero(s.drop_last(), v);
        assert forall|i: int| 0 <= i < s.len() implies s[i] != v by {
            if i < s.len() - 1 {
                assert(s[i] == s.drop_last()[i]);
            }
        }
    }
}

/// The table of an empty file has only empty segments.
pub proof fn lemma_empty_table(sizes: Seq<usize>)
    requires
        is_segment_table(sizes, 0),
    ensures
        forall|i: int| 0 <= i < sizes.len() ==> sizes[i] == 0,
{
    lemma_count_zero(sizes, 1);
}

}
