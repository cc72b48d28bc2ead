//! The similarity scorer: a normalized, symmetric score between two
//! normalized message contents.
//!
//! Scores are fixed-point fractions of [`SCALE`]: `0` means entirely
//! dissimilar, `SCALE` means identical.  The score is edit-distance based and
//! rewards a shared prefix, so small substitutions, insertions and
//! transpositions between two copies of a spam message still yield a high
//! score.  Every property the rest of the engine relies on is proved here:
//! the score stays within `[0, SCALE]`, it is symmetric, and identical
//! contents score exactly `SCALE`.

use vstd::prelude::*;

verus! {

/// Denominator of all similarity scores and thresholds: a score of `SCALE`
/// means the contents are identical.
pub const SCALE: u64 = 1_000_000;

/// A content can be scored when its length leaves room for the
/// one-past-the-end counters of the distance computation.
pub open spec fn scorable(s: Seq<u8>) -> bool {
    s.len() < usize::MAX
}

pub open spec fn min2(a: int, b: int) -> int {
    if a <= b {
        a
    } else {
        b
    }
}

pub open spec fn max2(a: int, b: int) -> int {
    if a >= b {
        a
    } else {
        b
    }
}

pub open spec fn min3(a: int, b: int, c: int) -> int {
    min2(min2(a, b), c)
}

/// Levenshtein distance between two byte sequences: the least number of
/// insertions, deletions and substitutions turning one into the other.
pub open spec fn spec_edit_distance(a: Seq<u8>, b: Seq<u8>) -> int
    decreases a.len() + b.len(),
{
    if a.len() == 0 {
        b.len() as int
    } else if b.len() == 0 {
        a.len() as int
    } else {
        min3(
            spec_edit_distance(a.drop_last(), b) + 1,
            spec_edit_distance(a, b.drop_last()) + 1,
            spec_edit_distance(a.drop_last(), b.drop_last()) + if a.last() == b.last() {
                0int
            } else {
                1int
            },
        )
    }
}

/// The edit distance is non-negative and never exceeds the longer length.
pub proof fn lemma_edit_distance_bounds(a: Seq<u8>, b: Seq<u8>)
    ensures
        0 <= spec_edit_distance(a, b) <= max2(a.len() as int, b.len() as int),
    decreases a.len() + b.len(),
{
    if a.len() == 0 || b.len() == 0 {
    } else {
        lemma_edit_distance_bounds(a.drop_last(), b);
        lemma_edit_distance_bounds(a, b.drop_last());
        lemma_edit_distance_bounds(a.drop_last(), b.drop_last());
    }
}

/// The edit distance does not depend on the order of its arguments.
pub proof fn lemma_edit_distance_symmetric(a: Seq<u8>, b: Seq<u8>)
    ensures
        spec_edit_distance(a, b) == spec_edit_distance(b, a),
    decreases a.len() + b.len(),
{
    if a.len() == 0 || b.len() == 0 {
    } else {
        lemma_edit_distance_symmetric(a.drop_last(), b);
        lemma_edit_distance_symmetric(a, b.drop_last());
        lemma_edit_distance_symmetric(a.drop_last(), b.drop_last());
    }
}

/// Length of the longest prefix the two sequences share.
pub open spec fn spec_common_prefix(a: Seq<u8>, b: Seq<u8>) -> int
    decreases a.len(),
{
    if a.len() == 0 || b.len() == 0 || a[0] != b[0] {
        0
    } else {
        1 + spec_common_prefix(a.drop_first(), b.drop_first())
    }
}

pub proof fn lemma_common_prefix_nonneg(a: Seq<u8>, b: Seq<u8>)
    ensures
        spec_common_prefix(a, b) >= 0,
    decreases a.len(),
{
    if a.len() == 0 || b.len() == 0 || a[0] != b[0] {
    } else {
        lemma_common_prefix_nonneg(a.drop_first(), b.drop_first());
    }
}

pub proof fn lemma_common_prefix_symmetric(a: Seq<u8>, b: Seq<u8>)
    ensures
        spec_common_prefix(a, b) == spec_common_prefix(b, a),
    decreases a.len(),
{
    if a.len() == 0 || b.len() == 0 || a[0] != b[0] {
    } else {
        lemma_common_prefix_symmetric(a.drop_first(), b.drop_first());
    }
}

/// Raw score before the prefix reward: the surviving fraction of the longer
/// length once the edit distance is paid, scaled to [`SCALE`].
pub open spec fn spec_base_score(a: Seq<u8>, b: Seq<u8>) -> int {
    let m = max2(a.len() as int, b.len() as int);
    (SCALE as int) * (m - spec_edit_distance(a, b)) / m
}

/// Shared-prefix reward factor: one tenth of the remaining headroom per
/// shared leading byte, up to four bytes.
pub open spec fn spec_prefix_boost(a: Seq<u8>, b: Seq<u8>) -> int {
    min2(spec_common_prefix(a, b), 4)
}

/// The similarity score: `SCALE` for identical contents, otherwise the base
/// score plus the shared-prefix reward.
pub open spec fn spec_similarity(a: Seq<u8>, b: Seq<u8>) -> int {
    if a == b {
        SCALE as int
    } else {
        let base = spec_base_score(a, b);
        base + spec_prefix_boost(a, b) * ((SCALE as int) - base) / 10
    }
}

/// Identical contents score exactly `SCALE`.
pub proof fn lemma_similarity_identical(a: Seq<u8>)
    ensures
        spec_similarity(a, a) == SCALE,
{
}

/// On distinct contents the base score stays within `[0, SCALE]`.
proof fn lemma_base_score_bounds(a: Seq<u8>, b: Seq<u8>)
    requires
        a != b,
    ensures
        0 <= spec_base_score(a, b) <= SCALE,
{
    let m = max2(a.len() as int, b.len() as int);
    if m == 0 {
        assert(a =~= b);
    }
    let d = spec_edit_distance(a, b);
    lemma_edit_distance_bounds(a, b);
    let s = SCALE as int;
    assert(0 <= s * (m - d) / m <= s) by (nonlinear_arith)
        requires
            1 <= m,
            0 <= d <= m,
            s == SCALE,
    ;
}

/// The similarity score stays within `[0, SCALE]`.
pub proof fn lemma_similarity_bounds(a: Seq<u8>, b: Seq<u8>)
    ensures
        0 <= spec_similarity(a, b) <= SCALE,
{
    if a == b {
    } else {
        lemma_base_score_bounds(a, b);
        lemma_common_prefix_nonneg(a, b);
        let base = spec_base_score(a, b);
        let boost = spec_prefix_boost(a, b);
        let s = SCALE as int;
        assert(0 <= boost * (s - base) / 10 <= s - base) by (nonlinear_arith)
            requires
                0 <= boost <= 4,
                0 <= base <= s,
        ;
    }
}

/// The similarity score does not depend on the order of its arguments.
pub proof fn lemma_similarity_symmetric(a: Seq<u8>, b: Seq<u8>)
    ensures
        spec_similarity(a, b) == spec_similarity(b, a),
{
    if a == b {
    } else {
        lemma_edit_distance_symmetric(a, b);
        lemma_common_prefix_symmetric(a, b);
    }
}

/// True when the two vectors hold the same bytes.
pub fn bytes_eq(a: &Vec<u8>, b: &Vec<u8>) -> (r: bool)
    ensures
        r == (a@ == b@),
{
    if a.len() != b.len() {
        return false;
    }
    let mut i: usize = 0;
    while i < a.len()
        invariant
            i <= a.len(),
            a@.len() == b@.len(),
            forall|k: int| 0 <= k < i ==> a@[k] == b@[k],
        decreases a.len() - i,
    {
        if a[i] != b[i] {
            return false;
        }
        i += 1;
    }
    proof {
        assert(a@ =~= b@);
    }
    true
}

/// Computes the Levenshtein distance with the usual rolling-row dynamic
/// program.
fn edit_distance(a: &Vec<u8>, b: &Vec<u8>) -> (d: usize)
    requires
        scorable(a@),
        scorable(b@),
    ensures
        d == spec_edit_distance(a@, b@),
{
    let la = a.len();
    let lb = b.len();
    let mut prev: Vec<usize> = Vec::new();
    let mut j: usize = 0;
    while j <= lb
        invariant
            j <= lb + 1,
            lb == b@.len() < usize::MAX,
            prev@.len() == j,
            forall|k: int| 0 <= k < j ==> prev@[k] == spec_edit_distance(a@.take(0), b@.take(k)),
        decreases lb + 1 - j,
    {
        proof {
            assert(a@.take(0) =~= Seq::<u8>::empty());
            assert(spec_edit_distance(a@.take(0), b@.take(j as int)) == j);
        }
        prev.push(j);
        j += 1;
    }
    let mut i: usize = 1;
    while i <= la
        invariant
            1 <= i <= la + 1,
            la == a@.len() < usize::MAX,
            lb == b@.len() < usize::MAX,
            prev@.len() == lb + 1,
            forall|k: int|
                0 <= k <= lb ==> prev@[k] == spec_edit_distance(a@.take(i - 1), b@.take(k)),
        decreases la + 1 - i,
    {
        let mut cur: Vec<usize> = Vec::new();
        proof {
            assert(b@.take(0) =~= Seq::<u8>::empty());
            assert(spec_edit_distance(a@.take(i as int), b@.take(0)) == i);
        }
        cur.push(i);
        let mut j: usize = 1;
        while j <= lb
            invariant
                1 <= j <= lb + 1,
                1 <= i <= la,
                la == a@.len() < usize::MAX,
                lb == b@.len() < usize::MAX,
                prev@.len() == lb + 1,
                forall|k: int|
                    0 <= k <= lb ==> prev@[k] == spec_edit_distance(a@.take(i - 1), b@.take(k)),
                cur@.len() == j,
                forall|k: int|
                    0 <= k < j ==> cur@[k] == spec_edit_distance(a@.take(i as int), b@.take(k)),
            decreases lb + 1 - j,
        {
            proof {
                lemma_edit_distance_bounds(a@.take(i - 1), b@.take(j as int));
                lemma_edit_distance_bounds(a@.take(i as int), b@.take(j - 1));
                lemma_edit_distance_bounds(a@.take(i - 1), b@.take(j - 1));
            }
            let del = prev[j] + 1;
            let ins = cur[j - 1] + 1;
            let sub = prev[j - 1] + (if a[i - 1] == b[j - 1] {
                0
            } else {
                1
            });
            let mut best = del;
            if ins < best {
                best = ins;
            }
            if sub < best {
                best = sub;
            }
            proof {
                let ai = a@.take(i as int);
                let bj = b@.take(j as int);
                assert(ai.drop_last() =~= a@.take(i - 1));
                assert(bj.drop_last() =~= b@.take(j - 1));
                assert(ai.last() == a@[i - 1]);
                assert(bj.last() == b@[j - 1]);
                assert(spec_edit_distance(ai, bj) == min3(
                    spec_edit_distance(a@.take(i - 1), bj) + 1,
                    spec_edit_distance(ai, b@.take(j - 1)) + 1,
                    spec_edit_distance(a@.take(i - 1), b@.take(j - 1)) + if a@[i - 1] == b@[j
                        - 1] {
                        0int
                    } else {
                        1int
                    },
                ));
            }
            cur.push(best);
            j += 1;
        }
        prev = cur;
        i += 1;
    }
    proof {
        assert(a@.take(la as int) =~= a@);
        assert(b@.take(lb as int) =~= b@);
    }
    prev[lb]
}

/// Length of the shared prefix, capped at four bytes.
fn common_prefix_capped(a: &Vec<u8>, b: &Vec<u8>) -> (r: usize)
    ensures
        r == spec_prefix_boost(a@, b@),
{
    let mut i: usize = 0;
    proof {
        assert(a@.skip(0) =~= a@);
        assert(b@.skip(0) =~= b@);
    }
    while i < 4 && i < a.len() && i < b.len() && a[i] == b[i]
        invariant
            i <= 4,
            i <= a.len(),
            i <= b.len(),
            spec_common_prefix(a@, b@) == i + spec_common_prefix(
                a@.skip(i as int),
                b@.skip(i as int),
            ),
        decreases 4 - i,
    {
        proof {
            let sa = a@.skip(i as int);
            let sb = b@.skip(i as int);
            assert(sa[0] == a@[i as int]);
            assert(sb[0] == b@[i as int]);
            assert(sa.drop_first() =~= a@.skip(i + 1));
            assert(sb.drop_first() =~= b@.skip(i + 1));
        }
        i += 1;
    }
    proof {
        let sa = a@.skip(i as int);
        let sb = b@.skip(i as int);
        lemma_common_prefix_nonneg(sa, sb);
        if i < 4 {
            assert(sa.len() == 0 || sb.len() == 0 || sa[0] != sb[0]);
            assert(spec_common_prefix(sa, sb) == 0);
        }
    }
    i
}

/// Scores two contents; see [`spec_similarity`] for the exact value.
pub fn similarity(a: &Vec<u8>, b: &Vec<u8>) -> (r: u64)
    requires
        scorable(a@),
        scorable(b@),
    ensures
        r == spec_similarity(a@, b@),
        r <= SCALE,
        a@ == b@ ==> r == SCALE,
{
    proof {
        lemma_similarity_bounds(a@, b@);
    }
    if bytes_eq(a, b) {
        return SCALE;
    }
    let d = edit_distance(a, b);
    let la = a.len();
    let lb = b.len();
    let m = if la >= lb {
        la
    } else {
        lb
    };
    proof {
        if m == 0 {
            assert(a@ =~= b@);
        }
        lemma_edit_distance_bounds(a@, b@);
    }
    let wide = (SCALE as u128) * ((m - d) as u128) / (m as u128);
    proof {
        lemma_base_score_bounds(a@, b@);
    }
    let base = wide as u64;
    let boost = common_prefix_capped(a, b) as u64;
    base + boost * (SCALE - base) / 10
}

/// Sum of the similarity of each content in `cs` against `c`.
pub open spec fn spec_sum_sim(cs: Seq<Seq<u8>>, c: Seq<u8>) -> int
    decreases cs.len(),
{
    if cs.len() == 0 {
        0
    } else {
        spec_sum_sim(cs.drop_last(), c) + spec_similarity(cs.last(), c)
    }
}

pub proof fn lemma_sum_sim_bounds(cs: Seq<Seq<u8>>, c: Seq<u8>)
    ensures
        0 <= spec_sum_sim(cs, c) <= cs.len() * (SCALE as int),
    decreases cs.len(),
{
    if cs.len() == 0 {
    } else {
        lemma_sum_sim_bounds(cs.drop_last(), c);
        lemma_similarity_bounds(cs.last(), c);
        assert(cs.len() * (SCALE as int) == (cs.len() - 1) * (SCALE as int) + SCALE) by (
        nonlinear_arith);
    }
}

/// Arithmetic mean of the similarities of the contents in `cs` against `c`;
/// meaningful only when `cs` is non-empty.
pub open spec fn spec_mean(cs: Seq<Seq<u8>>, c: Seq<u8>) -> int {
    spec_sum_sim(cs, c) / (cs.len() as int)
}

/// One operand fixed for repeated comparisons against many candidates.
pub struct SimilarityScorer {
    reference: Vec<u8>,
}

impl View for SimilarityScorer {
    type V = Seq<u8>;

    closed spec fn view(&self) -> Seq<u8> {
        self.reference@
    }
}

impl SimilarityScorer {
    /// Fixes the operand every later call scores against.
    pub fn new(reference: Vec<u8>) -> (s: SimilarityScorer)
        requires
            scorable(reference@),
        ensures
            s@ == reference@,
            scorable(s@),
    {
        SimilarityScorer { reference }
    }

    /// Scores a candidate against the fixed operand.
    pub fn score(&self, candidate: &Vec<u8>) -> (r: u64)
        requires
            scorable(self@),
            scorable(candidate@),
        ensures
            r == spec_similarity(self@, candidate@),
            r <= SCALE,
    {
        similarity(&self.reference, candidate)
    }
}

} // verus!
