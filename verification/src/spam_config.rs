//! Per-guild anti-spam configuration: the punishment, the escalation tiers,
//! and the windows that govern bucket eviction and re-offense memory.

use vstd::prelude::*;
use vstd::string::StringSliceAdditionalSpecFns;

use crate::similarity::{min2, SCALE};

verus! {

/// What happens to a user once spam is detected.
#[derive(Clone, Copy, PartialEq, Eq, Structural, Debug)]
pub enum Punishment {
    Mute,
    Ban,
}

/// One guild's anti-spam settings.
///
/// `max_messages` and `similarity_thresholds` are parallel lists: tier `i`
/// fires when the cluster's confidence exceeds `similarity_thresholds[i]`
/// and the cluster holds at least `max_messages[i]` messages.  Thresholds
/// are fixed-point fractions of [`SCALE`]; a `re_punish_threshold` above
/// `SCALE` disables the re-offense fast path.
pub struct AntiSpamConfig {
    pub punishment: Punishment,
    pub timeout_minutes: u32,
    pub max_messages: Vec<u32>,
    pub similarity_thresholds: Vec<u64>,
    pub re_punish_threshold: u64,
    pub time_frame_seconds: u32,
    pub clean_user: bool,
}

/// The mathematical value of an [`AntiSpamConfig`].
#[verifier::ext_equal]
pub struct AntiSpamConfigView {
    pub punishment: Punishment,
    pub timeout_minutes: u32,
    pub max_messages: Seq<u32>,
    pub similarity_thresholds: Seq<u64>,
    pub re_punish_threshold: u64,
    pub time_frame_seconds: u32,
    pub clean_user: bool,
}

impl AntiSpamConfigView {
    /// The two tier lists index together and no tier asks for an empty
    /// cluster.
    pub open spec fn wf(&self) -> bool {
        &&& self.max_messages.len() == self.similarity_thresholds.len()
        &&& self.max_messages.len() >= 1
        &&& forall|i: int| 0 <= i < self.max_messages.len() ==> 1 <= #[trigger] self.max_messages[i]
    }
}

impl View for AntiSpamConfig {
    type V = AntiSpamConfigView;

    open spec fn view(&self) -> AntiSpamConfigView {
        AntiSpamConfigView {
            punishment: self.punishment,
            timeout_minutes: self.timeout_minutes,
            max_messages: self.max_messages@,
            similarity_thresholds: self.similarity_thresholds@,
            re_punish_threshold: self.re_punish_threshold,
            time_frame_seconds: self.time_frame_seconds,
            clean_user: self.clean_user,
        }
    }
}

impl DeepView for AntiSpamConfig {
    type V = AntiSpamConfigView;

    open spec fn deep_view(&self) -> AntiSpamConfigView {
        self@
    }
}

impl Clone for AntiSpamConfig {
    fn clone(&self) -> (r: Self)
        ensures
            r@ == self@,
    {
        let max_messages = self.max_messages.clone();
        let similarity_thresholds = self.similarity_thresholds.clone();
        proof {
            assert(max_messages@ =~= self.max_messages@);
            assert(similarity_thresholds@ =~= self.similarity_thresholds@);
        }
        AntiSpamConfig {
            punishment: self.punishment,
            timeout_minutes: self.timeout_minutes,
            max_messages,
            similarity_thresholds,
            re_punish_threshold: self.re_punish_threshold,
            time_frame_seconds: self.time_frame_seconds,
            clean_user: self.clean_user,
        }
    }
}

/// Least element of a threshold list; an empty list yields zero, matching a
/// wide-open admission floor.
pub open spec fn seq_min_u64(s: Seq<u64>) -> int
    decreases s.len(),
{
    if s.len() == 0 {
        0
    } else if s.len() == 1 {
        s[0] as int
    } else {
        min2(seq_min_u64(s.drop_last()), s.last() as int)
    }
}

/// Greatest element of a size list; an empty list yields zero.
pub open spec fn seq_max_u32(s: Seq<u32>) -> int
    decreases s.len(),
{
    if s.len() == 0 {
        0
    } else if s.len() == 1 {
        s[0] as int
    } else {
        let rest = seq_max_u32(s.drop_last());
        if rest >= s.last() as int {
            rest
        } else {
            s.last() as int
        }
    }
}

/// The least element of a list of unsigned thresholds is never negative.
pub proof fn lemma_seq_min_u64_nonneg(s: Seq<u64>)
    ensures
        0 <= seq_min_u64(s),
    decreases s.len(),
{
    if s.len() > 1 {
        lemma_seq_min_u64_nonneg(s.drop_last());
    }
}

/// Every element is at most the sequence's maximum.
pub proof fn lemma_seq_max_u32_ge(s: Seq<u32>)
    ensures
        forall|i: int| 0 <= i < s.len() ==> #[trigger] s[i] <= seq_max_u32(s),
    decreases s.len(),
{
    if s.len() > 1 {
        lemma_seq_max_u32_ge(s.drop_last());
        assert(forall|i: int|
            0 <= i < s.len() - 1 ==> #[trigger] s[i] == s.drop_last()[i]);
    }
}

/// The admission floor for joining an existing bucket: the least configured
/// tier threshold.
pub open spec fn spec_min_threshold(c: AntiSpamConfigView) -> int {
    seq_min_u64(c.similarity_thresholds)
}

/// The physical bucket capacity: the largest configured tier size.
pub open spec fn spec_capacity(c: AntiSpamConfigView) -> int {
    seq_max_u32(c.max_messages)
}

/// The first escalation tier that fires for a cluster of the given
/// confidence and size, scanning from tier `i` upward.
pub open spec fn spec_first_tier_from(
    c: AntiSpamConfigView,
    confidence: int,
    size: int,
    i: int,
) -> Option<int>
    decreases c.similarity_thresholds.len() - i,
{
    if i < 0 || i >= c.similarity_thresholds.len() {
        None
    } else if confidence > c.similarity_thresholds[i] && size >= c.max_messages[i] {
        Some(i)
    } else {
        spec_first_tier_from(c, confidence, size, i + 1)
    }
}

/// The first escalation tier that fires, in configured order.
pub open spec fn spec_first_tier(c: AntiSpamConfigView, confidence: int, size: int) -> Option<
    int,
> {
    spec_first_tier_from(c, confidence, size, 0)
}

impl AntiSpamConfig {
    /// True when the tier lists make a usable configuration; callers outside
    /// the engine test this before handing a configuration in.
    pub fn is_well_formed(&self) -> (r: bool)
        ensures
            r == self@.wf(),
    {
        if self.max_messages.len() != self.similarity_thresholds.len() {
            return false;
        }
        if self.max_messages.len() == 0 {
            return false;
        }
        let mut i: usize = 0;
        while i < self.max_messages.len()
            invariant
                i <= self.max_messages@.len(),
                forall|k: int| 0 <= k < i ==> 1 <= #[trigger] self.max_messages@[k],
            decreases self.max_messages@.len() - i,
        {
            if self.max_messages[i] < 1 {
                return false;
            }
            i += 1;
        }
        true
    }

    /// The admission floor: the least configured similarity threshold.
    pub fn min_threshold(&self) -> (r: u64)
        requires
            self@.similarity_thresholds.len() >= 1,
        ensures
            r == spec_min_threshold(self@),
    {
        let s = &self.similarity_thresholds;
        let mut r = s[0];
        let mut i: usize = 1;
        while i < s.len()
            invariant
                1 <= i <= s@.len(),
                r == seq_min_u64(s@.take(i as int)),
            decreases s@.len() - i,
        {
            proof {
                let t = s@.take(i + 1);
                assert(t.drop_last() =~= s@.take(i as int));
                assert(t.last() == s@[i as int]);
            }
            if s[i] < r {
                r = s[i];
            }
            i += 1;
        }
        proof {
            assert(s@.take(s@.len() as int) =~= s@);
        }
        r
    }

    /// The physical bucket capacity: the largest configured tier size.
    pub fn capacity(&self) -> (r: u32)
        requires
            self@.wf(),
        ensures
            r == spec_capacity(self@),
            1 <= r,
    {
        let s = &self.max_messages;
        let mut r = s[0];
        let mut i: usize = 1;
        while i < s.len()
            invariant
                1 <= i <= s@.len(),
                r == seq_max_u32(s@.take(i as int)),
            decreases s@.len() - i,
        {
            proof {
                let t = s@.take(i + 1);
                assert(t.drop_last() =~= s@.take(i as int));
                assert(t.last() == s@[i as int]);
            }
            if s[i] > r {
                r = s[i];
            }
            i += 1;
        }
        proof {
            assert(s@.take(s@.len() as int) =~= s@);
            lemma_seq_max_u32_ge(s@);
            assert(s@[0] <= seq_max_u32(s@));
        }
        r
    }

    /// Walks the escalation tiers in configured order and returns the first
    /// one that fires for the given confidence and cluster size.
    pub fn first_firing_tier(&self, confidence: u64, size: usize) -> (r: Option<usize>)
        requires
            self@.wf(),
        ensures
            match r {
                Some(t) => spec_first_tier(self@, confidence as int, size as int) == Some(
                    t as int,
                ),
                None => spec_first_tier(self@, confidence as int, size as int) is None,
            },
    {
        let mut i: usize = 0;
        while i < self.similarity_thresholds.len()
            invariant
                i <= self@.similarity_thresholds.len(),
                self@.wf(),
                spec_first_tier(self@, confidence as int, size as int) == spec_first_tier_from(
                    self@,
                    confidence as int,
                    size as int,
                    i as int,
                ),
            decreases self@.similarity_thresholds.len() - i,
        {
            if confidence > self.similarity_thresholds[i] && size >= self.max_messages[i]
                as usize {
                return Some(i);
            }
            i += 1;
        }
        None
    }
}


/// A decimal digit byte.
pub open spec fn is_digit(b: u8) -> bool {
    48 <= b <= 57
}

/// First position at or after `i` that does not hold a digit.
pub open spec fn digits_end(b: Seq<u8>, i: int) -> int
    decreases b.len() - i,
{
    if i < 0 || i >= b.len() || !is_digit(b[i]) {
        i
    } else {
        digits_end(b, i + 1)
    }
}

/// The digit run starting at `i` stays within bounds, holds only digits,
/// and stops at the first non-digit.
pub proof fn lemma_digits_end_bounds(b: Seq<u8>, i: int)
    requires
        0 <= i <= b.len(),
    ensures
        i <= digits_end(b, i) <= b.len(),
        forall|t: int| i <= t < digits_end(b, i) ==> is_digit(#[trigger] b[t]),
        digits_end(b, i) < b.len() ==> !is_digit(b[digits_end(b, i)]),
    decreases b.len() - i,
{
    if i < b.len() && is_digit(b[i]) {
        lemma_digits_end_bounds(b, i + 1);
    }
}

/// The value of the decimal numeral in `b[i..j)`.
pub open spec fn digits_value(b: Seq<u8>, i: int, j: int) -> int
    decreases j - i,
{
    if !(0 <= i && i < j && j <= b.len()) {
        0
    } else {
        digits_value(b, i, j - 1) * 10 + (b[j - 1] - 48)
    }
}

/// A numeral's value is never negative.
pub proof fn lemma_digits_value_nonneg(b: Seq<u8>, i: int, j: int)
    requires
        0 <= i,
        j <= b.len(),
        forall|t: int| i <= t < j ==> is_digit(#[trigger] b[t]),
    ensures
        0 <= digits_value(b, i, j),
    decreases j - i,
{
    if 0 <= i && i < j && j <= b.len() {
        lemma_digits_value_nonneg(b, i, j - 1);
        let prev = digits_value(b, i, j - 1);
        assert(is_digit(b[j - 1]));
        assert(prev * 10 + (b[j - 1] - 48) >= 0) by (nonlinear_arith)
            requires
                prev >= 0,
                b[j - 1] >= 48,
        ;
    }
}

/// A numeral's value grows with the digits it spans.
pub proof fn lemma_digits_value_monotone(b: Seq<u8>, i: int, k: int, j: int)
    requires
        0 <= i <= k <= j <= b.len(),
        forall|t: int| i <= t < j ==> is_digit(#[trigger] b[t]),
    ensures
        digits_value(b, i, k) <= digits_value(b, i, j),
    decreases j - k,
{
    if k < j {
        lemma_digits_value_monotone(b, i, k, j - 1);
        lemma_digits_value_nonneg(b, i, j - 1);
        let prev = digits_value(b, i, j - 1);
        if i < j {
            assert(is_digit(b[j - 1]));
            assert(prev * 10 + (b[j - 1] - 48) >= prev) by (nonlinear_arith)
                requires
                    prev >= 0,
                    b[j - 1] >= 48,
            ;
        }
    }
}

/// First position at or after `i` that no longer continues a run of
/// comma-space separators.
pub open spec fn sep_end(b: Seq<u8>, i: int) -> int
    decreases b.len() - i,
{
    if 0 <= i && i + 2 <= b.len() && b[i] == 44 && b[i + 1] == 32 {
        sep_end(b, i + 2)
    } else {
        i
    }
}

pub proof fn lemma_sep_end_bounds(b: Seq<u8>, i: int)
    requires
        0 <= i <= b.len(),
    ensures
        i <= sep_end(b, i) <= b.len(),
    decreases b.len() - i,
{
    if i + 2 <= b.len() && b[i] == 44 && b[i + 1] == 32 {
        lemma_sep_end_bounds(b, i + 2);
    }
}

/// The tier-size list grammar, parsed from position `i`: a decimal numeral
/// that fits `u32`, then either the end of the input or a run of
/// comma-space separators followed by the rest of the list.  Anything else
/// is rejected.
pub open spec fn spec_parse_list_from(b: Seq<u8>, i: int) -> Option<Seq<u32>>
    decreases b.len() - i,
    when 0 <= i <= b.len()
    via spec_parse_list_from_dec
{
    let j = digits_end(b, i);
    if j == i {
        None
    } else if digits_value(b, i, j) > u32::MAX {
        None
    } else {
        let v = digits_value(b, i, j) as u32;
        if j == b.len() {
            Some(seq![v])
        } else {
            let k = sep_end(b, j);
            if k == j {
                None
            } else {
                match spec_parse_list_from(b, k) {
                    Some(rest) => Some(seq![v] + rest),
                    None => None,
                }
            }
        }
    }
}

#[via_fn]
proof fn spec_parse_list_from_dec(b: Seq<u8>, i: int) {
    lemma_digits_end_bounds(b, i);
    lemma_sep_end_bounds(b, digits_end(b, i));
}

/// The parse of a whole comma-separated list of tier sizes.
pub open spec fn spec_parse_u32_list(b: Seq<u8>) -> Option<Seq<u32>> {
    spec_parse_list_from(b, 0)
}

/// Parses a comma-separated list of tier sizes, as entered in the
/// configuration command (for example `6, 4, 2`); see
/// [`spec_parse_list_from`] for the accepted grammar.
pub fn parse_u32_list(s: &str) -> (r: Option<Vec<u32>>)
    ensures
        match r {
            Some(v) => spec_parse_u32_list(s.spec_bytes()) == Some(v@),
            None => spec_parse_u32_list(s.spec_bytes()) is None,
        },
{
    let b = s.as_bytes();
    parse_list_from(b, 0)
}

fn parse_list_from(b: &[u8], i: usize) -> (r: Option<Vec<u32>>)
    requires
        i <= b@.len(),
    ensures
        match r {
            Some(v) => spec_parse_list_from(b@, i as int) == Some(v@),
            None => spec_parse_list_from(b@, i as int) is None,
        },
    decreases b@.len() - i,
{
    proof {
        lemma_digits_end_bounds(b@, i as int);
    }
    let mut j: usize = i;
    while j < b.len() && b[j as usize] >= 48 && b[j as usize] <= 57
        invariant
            i <= j <= b@.len(),
            digits_end(b@, i as int) == digits_end(b@, j as int),
        decreases b@.len() - j,
    {
        j += 1;
    }
    proof {
        assert(digits_end(b@, j as int) == j);
    }
    if j == i {
        return None;
    }
    let mut acc: u64 = 0;
    let mut k: usize = i;
    while k < j
        invariant
            i <= k <= j <= b@.len(),
            digits_end(b@, i as int) == j,
            forall|t: int| i <= t < j ==> is_digit(#[trigger] b@[t]),
            acc == digits_value(b@, i as int, k as int),
            acc <= u32::MAX as u64,
        decreases j - k,
    {
        let d = b[k] - 48;
        let next = acc * 10 + d as u64;
        proof {
            assert(digits_value(b@, i as int, k + 1) == digits_value(b@, i as int, k as int) * 10
                + (b@[k as int] - 48));
        }
        if next > u32::MAX as u64 {
            proof {
                lemma_digits_value_monotone(b@, i as int, k + 1, j as int);
            }
            return None;
        }
        acc = next;
        k += 1;
    }
    let v = acc as u32;
    if j == b.len() {
        let mut out: Vec<u32> = Vec::new();
        out.push(v);
        proof {
            assert(out@ =~= seq![v]);
        }
        return Some(out);
    }
    proof {
        lemma_sep_end_bounds(b@, j as int);
    }
    let mut m: usize = j;
    while m < b.len() && b.len() - m >= 2 && b[m] == 44 && b[m + 1] == 32
        invariant
            j <= m <= b@.len(),
            sep_end(b@, j as int) == sep_end(b@, m as int),
        decreases b@.len() - m,
    {
        m += 2;
    }
    proof {
        assert(sep_end(b@, m as int) == m);
        assert(sep_end(b@, j as int) == m);
    }
    if m == j {
        return None;
    }
    let rest = parse_list_from(b, m);
    match rest {
        Some(mut tail) => {
            let mut out: Vec<u32> = Vec::new();
            out.push(v);
            let ghost tailv = tail@;
            out.append(&mut tail);
            proof {
                assert(out@ =~= seq![v] + tailv);
            }
            Some(out)
        },
        None => None,
    }
}

} // verus!
