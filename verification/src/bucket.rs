//! Buckets: ordered, size-bounded, time-bounded clusters of one user's
//! recent messages that are believed to be copies of one spam campaign.

use vstd::prelude::*;

use crate::similarity::{
    max2, scorable, spec_mean, spec_sum_sim, SCALE,
};

verus! {

/// Contents stored by the engine are plain ASCII, the normal form the
/// preprocessing step produces.
pub open spec fn ascii_seq(s: Seq<u8>) -> bool {
    forall|i: int| 0 <= i < s.len() ==> s[i] < 128
}

/// A message retained inside a bucket; owned exclusively by its bucket.
pub struct BucketMessage {
    pub content: Vec<u8>,
    pub message_id: u64,
    pub channel_id: u64,
    pub timestamp: u64,
}

/// The mathematical value of a [`BucketMessage`].
#[verifier::ext_equal]
pub struct BucketMessageView {
    pub content: Seq<u8>,
    pub message_id: u64,
    pub channel_id: u64,
    pub timestamp: u64,
}

impl BucketMessageView {
    pub open spec fn wf(&self) -> bool {
        scorable(self.content) && ascii_seq(self.content)
    }
}

impl View for BucketMessage {
    type V = BucketMessageView;

    open spec fn view(&self) -> BucketMessageView {
        BucketMessageView {
            content: self.content@,
            message_id: self.message_id,
            channel_id: self.channel_id,
            timestamp: self.timestamp,
        }
    }
}

impl DeepView for BucketMessage {
    type V = BucketMessageView;

    open spec fn deep_view(&self) -> BucketMessageView {
        self@
    }
}

impl Clone for BucketMessage {
    fn clone(&self) -> (r: Self)
        ensures
            r@ == self@,
    {
        BucketMessage {
            content: self.content.clone(),
            message_id: self.message_id,
            channel_id: self.channel_id,
            timestamp: self.timestamp,
        }
    }
}

/// Seconds elapsed since a message was posted; a message stamped in the
/// future counts as brand new.
pub open spec fn msg_age(now: u64, timestamp: u64) -> int {
    if timestamp <= now {
        now - timestamp
    } else {
        0
    }
}

/// True while a message still falls inside the configured time frame.
pub open spec fn is_fresh(m: BucketMessageView, now: u64, time_frame: u32) -> bool {
    msg_age(now, m.timestamp) < time_frame
}

/// The messages of `s` that are still fresh, in their original order.
pub open spec fn spec_fresh(s: Seq<BucketMessageView>, now: u64, time_frame: u32) -> Seq<
    BucketMessageView,
>
    decreases s.len(),
{
    if s.len() == 0 {
        s
    } else {
        let rest = spec_fresh(s.drop_last(), now, time_frame);
        if is_fresh(s.last(), now, time_frame) {
            rest.push(s.last())
        } else {
            rest
        }
    }
}

/// Eviction keeps only fresh messages: nothing older than the time frame
/// survives a cleanup pass.
pub proof fn lemma_spec_fresh_all_fresh(s: Seq<BucketMessageView>, now: u64, time_frame: u32)
    ensures
        spec_fresh(s, now, time_frame).len() <= s.len(),
        forall|i: int|
            0 <= i < spec_fresh(s, now, time_frame).len() ==> is_fresh(
                #[trigger] spec_fresh(s, now, time_frame)[i],
                now,
                time_frame,
            ),
    decreases s.len(),
{
    if s.len() > 0 {
        lemma_spec_fresh_all_fresh(s.drop_last(), now, time_frame);
    }
}

/// Eviction preserves well-formedness of the surviving messages.
pub proof fn lemma_spec_fresh_wf(s: Seq<BucketMessageView>, now: u64, time_frame: u32)
    requires
        forall|i: int| 0 <= i < s.len() ==> (#[trigger] s[i]).wf(),
    ensures
        forall|i: int|
            0 <= i < spec_fresh(s, now, time_frame).len() ==> (#[trigger] spec_fresh(
                s,
                now,
                time_frame,
            )[i]).wf(),
    decreases s.len(),
{
    if s.len() > 0 {
        assert(forall|i: int| 0 <= i < s.drop_last().len() ==> (#[trigger] s.drop_last()[i]).wf());
        lemma_spec_fresh_wf(s.drop_last(), now, time_frame);
        let r = spec_fresh(s, now, time_frame);
        let rest = spec_fresh(s.drop_last(), now, time_frame);
        assert forall|i: int| 0 <= i < r.len() implies (#[trigger] r[i]).wf() by {
            if is_fresh(s.last(), now, time_frame) {
                assert(r == rest.push(s.last()));
                if i < rest.len() {
                    assert(r[i] == rest[i]);
                } else {
                    assert(r[i] == s.last());
                    assert((#[trigger] s[s.len() - 1]).wf());
                }
            } else {
                assert(r == rest);
            }
        }
    }
}

/// Appending a message to a capped sequence: the new message always enters,
/// and the oldest entries are dropped first once the cap is exceeded.
pub open spec fn spec_capped_push(
    s: Seq<BucketMessageView>,
    m: BucketMessageView,
    cap: int,
) -> Seq<BucketMessageView> {
    let all = s.push(m);
    if all.len() <= cap {
        all
    } else {
        all.skip(all.len() - cap)
    }
}

/// A bucket never exceeds its cap, and on overflow the oldest messages are
/// the ones evicted: what survives is exactly the newest tail.
pub proof fn lemma_bucket_capacity(s: Seq<BucketMessageView>, m: BucketMessageView, cap: int)
    requires
        1 <= cap,
    ensures
        s.len() < cap ==> spec_capped_push(s, m, cap) == s.push(m),
        spec_capped_push(s, m, cap) == s.push(m).skip(max2(0, s.len() + 1 - cap)),
        s.len() <= cap ==> spec_capped_push(s, m, cap).len() <= cap,
{
    let all = s.push(m);
    if all.len() <= cap {
        assert(all.skip(0) =~= all);
    }
}

/// A capped insertion keeps only well-formed messages and respects the cap.
pub proof fn lemma_capped_push_wf(s: Seq<BucketMessageView>, m: BucketMessageView, cap: int)
    requires
        forall|i: int| 0 <= i < s.len() ==> (#[trigger] s[i]).wf(),
        m.wf(),
        1 <= cap <= u32::MAX,
    ensures
        forall|i: int|
            0 <= i < spec_capped_push(s, m, cap).len() ==> (#[trigger] spec_capped_push(
                s,
                m,
                cap,
            )[i]).wf(),
        spec_capped_push(s, m, cap).len() <= u32::MAX,
{
    let all = s.push(m);
    assert(forall|i: int| 0 <= i < all.len() ==> (#[trigger] all[i]).wf());
    let r = spec_capped_push(s, m, cap);
    if all.len() <= cap {
    } else {
        assert(forall|i: int| 0 <= i < r.len() ==> r[i] == #[trigger] all[i + (all.len() - cap)]);
    }
}

/// The contents of a sequence of messages, for mean-similarity scoring.
pub open spec fn spec_contents(s: Seq<BucketMessageView>) -> Seq<Seq<u8>> {
    s.map_values(|m: BucketMessageView| m.content)
}

/// A cluster of one user's recent messages.
pub struct Bucket {
    pub messages: Vec<BucketMessage>,
    pub last_score: u64,
}

/// The mathematical value of a [`Bucket`].
#[verifier::ext_equal]
pub struct BucketView {
    pub messages: Seq<BucketMessageView>,
    pub last_score: u64,
}

impl BucketView {
    pub open spec fn wf(&self) -> bool {
        forall|i: int| 0 <= i < self.messages.len() ==> (#[trigger] self.messages[i]).wf()
    }
}

impl View for Bucket {
    type V = BucketView;

    open spec fn view(&self) -> BucketView {
        BucketView { messages: self.messages.deep_view(), last_score: self.last_score }
    }
}

impl DeepView for Bucket {
    type V = BucketView;

    open spec fn deep_view(&self) -> BucketView {
        self@
    }
}

impl Bucket {
    /// A fresh, empty bucket.
    pub fn new() -> (b: Bucket)
        ensures
            b@.messages.len() == 0,
            b@.last_score == 0,
            b@.wf(),
    {
        Bucket { messages: Vec::new(), last_score: 0 }
    }

    /// A bucket with no messages left is reclaimable.
    pub fn is_empty(&self) -> (r: bool)
        ensures
            r == (self@.messages.len() == 0),
    {
        self.messages.len() == 0
    }

    pub fn len(&self) -> (r: usize)
        ensures
            r == self@.messages.len(),
    {
        self.messages.len()
    }

    /// An identical copy, for evidence snapshots.
    pub fn snapshot(&self) -> (r: Bucket)
        ensures
            r@ == self@,
    {
        let mut messages: Vec<BucketMessage> = Vec::new();
        let mut i: usize = 0;
        while i < self.messages.len()
            invariant
                i <= self.messages@.len(),
                messages@.len() == i,
                messages.deep_view() == self.messages.deep_view().take(i as int),
            decreases self.messages@.len() - i,
        {
            messages.push(self.messages[i].clone());
            proof {
                assert(messages.deep_view() =~= self.messages.deep_view().take(i + 1));
            }
            i += 1;
        }
        proof {
            assert(self.messages.deep_view().take(self.messages@.len() as int)
                =~= self.messages.deep_view());
            assert(Bucket { messages, last_score: self.last_score }@ =~= self@);
        }
        Bucket { messages, last_score: self.last_score }
    }

    /// Appends a message, records the score it joined with, and evicts the
    /// oldest messages while the bucket is over its cap.
    pub fn add_message(&mut self, message: BucketMessage, score: u64, max_size: usize)
        requires
            1 <= max_size,
        ensures
            final(self)@.messages == spec_capped_push(
                old(self)@.messages,
                message@,
                max_size as int,
            ),
            final(self)@.last_score == score,
    {
        self.last_score = score;
        self.messages.push(message);
        proof {
            assert(self.messages.deep_view() =~= old(self)@.messages.push(message@));
        }
        let ghost all = self.messages.deep_view();
        proof {
            assert(all.len() == self.messages@.len());
        }
        let ghost removed: int = 0;
        while self.messages.len() > max_size
            invariant
                1 <= max_size,
                self.last_score == score,
                0 <= removed <= all.len(),
                self.messages@.len() == all.len() - removed,
                self.messages.deep_view() =~= all.skip(removed),
                removed > 0 ==> all.len() - removed + 1 > max_size,
            decreases self.messages@.len(),
        {
            let ghost pre = self.messages.deep_view();
            let ghost prevv = self.messages@;
            self.messages.remove(0);
            proof {
                assert(self.messages@ =~= prevv.subrange(1, prevv.len() as int));
                assert forall|k: int|
                    0 <= k < self.messages@.len() implies self.messages.deep_view()[k] == all.skip(
                    removed + 1,
                )[k] by {
                    assert(self.messages.deep_view()[k] == self.messages@[k].deep_view());
                    assert(self.messages@[k] == prevv[k + 1]);
                    assert(pre[k + 1] == prevv[k + 1].deep_view());
                    assert(pre[k + 1] == all.skip(removed)[k + 1]);
                }
                assert(self.messages.deep_view() =~= all.skip(removed + 1));
                removed = removed + 1;
            }
        }
        proof {
            if all.len() <= max_size {
                assert(removed == 0);
                assert(all.skip(0) =~= all);
            } else {
                assert(self.messages.deep_view().len() == all.len() - removed);
                assert(self.messages.deep_view().len() == max_size);
                assert(removed == all.len() - max_size);
            }
        }
    }

    /// Drops every message older than the time frame, keeping the rest in
    /// order.
    pub fn remove_old_messages(&mut self, now: u64, time_frame: u32)
        ensures
            final(self)@.messages == spec_fresh(old(self)@.messages, now, time_frame),
            final(self)@.last_score == old(self)@.last_score,
    {
        let ghost orig = self.messages.deep_view();
        let mut kept: Vec<BucketMessage> = Vec::new();
        let mut i: usize = 0;
        while i < self.messages.len()
            invariant
                i <= self.messages@.len(),
                orig == self.messages.deep_view(),
                orig.len() == self.messages@.len(),
                kept@.len() == spec_fresh(orig.take(i as int), now, time_frame).len(),
                kept.deep_view() == spec_fresh(orig.take(i as int), now, time_frame),
            decreases self.messages@.len() - i,
        {
            let m = &self.messages[i];
            let fresh = if m.timestamp <= now {
                now - m.timestamp < time_frame as u64
            } else {
                time_frame > 0
            };
            proof {
                let t = orig.take(i + 1);
                assert(t.drop_last() =~= orig.take(i as int));
                assert(t.last() == orig[i as int]);
            }
            if fresh {
                kept.push(self.messages[i].clone());
                proof {
                    assert(kept.deep_view() =~= spec_fresh(orig.take(i as int), now,
                        time_frame).push(orig[i as int]));
                }
            }
            i += 1;
        }
        proof {
            assert(orig.take(orig.len() as int) =~= orig);
        }
        self.messages = kept;
    }

    /// Arithmetic mean of the similarity between each stored message and the
    /// incoming content.
    pub fn mean_similarity(&self, content: &Vec<u8>) -> (r: u64)
        requires
            self@.wf(),
            1 <= self@.messages.len() <= u32::MAX,
            scorable(content@),
        ensures
            r == spec_mean(spec_contents(self@.messages), content@),
            r <= SCALE,
    {
        let ghost contents = spec_contents(self@.messages);
        let mut sum: u64 = 0;
        let mut i: usize = 0;
        while i < self.messages.len()
            invariant
                self@.wf(),
                i <= self@.messages.len() <= u32::MAX,
                self@.messages.len() == self.messages@.len(),
                contents.len() == self@.messages.len(),
                scorable(content@),
                contents == spec_contents(self@.messages),
                sum == spec_sum_sim(contents.take(i as int), content@),
                sum <= i * (SCALE as int),
            decreases self.messages@.len() - i,
        {
            assert(self@.messages[i as int].wf());
            let s = crate::similarity::similarity(&self.messages[i].content, content);
            proof {
                let t = contents.take(i + 1);
                assert(t.drop_last() =~= contents.take(i as int));
                assert(t.last() == contents[i as int]);
                crate::similarity::lemma_similarity_bounds(contents[i as int], content@);
                assert((i + 1) * (SCALE as int) == i * (SCALE as int) + SCALE) by (nonlinear_arith);
                assert(i * (SCALE as int) <= (u32::MAX as int) * (SCALE as int)) by (
                nonlinear_arith)
                    requires
                        0 <= i <= u32::MAX as int,
                ;
            }
            sum = sum + s;
            i += 1;
        }
        proof {
            assert(contents.take(contents.len() as int) =~= contents);
            crate::similarity::lemma_sum_sim_bounds(contents, content@);
            let n = contents.len() as int;
            assert(0 <= spec_sum_sim(contents, content@) / n <= SCALE) by (nonlinear_arith)
                requires
                    1 <= n,
                    0 <= spec_sum_sim(contents, content@) <= n * (SCALE as int),
            ;
        }
        sum / (self.messages.len() as u64)
    }
}

} // verus!
