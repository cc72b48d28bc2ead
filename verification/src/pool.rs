//! The per-guild pool: every user's open buckets, the guild's anti-spam
//! configuration, and the guild's punished-fingerprint registry, together
//! with the classification state machine.

use vstd::prelude::*;

use crate::bucket::{
    ascii_seq, spec_capped_push, spec_contents, spec_fresh, Bucket, BucketMessage,
    BucketMessageView, BucketView,
};
use crate::punished::{
    spec_max_punished_sim, spec_upsert, spec_upsert_next_id, spec_unexpired, PunishedRecordView,
    RecentlyPunishedStore,
};
use crate::similarity::{scorable, spec_mean, SCALE};
use crate::spam_config::{
    spec_capacity, spec_first_tier, spec_min_threshold, AntiSpamConfig, AntiSpamConfigView,
};

verus! {

/// An inbound, preprocessed message event.
pub struct NewMessage {
    pub id: u64,
    pub content: Vec<u8>,
    pub guild_id: u64,
    pub channel_id: u64,
    pub author_name: String,
    pub author_id: u64,
    pub timestamp: u64,
}

/// The mathematical value of a [`NewMessage`].
#[verifier::ext_equal]
pub struct NewMessageView {
    pub id: u64,
    pub content: Seq<u8>,
    pub guild_id: u64,
    pub channel_id: u64,
    pub author_name: Seq<char>,
    pub author_id: u64,
    pub timestamp: u64,
}

impl NewMessageView {
    pub open spec fn wf(&self) -> bool {
        scorable(self.content) && ascii_seq(self.content)
    }
}

impl View for NewMessage {
    type V = NewMessageView;

    open spec fn view(&self) -> NewMessageView {
        NewMessageView {
            id: self.id,
            content: self.content@,
            guild_id: self.guild_id,
            channel_id: self.channel_id,
            author_name: self.author_name@,
            author_id: self.author_id,
            timestamp: self.timestamp,
        }
    }
}

/// The copy of a message that enters a bucket.
pub open spec fn spec_bucket_msg(m: NewMessageView) -> BucketMessageView {
    BucketMessageView {
        content: m.content,
        message_id: m.id,
        channel_id: m.channel_id,
        timestamp: m.timestamp,
    }
}

/// One user's currently open buckets.
pub struct UserBuckets {
    pub user_id: u64,
    pub buckets: Vec<Bucket>,
}

/// The mathematical value of a [`UserBuckets`].
#[verifier::ext_equal]
pub struct UserBucketsView {
    pub user_id: u64,
    pub buckets: Seq<BucketView>,
}

impl UserBucketsView {
    pub open spec fn wf(&self) -> bool {
        forall|i: int|
            0 <= i < self.buckets.len() ==> (#[trigger] self.buckets[i]).wf()
                && self.buckets[i].messages.len() <= u32::MAX
    }
}

impl View for UserBuckets {
    type V = UserBucketsView;

    open spec fn view(&self) -> UserBucketsView {
        UserBucketsView { user_id: self.user_id, buckets: self.buckets.deep_view() }
    }
}

impl DeepView for UserBuckets {
    type V = UserBucketsView;

    open spec fn deep_view(&self) -> UserBucketsView {
        self@
    }
}

/// The verdict of one classification step.
pub struct SpamVerdict {
    pub is_spam: bool,
    pub evidence: Option<Bucket>,
    pub confidence: u64,
}

/// The mathematical value of a [`SpamVerdict`].
#[verifier::ext_equal]
pub struct SpamVerdictView {
    pub is_spam: bool,
    pub evidence: Option<BucketView>,
    pub confidence: u64,
}

impl View for SpamVerdict {
    type V = SpamVerdictView;

    open spec fn view(&self) -> SpamVerdictView {
        SpamVerdictView {
            is_spam: self.is_spam,
            evidence: self.evidence.deep_view(),
            confidence: self.confidence,
        }
    }
}

/// Every bucket of the sequence after one eviction pass.
pub open spec fn spec_evict_all(bs: Seq<BucketView>, now: u64, time_frame: u32) -> Seq<
    BucketView,
> {
    bs.map_values(
        |b: BucketView| BucketView {
            messages: spec_fresh(b.messages, now, time_frame),
            last_score: b.last_score,
        },
    )
}

/// The best candidate bucket: index and mean score of the first bucket
/// attaining the highest mean similarity; `(-1, 0)` when no non-empty
/// bucket scores above zero.
pub open spec fn spec_best_bucket(bs: Seq<BucketView>, c: Seq<u8>) -> (int, int)
    decreases bs.len(),
{
    if bs.len() == 0 {
        (-1int, 0int)
    } else {
        let p = spec_best_bucket(bs.drop_last(), c);
        let lb = bs.last();
        if lb.messages.len() > 0 && spec_mean(spec_contents(lb.messages), c) > p.1 {
            ((bs.len() - 1) as int, spec_mean(spec_contents(lb.messages), c))
        } else {
            p
        }
    }
}

/// The best-bucket scan yields an in-range index whenever its score is
/// positive, and the score is the mean of the bucket at that index.
pub proof fn lemma_best_bucket_sound(bs: Seq<BucketView>, c: Seq<u8>)
    ensures
        spec_best_bucket(bs, c).1 >= 0,
        spec_best_bucket(bs, c).1 > 0 ==> {
            let p = spec_best_bucket(bs, c);
            &&& 0 <= p.0 < bs.len()
            &&& bs[p.0].messages.len() > 0
            &&& p.1 == spec_mean(spec_contents(bs[p.0].messages), c)
        },
        spec_best_bucket(bs, c).1 == 0 ==> spec_best_bucket(bs, c).0 == -1,
    decreases bs.len(),
{
    if bs.len() > 0 {
        lemma_best_bucket_sound(bs.drop_last(), c);
        let p = spec_best_bucket(bs.drop_last(), c);
        if p.1 > 0 {
            assert(bs[p.0] == bs.drop_last()[p.0]);
        }
    }
}

/// The clustering outcome for one incoming message: the user's buckets
/// after eviction and insertion, the index of the bucket that received the
/// message, and the confidence it joined with.
#[verifier::ext_equal]
pub struct ClusterOutcome {
    pub buckets: Seq<BucketView>,
    pub target: int,
    pub confidence: int,
}

/// Assigns a message to the closest existing bucket if its mean similarity
/// beats the admission floor (the least tier threshold), or to a brand-new
/// bucket otherwise; then inserts the message, capped at the largest tier
/// size.
pub open spec fn spec_cluster(
    bs: Seq<BucketView>,
    m: BucketMessageView,
    now: u64,
    cfg: AntiSpamConfigView,
) -> ClusterOutcome {
    let ev = spec_evict_all(bs, now, cfg.time_frame_seconds);
    let best = spec_best_bucket(ev, m.content);
    let admitted = best.1 > spec_min_threshold(cfg);
    let target = if admitted {
        best.0
    } else {
        ev.len() as int
    };
    let conf = if admitted {
        best.1
    } else {
        0
    };
    let base = if admitted {
        ev
    } else {
        ev.push(BucketView { messages: Seq::empty(), last_score: 0 })
    };
    let joined = BucketView {
        messages: spec_capped_push(base[target].messages, m, spec_capacity(cfg)),
        last_score: conf as u64,
    };
    ClusterOutcome { buckets: base.update(target, joined), target, confidence: conf }
}

/// The first entry for the given user, scanning from `i`.
pub open spec fn spec_user_index_from(users: Seq<UserBucketsView>, user_id: u64, i: int) -> Option<
    int,
>
    decreases users.len() - i,
{
    if i < 0 || i >= users.len() {
        None
    } else if users[i].user_id == user_id {
        Some(i)
    } else {
        spec_user_index_from(users, user_id, i + 1)
    }
}

/// The first entry for the given user.
pub open spec fn spec_user_index(users: Seq<UserBucketsView>, user_id: u64) -> Option<int> {
    spec_user_index_from(users, user_id, 0)
}

/// The buckets currently open for the given user; none for an unseen user.
pub open spec fn spec_user_buckets(users: Seq<UserBucketsView>, user_id: u64) -> Seq<BucketView> {
    match spec_user_index(users, user_id) {
        Some(i) => users[i].buckets,
        None => Seq::empty(),
    }
}

/// The user table after the given user's buckets are replaced; an unseen
/// user gains a fresh entry at the end.
pub open spec fn spec_set_user_buckets(
    users: Seq<UserBucketsView>,
    user_id: u64,
    bs: Seq<BucketView>,
) -> Seq<UserBucketsView> {
    match spec_user_index(users, user_id) {
        Some(i) => users.update(i, UserBucketsView { user_id, buckets: bs }),
        None => users.push(UserBucketsView { user_id, buckets: bs }),
    }
}

/// The mathematical value of a [`GuildPool`].
#[verifier::ext_equal]
pub struct GuildPoolView {
    pub guild_id: u64,
    pub users: Seq<UserBucketsView>,
    pub config: AntiSpamConfigView,
    pub punished: Seq<PunishedRecordView>,
    pub punished_next_id: u64,
}

impl GuildPoolView {
    pub open spec fn wf(&self) -> bool {
        &&& self.config.wf()
        &&& forall|i: int, j: int|
            0 <= i < j < self.users.len() ==> (#[trigger] self.users[i]).user_id != (
            #[trigger] self.users[j]).user_id
        &&& forall|i: int| 0 <= i < self.users.len() ==> (#[trigger] self.users[i]).wf()
        &&& forall|i: int| 0 <= i < self.punished.len() ==> (#[trigger] self.punished[i]).wf()
    }
}

/// Everything `classify` does, stated over the mathematical values: how the
/// author's buckets change, when the verdict is spam, which confidence is
/// reported, which bucket is handed back as evidence, and how the punished
/// registry is updated.
pub open spec fn classify_post(
    pre: GuildPoolView,
    post: GuildPoolView,
    v: SpamVerdictView,
    m: NewMessageView,
    now: u64,
) -> bool {
    let bs0 = spec_user_buckets(pre.users, m.author_id);
    let out = spec_cluster(bs0, spec_bucket_msg(m), now, pre.config);
    let evidence = out.buckets[out.target];
    let rp = spec_max_punished_sim(pre.punished, m.content);
    let re_offense = rp > pre.config.re_punish_threshold;
    let tier = spec_first_tier(pre.config, out.confidence, evidence.messages.len() as int);
    let spam = re_offense || tier is Some;
    &&& post.guild_id == pre.guild_id
    &&& post.config == pre.config
    &&& post.users == spec_set_user_buckets(pre.users, m.author_id, out.buckets)
    &&& v.is_spam == spam
    &&& v.confidence == if re_offense {
        rp
    } else if tier is Some {
        out.confidence
    } else {
        0
    }
    &&& v.evidence == if spam {
        Some(evidence)
    } else {
        None::<BucketView>
    }
    &&& post.punished == if spam {
        spec_upsert(pre.punished, m.content, now, pre.punished_next_id)
    } else {
        pre.punished
    }
    &&& post.punished_next_id == if spam {
        spec_upsert_next_id(pre.punished, m.content, pre.punished_next_id)
    } else {
        pre.punished_next_id
    }
}

/// One guild's anti-spam state.
pub struct GuildPool {
    guild_id: u64,
    users: Vec<UserBuckets>,
    config: AntiSpamConfig,
    punished: RecentlyPunishedStore,
}

impl View for GuildPool {
    type V = GuildPoolView;

    closed spec fn view(&self) -> GuildPoolView {
        GuildPoolView {
            guild_id: self.guild_id,
            users: self.users.deep_view(),
            config: self.config@,
            punished: self.punished@,
            punished_next_id: self.punished.spec_next_id(),
        }
    }
}

impl DeepView for GuildPool {
    type V = GuildPoolView;

    open spec fn deep_view(&self) -> GuildPoolView {
        self@
    }
}

impl GuildPool {
    /// A pool for one guild, starting with no open buckets and the given
    /// punished-fingerprint registry.
    pub fn new(guild_id: u64, config: AntiSpamConfig, punished: RecentlyPunishedStore) -> (p:
        GuildPool)
        requires
            config@.wf(),
            punished.wf(),
        ensures
            p@.guild_id == guild_id,
            p@.users.len() == 0,
            p@.config == config@,
            p@.punished == punished@,
            p@.punished_next_id == punished.spec_next_id(),
            p@.wf(),
    {
        let p = GuildPool { guild_id, users: Vec::new(), config, punished };
        proof {
            assert(p@.users =~= Seq::<UserBucketsView>::empty());
        }
        p
    }

    /// The guild this pool belongs to.
    pub fn guild_id(&self) -> (r: u64)
        ensures
            r == self@.guild_id,
    {
        self.guild_id
    }

    /// The configuration this pool currently enforces.
    pub fn config(&self) -> (c: &AntiSpamConfig)
        ensures
            c@ == self@.config,
    {
        &self.config
    }

    /// Replaces the cached configuration after an external change.
    pub fn set_config(&mut self, config: AntiSpamConfig)
        requires
            config@.wf(),
        ensures
            final(self)@ == (GuildPoolView { config: config@, ..old(self)@ }),
            old(self)@.wf() ==> final(self)@.wf(),
    {
        self.config = config;
    }

    /// First entry of the user table for this author, if any.
    fn find_user(&self, user_id: u64) -> (r: Option<usize>)
        ensures
            match r {
                Some(i) => {
                    &&& spec_user_index(self@.users, user_id) == Some(i as int)
                    &&& i < self@.users.len()
                    &&& self@.users[i as int].user_id == user_id
                },
                None => {
                    &&& spec_user_index(self@.users, user_id) is None
                    &&& forall|k: int|
                        0 <= k < self@.users.len() ==> (#[trigger] self@.users[k]).user_id
                            != user_id
                },
            },
    {
        let mut i: usize = 0;
        while i < self.users.len()
            invariant
                i <= self@.users.len(),
                self@.users.len() == self.users@.len(),
                spec_user_index(self@.users, user_id) == spec_user_index_from(
                    self@.users,
                    user_id,
                    i as int,
                ),
                forall|k: int| 0 <= k < i ==> (#[trigger] self@.users[k]).user_id != user_id,
            decreases self@.users.len() - i,
        {
            if self.users[i].user_id == user_id {
                return Some(i);
            }
            i += 1;
        }
        None
    }
}

/// An eviction pass keeps every surviving bucket well formed and no larger
/// than before.
pub proof fn lemma_evict_all_wf(bs: Seq<BucketView>, now: u64, time_frame: u32)
    requires
        forall|i: int|
            0 <= i < bs.len() ==> (#[trigger] bs[i]).wf() && bs[i].messages.len() <= u32::MAX,
    ensures
        forall|i: int|
            0 <= i < spec_evict_all(bs, now, time_frame).len() ==> (#[trigger] spec_evict_all(
                bs,
                now,
                time_frame,
            )[i]).wf() && spec_evict_all(bs, now, time_frame)[i].messages.len() <= u32::MAX,
{
    let ev = spec_evict_all(bs, now, time_frame);
    assert forall|i: int|
        0 <= i < ev.len() implies (#[trigger] ev[i]).wf() && ev[i].messages.len()
        <= u32::MAX by {
        assert(ev[i].messages == spec_fresh(bs[i].messages, now, time_frame));
        crate::bucket::lemma_spec_fresh_wf(bs[i].messages, now, time_frame);
        crate::bucket::lemma_spec_fresh_all_fresh(bs[i].messages, now, time_frame);
    }
}

/// After an eviction pass, every message still counted toward a bucket's
/// mean score lies within the configured time frame.
pub proof fn lemma_evict_all_only_fresh(bs: Seq<BucketView>, now: u64, time_frame: u32)
    ensures
        forall|i: int, k: int|
            0 <= i < spec_evict_all(bs, now, time_frame).len() && 0 <= k < spec_evict_all(
                bs,
                now,
                time_frame,
            )[i].messages.len() ==> crate::bucket::is_fresh(
                #[trigger] spec_evict_all(bs, now, time_frame)[i].messages[k],
                now,
                time_frame,
            ),
{
    let ev = spec_evict_all(bs, now, time_frame);
    assert forall|i: int, k: int|
        0 <= i < ev.len() && 0 <= k < ev[i].messages.len() implies crate::bucket::is_fresh(
        #[trigger] ev[i].messages[k],
        now,
        time_frame,
    ) by {
        assert(ev[i].messages == spec_fresh(bs[i].messages, now, time_frame));
        crate::bucket::lemma_spec_fresh_all_fresh(bs[i].messages, now, time_frame);
    }
}

/// Evicts stale messages from every bucket of one user, in place.
fn evict_buckets(buckets: &mut Vec<Bucket>, now: u64, time_frame: u32)
    ensures
        final(buckets).deep_view() == spec_evict_all(old(buckets).deep_view(), now, time_frame),
{
    let ghost orig = buckets.deep_view();
    let mut out: Vec<Bucket> = Vec::new();
    let ghost processed: int = 0;
    while buckets.len() > 0
        invariant
            0 <= processed <= orig.len(),
            buckets@.len() == orig.len() - processed,
            buckets.deep_view() =~= orig.skip(processed),
            out@.len() == processed,
            out.deep_view() =~= spec_evict_all(orig, now, time_frame).take(processed),
        decreases buckets@.len(),
    {
        let ghost pre = buckets.deep_view();
        let ghost prevv = buckets@;
        let mut b = buckets.remove(0);
        proof {
            assert(orig.skip(processed)[0] == orig[processed]);
            assert(pre[0] == prevv[0].deep_view());
            assert(b@ == orig[processed]);
            assert forall|k: int| 0 <= k < buckets@.len() implies buckets.deep_view()[k]
                == orig.skip(processed + 1)[k] by {
                assert(buckets.deep_view()[k] == buckets@[k].deep_view());
                assert(buckets@[k] == prevv[k + 1]);
                assert(pre[k + 1] == prevv[k + 1].deep_view());
                assert(pre[k + 1] == orig.skip(processed)[k + 1]);
            }
            assert(buckets.deep_view() =~= orig.skip(processed + 1));
        }
        b.remove_old_messages(now, time_frame);
        out.push(b);
        proof {
            assert(out.deep_view() =~= spec_evict_all(orig, now, time_frame).take(processed + 1));
            processed = processed + 1;
        }
    }
    proof {
        assert(spec_evict_all(orig, now, time_frame).take(orig.len() as int) =~= spec_evict_all(
            orig,
            now,
            time_frame,
        ));
    }
    *buckets = out;
}

/// Scans one user's buckets for the best candidate: the first bucket whose
/// mean similarity to the incoming content is the highest.
fn find_closest(buckets: &Vec<Bucket>, content: &Vec<u8>) -> (r: (Option<usize>, u64))
    requires
        forall|i: int|
            0 <= i < buckets.deep_view().len() ==> (#[trigger] buckets.deep_view()[i]).wf()
                && buckets.deep_view()[i].messages.len() <= u32::MAX,
        scorable(content@),
    ensures
        ({
            let p = spec_best_bucket(buckets.deep_view(), content@);
            match r.0 {
                Some(i) => p.0 == i as int && p.1 == r.1 as int && (i as int) < buckets.deep_view().len(),
                None => p.0 == -1 && p.1 == 0 && r.1 == 0,
            }
        }),
    {
        let ghost bs = buckets.deep_view();
        let mut best_idx: Option<usize> = None;
        let mut best: u64 = 0;
        let mut i: usize = 0;
        while i < buckets.len()
            invariant
                i <= bs.len(),
                bs == buckets.deep_view(),
                bs.len() == buckets@.len(),
                forall|k: int|
                    0 <= k < bs.len() ==> (#[trigger] bs[k]).wf() && bs[k].messages.len()
                        <= u32::MAX,
                scorable(content@),
                match best_idx {
                    Some(j) => spec_best_bucket(bs.take(i as int), content@) == (
                        j as int,
                        best as int,
                    ) && (j as int) < i as int,
                    None => spec_best_bucket(bs.take(i as int), content@) == (-1int, 0int)
                        && best == 0,
                },
            decreases bs.len() - i,
        {
            proof {
                let t = bs.take(i + 1);
                assert(t.drop_last() =~= bs.take(i as int));
                assert(t.last() == bs[i as int]);
            }
            if buckets[i].len() > 0 {
                assert(buckets.deep_view()[i as int].wf());
                let m = buckets[i].mean_similarity(content);
                if m > best {
                    best_idx = Some(i);
                    best = m;
                }
            }
            i += 1;
        }
        proof {
            assert(bs.take(bs.len() as int) =~= bs);
        }
        (best_idx, best)
    }

impl GuildPool {
    /// Classifies one inbound message: clusters it into the author's
    /// buckets, applies the re-offense fast path and the escalation tiers,
    /// and upserts the punished registry when spam is found.  The exact
    /// behaviour is [`classify_post`].
    pub fn classify(&mut self, message: &NewMessage, now: u64) -> (v: SpamVerdict)
        requires
            old(self)@.wf(),
            message@.wf(),
        ensures
            final(self)@.wf(),
            classify_post(old(self)@, final(self)@, v@, message@, now),
    {
        let ghost pre = self@;
        let ghost m = spec_bucket_msg(message@);
        let found = self.find_user(message.author_id);
        let uidx: usize = match found {
            Some(u) => u,
            None => {
                let fresh = UserBuckets { user_id: message.author_id, buckets: Vec::new() };
                proof {
                    assert(fresh@.buckets =~= Seq::<BucketView>::empty());
                }
                self.users.push(fresh);
                proof {
                    assert(self.users.deep_view() =~= pre.users.push(
                        UserBucketsView {
                            user_id: message@.author_id,
                            buckets: Seq::empty(),
                        },
                    ));
                }
                self.users.len() - 1
            },
        };
        let ghost users_before = self.users.deep_view();
        let ghost bs0 = spec_user_buckets(pre.users, message@.author_id);
        proof {
            assert(users_before[uidx as int].buckets == bs0);
            assert(users_before[uidx as int].user_id == message@.author_id);
        }
        let ghost prevv = self.users@;
        let mut entry = self.users.remove(uidx);
        proof {
            assert(entry@ == users_before[uidx as int]);
            assert(entry.buckets.deep_view() == bs0);
        }
        let time_frame = self.config.time_frame_seconds;
        proof {
            if found is Some {
                assert(pre.users[uidx as int].wf());
            }
            assert(forall|i: int|
                0 <= i < bs0.len() ==> (#[trigger] bs0[i]).wf() && bs0[i].messages.len()
                    <= u32::MAX);
        }
        evict_buckets(&mut entry.buckets, now, time_frame);
        let ghost ev = spec_evict_all(bs0, now, time_frame);
        proof {
            lemma_evict_all_wf(bs0, now, time_frame);
        }
        let (best_idx, best_score) = find_closest(&entry.buckets, &message.content);
        let ghost best = spec_best_bucket(ev, message@.content);
        let min_thr = self.config.min_threshold();
        proof {
            crate::spam_config::lemma_seq_min_u64_nonneg(pre.config.similarity_thresholds);
            lemma_best_bucket_sound(ev, message@.content);
        }
        let admitted = best_score > min_thr;
        let target: usize;
        let confidence: u64;
        if admitted {
            target = match best_idx {
                Some(i) => i,
                // a score above the (non-negative) floor always names a bucket
                None => {
                    proof {
                        assert(false);
                    }
                    0
                },
            };
            confidence = best_score;
        } else {
            let nb = Bucket::new();
            proof {
                assert(nb@ =~= (BucketView { messages: Seq::empty(), last_score: 0u64 }));
            }
            entry.buckets.push(nb);
            proof {
                assert(entry.buckets.deep_view() =~= ev.push(
                    BucketView { messages: Seq::empty(), last_score: 0u64 },
                ));
            }
            target = entry.buckets.len() - 1;
            confidence = 0;
        }
        let ghost out = spec_cluster(bs0, m, now, pre.config);
        let ghost base = entry.buckets.deep_view();
        proof {
            assert(out.target == target as int);
            assert(out.confidence == confidence as int);
        }
        let cap = self.config.capacity();
        let content_copy = message.content.clone();
        proof {
            assert(content_copy@ =~= message.content@);
        }
        let bm = BucketMessage {
            content: content_copy,
            message_id: message.id,
            channel_id: message.channel_id,
            timestamp: message.timestamp,
        };
        proof {
            assert(bm@ =~= m);
        }
        let ghost bucketsv = entry.buckets@;
        let mut b = entry.buckets.remove(target);
        proof {
            assert(b@ == base[target as int]);
        }
        b.add_message(bm, confidence, cap as usize);
        let snapshot = b.snapshot();
        entry.buckets.insert(target, b);
        proof {
            let tgt = target as int;
            assert(entry.buckets@ =~= bucketsv.update(tgt, entry.buckets@[tgt]));
            assert forall|k: int| 0 <= k < entry.buckets@.len() implies entry.buckets.deep_view()[k]
                == out.buckets[k] by {
                assert(entry.buckets.deep_view()[k] == entry.buckets@[k]@);
                if k != target as int {
                    assert(entry.buckets@[k] == bucketsv[k]);
                    assert(bucketsv[k]@ == base[k]);
                }
            }
            assert(entry.buckets.deep_view() =~= out.buckets);
            assert(snapshot@ == out.buckets[out.target]);
        }
        self.users.insert(uidx, entry);
        proof {
            assert forall|k: int| 0 <= k < self.users@.len() implies self.users.deep_view()[k]
                == spec_set_user_buckets(pre.users, message@.author_id, out.buckets)[k] by {
                assert(self.users.deep_view()[k] == self.users@[k]@);
                if k < uidx as int {
                    assert(self.users@[k] == prevv[k]);
                    assert(prevv[k]@ == users_before[k]);
                } else if k == uidx as int {
                } else {
                    assert(self.users@[k] == prevv[k]);
                    assert(prevv[k]@ == users_before[k]);
                }
            }
            assert(self.users.deep_view() =~= spec_set_user_buckets(
                pre.users,
                message@.author_id,
                out.buckets,
            ));
        }
        proof {
            assert(self.punished@ == pre.punished);
            assert forall|i: int| 0 <= i < self.punished@.len() implies (
            #[trigger] self.punished@[i]).wf() by {
                assert(pre.punished[i].wf());
            }
        }
        let rp = self.punished.max_similarity(&message.content);
        let re_offense = rp > self.config.re_punish_threshold;
        let tier = self.config.first_firing_tier(confidence, snapshot.len());
        let spam = re_offense || tier.is_some();
        if spam {
            self.punished.upsert(&message.content, now);
        }
        let v = if re_offense {
            SpamVerdict { is_spam: true, evidence: Some(snapshot), confidence: rp }
        } else if spam {
            SpamVerdict { is_spam: true, evidence: Some(snapshot), confidence }
        } else {
            SpamVerdict { is_spam: false, evidence: None, confidence: 0 }
        };
        proof {
            lemma_cluster_wf(bs0, m, now, pre.config);
            let post = self@;
            let uid = message@.author_id;
            assert(post.config == pre.config);
            let newentry = UserBucketsView { user_id: uid, buckets: out.buckets };
            assert(newentry.wf());
            assert(post.users == spec_set_user_buckets(pre.users, uid, out.buckets));
            assert forall|i: int| 0 <= i < post.users.len() implies (
            #[trigger] post.users[i]).wf() by {
                if i == uidx as int {
                    assert(post.users[i] == newentry);
                } else {
                    assert(post.users[i] == pre.users[i]);
                    assert(pre.users[i].wf());
                }
            }
            assert forall|i: int, j: int|
                0 <= i < j < post.users.len() implies (#[trigger] post.users[i]).user_id != (
                #[trigger] post.users[j]).user_id by {
                if found is Some {
                    assert(post.users[i].user_id == pre.users[i].user_id);
                    assert(post.users[j].user_id == pre.users[j].user_id);
                } else {
                    if j < uidx as int {
                        assert(post.users[i].user_id == pre.users[i].user_id);
                        assert(post.users[j].user_id == pre.users[j].user_id);
                    } else {
                        assert(j == uidx as int);
                        assert(post.users[i].user_id == pre.users[i].user_id);
                        assert(post.users[j].user_id == uid);
                    }
                }
            }
            assert(final(self)@.wf());
        }
        v
    }
}

/// The clustering outcome of a well-formed input is well formed: every
/// bucket surviving the step is well formed and within the length bound.
pub proof fn lemma_cluster_wf(
    bs: Seq<BucketView>,
    m: BucketMessageView,
    now: u64,
    cfg: AntiSpamConfigView,
)
    requires
        forall|i: int|
            0 <= i < bs.len() ==> (#[trigger] bs[i]).wf() && bs[i].messages.len() <= u32::MAX,
        m.wf(),
        cfg.wf(),
    ensures
        ({
            let out = spec_cluster(bs, m, now, cfg);
            &&& forall|i: int|
                0 <= i < out.buckets.len() ==> (#[trigger] out.buckets[i]).wf()
                    && out.buckets[i].messages.len() <= u32::MAX
            &&& 0 <= out.target < out.buckets.len()
            &&& 0 <= out.confidence
        }),
{
    let ev = spec_evict_all(bs, now, cfg.time_frame_seconds);
    lemma_evict_all_wf(bs, now, cfg.time_frame_seconds);
    lemma_best_bucket_sound(ev, m.content);
    crate::spam_config::lemma_seq_min_u64_nonneg(cfg.similarity_thresholds);
    crate::spam_config::lemma_seq_max_u32_ge(cfg.max_messages);
    let cap = spec_capacity(cfg);
    assert(cfg.max_messages[0] <= cap);
    assert(1 <= cap);
    assert(cap <= u32::MAX) by {
        lemma_seq_max_u32_le(cfg.max_messages);
    }
    let out = spec_cluster(bs, m, now, cfg);
    let best = spec_best_bucket(ev, m.content);
    let admitted = best.1 > spec_min_threshold(cfg);
    let base = if admitted {
        ev
    } else {
        ev.push(BucketView { messages: Seq::empty(), last_score: 0 })
    };
    let target = out.target;
    assert(forall|i: int|
        0 <= i < base.len() ==> (#[trigger] base[i]).wf() && base[i].messages.len() <= u32::MAX);
    crate::bucket::lemma_capped_push_wf(base[target].messages, m, cap);
}

/// A message whose content matches a previously punished fingerprint above
/// the re-punish threshold is classified as spam immediately, whatever the
/// size of its cluster, and the match similarity is reported as the
/// confidence.
pub proof fn lemma_re_offense_always_fires(
    pre: GuildPoolView,
    post: GuildPoolView,
    v: SpamVerdictView,
    m: NewMessageView,
    now: u64,
)
    requires
        classify_post(pre, post, v, m, now),
        spec_max_punished_sim(pre.punished, m.content) > pre.config.re_punish_threshold,
    ensures
        v.is_spam,
        v.confidence == spec_max_punished_sim(pre.punished, m.content),
{
}

/// Once a sweep has removed every (expired) punished fingerprint, a later
/// classification of any content is decided by the escalation tiers alone:
/// the re-offense fast path cannot fire on an empty registry.
pub proof fn lemma_expiry_forces_bucket_path(
    pre_punished: Seq<PunishedRecordView>,
    now_sweep: u64,
    mid: GuildPoolView,
    post: GuildPoolView,
    v: SpamVerdictView,
    m: NewMessageView,
    now: u64,
)
    requires
        forall|i: int|
            0 <= i < pre_punished.len() ==> !crate::punished::record_live(
                #[trigger] pre_punished[i],
                now_sweep,
            ),
        mid.punished == spec_unexpired(pre_punished, now_sweep),
        classify_post(mid, post, v, m, now),
    ensures
        ({
            let out = spec_cluster(
                spec_user_buckets(mid.users, m.author_id),
                spec_bucket_msg(m),
                now,
                mid.config,
            );
            let tier = spec_first_tier(
                mid.config,
                out.confidence,
                out.buckets[out.target].messages.len() as int,
            );
            &&& v.is_spam == (tier is Some)
            &&& v.is_spam ==> v.confidence == out.confidence
        }),
{
    crate::punished::lemma_expired_store_cleared(pre_punished, now_sweep, m.content);
}

/// The maximum of a list of `u32` values fits in `u32`.
pub proof fn lemma_seq_max_u32_le(s: Seq<u32>)
    ensures
        crate::spam_config::seq_max_u32(s) <= u32::MAX,
    decreases s.len(),
{
    if s.len() > 1 {
        lemma_seq_max_u32_le(s.drop_last());
    }
}

/// One user's buckets after a periodic cleanup pass: every bucket is
/// evicted and the buckets left empty are pruned, keeping the rest in
/// order.
pub open spec fn spec_cleanup_buckets(bs: Seq<BucketView>, now: u64, time_frame: u32) -> Seq<
    BucketView,
>
    decreases bs.len(),
{
    if bs.len() == 0 {
        bs
    } else {
        let rest = spec_cleanup_buckets(bs.drop_last(), now, time_frame);
        let eb = BucketView {
            messages: spec_fresh(bs.last().messages, now, time_frame),
            last_score: bs.last().last_score,
        };
        if eb.messages.len() > 0 {
            rest.push(eb)
        } else {
            rest
        }
    }
}

/// A cleanup pass keeps every surviving bucket well formed, non-empty and
/// within the length bound.
pub proof fn lemma_cleanup_buckets_wf(bs: Seq<BucketView>, now: u64, time_frame: u32)
    requires
        forall|i: int|
            0 <= i < bs.len() ==> (#[trigger] bs[i]).wf() && bs[i].messages.len() <= u32::MAX,
    ensures
        ({
            let r = spec_cleanup_buckets(bs, now, time_frame);
            &&& r.len() <= bs.len()
            &&& forall|i: int|
                0 <= i < r.len() ==> (#[trigger] r[i]).wf() && 0 < r[i].messages.len()
                    <= u32::MAX
        }),
    decreases bs.len(),
{
    if bs.len() > 0 {
        assert(forall|i: int|
            0 <= i < bs.drop_last().len() ==> (#[trigger] bs.drop_last()[i]).wf()
                && bs.drop_last()[i].messages.len() <= u32::MAX);
        lemma_cleanup_buckets_wf(bs.drop_last(), now, time_frame);
        let r = spec_cleanup_buckets(bs, now, time_frame);
        let rest = spec_cleanup_buckets(bs.drop_last(), now, time_frame);
        let lastv = bs[bs.len() - 1];
        assert(lastv.wf());
        let eb = BucketView {
            messages: spec_fresh(lastv.messages, now, time_frame),
            last_score: lastv.last_score,
        };
        crate::bucket::lemma_spec_fresh_wf(lastv.messages, now, time_frame);
        crate::bucket::lemma_spec_fresh_all_fresh(lastv.messages, now, time_frame);
        assert(eb.wf());
        if eb.messages.len() > 0 {
            assert forall|i: int|
                0 <= i < r.len() implies (#[trigger] r[i]).wf() && 0 < r[i].messages.len()
                <= u32::MAX by {
                if i < rest.len() {
                    assert(r[i] == rest[i]);
                } else {
                    assert(r[i] == eb);
                }
            }
        }
    }
}

/// A batch of message identifiers to delete from one channel.
pub struct ChannelBatch {
    pub channel_id: u64,
    pub message_ids: Vec<u64>,
}

/// The mathematical value of a [`ChannelBatch`].
#[verifier::ext_equal]
pub struct ChannelBatchView {
    pub channel_id: u64,
    pub message_ids: Seq<u64>,
}

impl View for ChannelBatch {
    type V = ChannelBatchView;

    open spec fn view(&self) -> ChannelBatchView {
        ChannelBatchView { channel_id: self.channel_id, message_ids: self.message_ids@ }
    }
}

impl DeepView for ChannelBatch {
    type V = ChannelBatchView;

    open spec fn deep_view(&self) -> ChannelBatchView {
        self@
    }
}

/// The first batch for the given channel, scanning from `i`.
pub open spec fn spec_batch_index_from(gs: Seq<ChannelBatchView>, ch: u64, i: int) -> Option<int>
    decreases gs.len() - i,
{
    if i < 0 || i >= gs.len() {
        None
    } else if gs[i].channel_id == ch {
        Some(i)
    } else {
        spec_batch_index_from(gs, ch, i + 1)
    }
}

/// The first batch for the given channel.
pub open spec fn spec_batch_index(gs: Seq<ChannelBatchView>, ch: u64) -> Option<int> {
    spec_batch_index_from(gs, ch, 0)
}

/// Groups a sequence of messages by channel: each message's identifier is
/// appended to its channel's batch, and channels appear in order of first
/// appearance.
pub open spec fn spec_group_ids(ms: Seq<BucketMessageView>) -> Seq<ChannelBatchView>
    decreases ms.len(),
{
    if ms.len() == 0 {
        Seq::empty()
    } else {
        let rest = spec_group_ids(ms.drop_last());
        let m = ms.last();
        match spec_batch_index(rest, m.channel_id) {
            Some(i) => rest.update(
                i,
                ChannelBatchView {
                    channel_id: m.channel_id,
                    message_ids: rest[i].message_ids.push(m.message_id),
                },
            ),
            None => rest.push(
                ChannelBatchView {
                    channel_id: m.channel_id,
                    message_ids: seq![m.message_id],
                },
            ),
        }
    }
}

/// All messages still tracked in a sequence of buckets, bucket by bucket.
pub open spec fn spec_all_messages(bs: Seq<BucketView>) -> Seq<BucketMessageView>
    decreases bs.len(),
{
    if bs.len() == 0 {
        Seq::empty()
    } else {
        spec_all_messages(bs.drop_last()) + bs.last().messages
    }
}

/// First batch for a channel in a batch list.
fn find_batch(out: &Vec<ChannelBatch>, ch: u64) -> (r: Option<usize>)
    ensures
        match r {
            Some(i) => spec_batch_index(out.deep_view(), ch) == Some(i as int) && i
                < out.deep_view().len() && out.deep_view()[i as int].channel_id == ch,
            None => spec_batch_index(out.deep_view(), ch) is None,
        },
{
    let mut i: usize = 0;
    while i < out.len()
        invariant
            i <= out@.len(),
            out.deep_view().len() == out@.len(),
            spec_batch_index(out.deep_view(), ch) == spec_batch_index_from(
                out.deep_view(),
                ch,
                i as int,
            ),
        decreases out@.len() - i,
    {
        if out[i].channel_id == ch {
            return Some(i);
        }
        i += 1;
    }
    None
}

/// Everything a cleanup pass does: every user keeps their entry, each entry's
/// buckets are evicted and pruned of empties, and nothing else changes.
pub open spec fn cleanup_post(pre: GuildPoolView, post: GuildPoolView, now: u64) -> bool {
    &&& post.guild_id == pre.guild_id
    &&& post.config == pre.config
    &&& post.punished == pre.punished
    &&& post.punished_next_id == pre.punished_next_id
    &&& post.users.len() == pre.users.len()
    &&& forall|k: int|
        0 <= k < pre.users.len() ==> #[trigger] post.users[k] == (UserBucketsView {
            user_id: pre.users[k].user_id,
            buckets: spec_cleanup_buckets(pre.users[k].buckets, now, pre.config.time_frame_seconds),
        })
}

/// Everything taking a user's messages does: the user's entry disappears,
/// nothing else changes, and the result lists every message that was still
/// tracked, grouped per channel.
pub open spec fn take_user_post(
    pre: GuildPoolView,
    post: GuildPoolView,
    r: Seq<ChannelBatchView>,
    user_id: u64,
) -> bool {
    match spec_user_index(pre.users, user_id) {
        None => post == pre && r.len() == 0,
        Some(u) => {
            &&& post == (GuildPoolView { users: pre.users.remove(u), ..pre })
            &&& r == spec_group_ids(spec_all_messages(pre.users[u].buckets))
        },
    }
}

impl GuildPool {
    /// Sweeps every user's buckets: evicts stale messages and prunes the
    /// buckets left empty.
    pub fn cleanup(&mut self, now: u64)
        ensures
            cleanup_post(old(self)@, final(self)@, now),
            old(self)@.wf() ==> final(self)@.wf(),
    {
        let ghost pre = self@;
        let time_frame = self.config.time_frame_seconds;
        let ghost usersv = pre.users;
        let mut out: Vec<UserBuckets> = Vec::new();
        let ghost done: int = 0;
        while self.users.len() > 0
            invariant
                0 <= done <= usersv.len(),
                self.guild_id == pre.guild_id,
                self.config@ == pre.config,
                self.punished@ == pre.punished,
                self.punished.spec_next_id() == pre.punished_next_id,
                time_frame == pre.config.time_frame_seconds,
                self.users@.len() == usersv.len() - done,
                self.users.deep_view() =~= usersv.skip(done),
                out@.len() == done,
                forall|k: int|
                    0 <= k < done ==> #[trigger] out.deep_view()[k] == (UserBucketsView {
                        user_id: usersv[k].user_id,
                        buckets: spec_cleanup_buckets(usersv[k].buckets, now, time_frame),
                    }),
            decreases self.users@.len(),
        {
            let ghost pdv = self.users.deep_view();
            let ghost pvv = self.users@;
            let mut entry = self.users.remove(0);
            proof {
                assert(usersv.skip(done)[0] == usersv[done]);
                assert(pdv[0] == pvv[0].deep_view());
                assert(entry@ == usersv[done]);
                assert forall|k: int|
                    0 <= k < self.users@.len() implies self.users.deep_view()[k] == usersv.skip(
                    done + 1,
                )[k] by {
                    assert(self.users.deep_view()[k] == self.users@[k].deep_view());
                    assert(self.users@[k] == pvv[k + 1]);
                    assert(pdv[k + 1] == pvv[k + 1].deep_view());
                    assert(pdv[k + 1] == usersv.skip(done)[k + 1]);
                }
                assert(self.users.deep_view() =~= usersv.skip(done + 1));
            }
            let ghost bs = entry.buckets.deep_view();
            let mut kept: Vec<Bucket> = Vec::new();
            let ghost bdone: int = 0;
            while entry.buckets.len() > 0
                invariant
                    0 <= bdone <= bs.len(),
                    0 <= done < usersv.len(),
                    entry.user_id == usersv[done].user_id,
                    entry.buckets@.len() == bs.len() - bdone,
                    entry.buckets.deep_view() =~= bs.skip(bdone),
                    kept@.len() == spec_cleanup_buckets(bs.take(bdone), now, time_frame).len(),
                    kept.deep_view() =~= spec_cleanup_buckets(bs.take(bdone), now, time_frame),
                decreases entry.buckets@.len(),
            {
                let ghost bpdv = entry.buckets.deep_view();
                let ghost bpvv = entry.buckets@;
                let mut b = entry.buckets.remove(0);
                proof {
                    assert(bs.skip(bdone)[0] == bs[bdone]);
                    assert(bpdv[0] == bpvv[0].deep_view());
                    assert(b@ == bs[bdone]);
                    assert forall|k: int|
                        0 <= k < entry.buckets@.len() implies entry.buckets.deep_view()[k]
                        == bs.skip(bdone + 1)[k] by {
                        assert(entry.buckets.deep_view()[k] == entry.buckets@[k].deep_view());
                        assert(entry.buckets@[k] == bpvv[k + 1]);
                        assert(bpdv[k + 1] == bpvv[k + 1].deep_view());
                        assert(bpdv[k + 1] == bs.skip(bdone)[k + 1]);
                    }
                    assert(entry.buckets.deep_view() =~= bs.skip(bdone + 1));
                }
                b.remove_old_messages(now, time_frame);
                proof {
                    let t = bs.take(bdone + 1);
                    assert(t.drop_last() =~= bs.take(bdone));
                    assert(t.last() == bs[bdone]);
                }
                if !b.is_empty() {
                    kept.push(b);
                    proof {
                        assert(kept.deep_view() =~= spec_cleanup_buckets(
                            bs.take(bdone),
                            now,
                            time_frame,
                        ).push(
                            BucketView {
                                messages: spec_fresh(bs[bdone].messages, now, time_frame),
                                last_score: bs[bdone].last_score,
                            },
                        ));
                        assert(kept.deep_view() =~= spec_cleanup_buckets(
                            bs.take(bdone + 1),
                            now,
                            time_frame,
                        ));
                    }
                } else {
                    proof {
                        assert(kept.deep_view() =~= spec_cleanup_buckets(
                            bs.take(bdone + 1),
                            now,
                            time_frame,
                        ));
                    }
                }
                proof {
                    bdone = bdone + 1;
                }
            }
            proof {
                assert(bs.take(bs.len() as int) =~= bs);
            }
            entry.buckets = kept;
            let ghost opdv = out.deep_view();
            let ghost opvv = out@;
            out.push(entry);
            proof {
                assert forall|k: int| 0 <= k < done + 1 implies #[trigger] out.deep_view()[k]
                    == (UserBucketsView {
                    user_id: usersv[k].user_id,
                    buckets: spec_cleanup_buckets(usersv[k].buckets, now, time_frame),
                }) by {
                    assert(out.deep_view()[k] == out@[k]@);
                    if k < done {
                        assert(out@[k] == opvv[k]);
                        assert(opdv[k] == opvv[k]@);
                    } else {
                        assert(out@[k] == entry);
                        assert(entry@.buckets =~= spec_cleanup_buckets(
                            usersv[done].buckets,
                            now,
                            time_frame,
                        ));
                    }
                }
                done = done + 1;
            }
        }
        self.users = out;
        proof {
            assert(self@.users.len() == usersv.len());
            assert(forall|k: int|
                0 <= k < usersv.len() ==> #[trigger] self@.users[k] == (UserBucketsView {
                    user_id: usersv[k].user_id,
                    buckets: spec_cleanup_buckets(usersv[k].buckets, now, time_frame),
                }));
            if pre.wf() {
                assert forall|k: int| 0 <= k < self@.users.len() implies (
                #[trigger] self@.users[k]).wf() by {
                    assert(pre.users[k].wf());
                    lemma_cleanup_buckets_wf(pre.users[k].buckets, now, time_frame);
                }
                assert forall|i: int, j: int|
                    0 <= i < j < self@.users.len() implies (#[trigger] self@.users[i]).user_id
                    != (#[trigger] self@.users[j]).user_id by {
                    assert(self@.users[i].user_id == pre.users[i].user_id);
                    assert(self@.users[j].user_id == pre.users[j].user_id);
                }
            }
        }
    }

    /// Removes the user's bucket set entirely and returns every message
    /// still tracked in it, grouped per channel for deletion.
    pub fn take_user_messages(&mut self, user_id: u64) -> (r: Vec<ChannelBatch>)
        ensures
            take_user_post(old(self)@, final(self)@, r.deep_view(), user_id),
            old(self)@.wf() ==> final(self)@.wf(),
    {
        let ghost pre = self@;
        let found = self.find_user(user_id);
        let u: usize = match found {
            Some(u) => u,
            None => {
                let empty: Vec<ChannelBatch> = Vec::new();
                proof {
                    assert(empty.deep_view() =~= Seq::<ChannelBatchView>::empty());
                }
                return empty;
            },
        };
        let ghost prevv = self.users@;
        let mut entry = self.users.remove(u);
        proof {
            assert(entry@ == pre.users[u as int]);
            assert forall|k: int| 0 <= k < self.users@.len() implies self.users.deep_view()[k]
                == pre.users.remove(u as int)[k] by {
                assert(self.users.deep_view()[k] == self.users@[k].deep_view());
                if k < u as int {
                    assert(self.users@[k] == prevv[k]);
                } else {
                    assert(self.users@[k] == prevv[k + 1]);
                }
            }
            assert(self.users.deep_view() =~= pre.users.remove(u as int));
            if pre.wf() {
                assert forall|k: int| 0 <= k < self@.users.len() implies (
                #[trigger] self@.users[k]).wf() by {
                    if k < u as int {
                        assert(self@.users[k] == pre.users[k]);
                    } else {
                        assert(self@.users[k] == pre.users[k + 1]);
                    }
                    assert(pre.users[if k < u as int {
                        k
                    } else {
                        k + 1
                    }].wf());
                }
                assert forall|i: int, j: int|
                    0 <= i < j < self@.users.len() implies (#[trigger] self@.users[i]).user_id
                    != (#[trigger] self@.users[j]).user_id by {
                    let pi = if i < u as int {
                        i
                    } else {
                        i + 1
                    };
                    let pj = if j < u as int {
                        j
                    } else {
                        j + 1
                    };
                    assert(self@.users[i].user_id == pre.users[pi].user_id);
                    assert(self@.users[j].user_id == pre.users[pj].user_id);
                }
            }
        }
        let ghost bs = entry.buckets.deep_view();
        let ghost flatv = spec_all_messages(bs);
        let mut flat: Vec<BucketMessage> = Vec::new();
        let ghost bdone: int = 0;
        while entry.buckets.len() > 0
            invariant
                0 <= bdone <= bs.len(),
                entry.buckets@.len() == bs.len() - bdone,
                entry.buckets.deep_view() =~= bs.skip(bdone),
                flat@.len() == spec_all_messages(bs.take(bdone)).len(),
                flat.deep_view() =~= spec_all_messages(bs.take(bdone)),
            decreases entry.buckets@.len(),
        {
            let ghost bpdv = entry.buckets.deep_view();
            let ghost bpvv = entry.buckets@;
            let mut b = entry.buckets.remove(0);
            proof {
                assert(bs.skip(bdone)[0] == bs[bdone]);
                assert(bpdv[0] == bpvv[0].deep_view());
                assert(b@ == bs[bdone]);
                assert forall|k: int|
                    0 <= k < entry.buckets@.len() implies entry.buckets.deep_view()[k] == bs.skip(
                    bdone + 1,
                )[k] by {
                    assert(entry.buckets.deep_view()[k] == entry.buckets@[k].deep_view());
                    assert(entry.buckets@[k] == bpvv[k + 1]);
                    assert(bpdv[k + 1] == bpvv[k + 1].deep_view());
                    assert(bpdv[k + 1] == bs.skip(bdone)[k + 1]);
                }
                assert(entry.buckets.deep_view() =~= bs.skip(bdone + 1));
            }
            let ghost bentry_msgs = b.messages.deep_view();
            let ghost ms = b.messages.deep_view();
            let ghost mdone: int = 0;
            while b.messages.len() > 0
                invariant
                    0 <= mdone <= ms.len(),
                    b.messages@.len() == ms.len() - mdone,
                    b.messages.deep_view() =~= ms.skip(mdone),
                    flat@.len() == spec_all_messages(bs.take(bdone)).len() + mdone,
                    flat.deep_view() =~= spec_all_messages(bs.take(bdone)) + ms.take(mdone),
                decreases b.messages@.len(),
            {
                let ghost mpdv = b.messages.deep_view();
                let ghost mpvv = b.messages@;
                let m = b.messages.remove(0);
                proof {
                    assert(ms.skip(mdone)[0] == ms[mdone]);
                    assert(mpdv[0] == mpvv[0].deep_view());
                    assert(m@ == ms[mdone]);
                    assert forall|k: int|
                        0 <= k < b.messages@.len() implies b.messages.deep_view()[k] == ms.skip(
                        mdone + 1,
                    )[k] by {
                        assert(b.messages.deep_view()[k] == b.messages@[k].deep_view());
                        assert(b.messages@[k] == mpvv[k + 1]);
                        assert(mpdv[k + 1] == mpvv[k + 1].deep_view());
                        assert(mpdv[k + 1] == ms.skip(mdone)[k + 1]);
                    }
                    assert(b.messages.deep_view() =~= ms.skip(mdone + 1));
                }
                let ghost fpdv = flat.deep_view();
                let ghost fpvv = flat@;
                flat.push(m);
                proof {
                    assert(ms.take(mdone + 1) =~= ms.take(mdone).push(ms[mdone]));
                    assert forall|idx: int|
                        0 <= idx < flat@.len() implies flat.deep_view()[idx] == (
                    spec_all_messages(bs.take(bdone)) + ms.take(mdone + 1))[idx] by {
                        assert(flat.deep_view()[idx] == flat@[idx]@);
                        if idx < flat@.len() - 1 {
                            assert(flat@[idx] == fpvv[idx]);
                            assert(fpdv[idx] == fpvv[idx]@);
                        } else {
                            assert(flat@[idx] == m);
                        }
                    }
                    assert(flat.deep_view() =~= spec_all_messages(bs.take(bdone)) + ms.take(
                        mdone + 1,
                    ));
                    mdone = mdone + 1;
                }
            }
            proof {
                assert(ms.take(ms.len() as int) =~= ms);
                let t = bs.take(bdone + 1);
                assert(t.drop_last() =~= bs.take(bdone));
                assert(t.last() == bs[bdone]);
                assert(spec_all_messages(bs.take(bdone + 1)) == spec_all_messages(bs.take(bdone))
                    + bs[bdone].messages);
                assert(flat.deep_view() =~= spec_all_messages(bs.take(bdone + 1)));
                bdone = bdone + 1;
            }
        }
        proof {
            assert(bs.take(bs.len() as int) =~= bs);
        }
        let mut out: Vec<ChannelBatch> = Vec::new();
        let mut k: usize = 0;
        while k < flat.len()
            invariant
                k <= flat@.len(),
                flat.deep_view() =~= flatv,
                flatv.len() == flat@.len(),
                out.deep_view() =~= spec_group_ids(flatv.take(k as int)),
            decreases flat@.len() - k,
        {
            let ch = flat[k].channel_id;
            let mid = flat[k].message_id;
            proof {
                let t = flatv.take(k + 1);
                assert(t.drop_last() =~= flatv.take(k as int));
                assert(t.last() == flatv[k as int]);
                assert(flat.deep_view()[k as int] == flat@[k as int]@);
            }
            let slot = find_batch(&out, ch);
            match slot {
                Some(i) => {
                    let ghost outv = out.deep_view();
                    let ghost outvv = out@;
                    let mut batch = out.remove(i);
                    proof {
                        assert(batch@ == outv[i as int]);
                    }
                    batch.message_ids.push(mid);
                    out.insert(i, batch);
                    proof {
                        let g = spec_group_ids(flatv.take(k + 1));
                        let prevg = spec_group_ids(flatv.take(k as int));
                        assert(g == prevg.update(
                            i as int,
                            ChannelBatchView {
                                channel_id: ch,
                                message_ids: prevg[i as int].message_ids.push(mid),
                            },
                        ));
                        assert(out@[i as int] == batch);
                        assert(batch@.message_ids =~= outv[i as int].message_ids.push(mid));
                        assert forall|j: int|
                            0 <= j < out@.len() implies out.deep_view()[j] == g[j] by {
                            assert(out.deep_view()[j] == out@[j]@);
                            if j < i as int {
                                assert(out@[j] == outvv[j]);
                                assert(outvv[j]@ == outv[j]);
                            } else if j > i as int {
                                assert(out@[j] == outvv[j]);
                                assert(outvv[j]@ == outv[j]);
                            } else {
                                assert(out@[j]@ =~= g[j]);
                            }
                        }
                        assert(out.deep_view() =~= g);
                    }
                },
                None => {
                    let mut ids: Vec<u64> = Vec::new();
                    ids.push(mid);
                    let batch = ChannelBatch { channel_id: ch, message_ids: ids };
                    proof {
                        assert(batch@.message_ids =~= seq![mid]);
                    }
                    out.push(batch);
                    proof {
                        assert(out.deep_view() =~= spec_group_ids(flatv.take(k as int)).push(
                            batch@,
                        ));
                        assert(out.deep_view() =~= spec_group_ids(flatv.take(k + 1)));
                    }
                },
            }
            k += 1;
        }
        proof {
            assert(flatv.take(flatv.len() as int) =~= flatv);
        }
        out
    }

    /// Removes every punished fingerprint older than its lifetime.
    pub fn expire_punished(&mut self, now: u64)
        ensures
            final(self)@ == (GuildPoolView {
                punished: spec_unexpired(old(self)@.punished, now),
                ..old(self)@
            }),
            old(self)@.wf() ==> final(self)@.wf(),
    {
        let ghost pre = self@;
        proof {
            if pre.wf() {
                assert forall|i: int| 0 <= i < self.punished@.len() implies (
                #[trigger] self.punished@[i]).wf() by {
                    assert(pre.punished[i].wf());
                }
            }
        }
        self.punished.expire(now);
        proof {
            assert(self@ =~= (GuildPoolView {
                punished: spec_unexpired(pre.punished, now),
                ..pre
            }));
            if pre.wf() {
                assert forall|i: int| 0 <= i < self@.punished.len() implies (
                #[trigger] self@.punished[i]).wf() by {
                    assert(self.punished@[i].wf());
                }
            }
        }
    }

    /// Registers a content fingerprint as punished, keyed by exact content.
    pub fn upsert_punished(&mut self, content: &Vec<u8>, now: u64)
        requires
            old(self)@.wf(),
            scorable(content@),
            ascii_seq(content@),
        ensures
            final(self)@ == (GuildPoolView {
                punished: spec_upsert(
                    old(self)@.punished,
                    content@,
                    now,
                    old(self)@.punished_next_id,
                ),
                punished_next_id: spec_upsert_next_id(
                    old(self)@.punished,
                    content@,
                    old(self)@.punished_next_id,
                ),
                ..old(self)@
            }),
            final(self)@.wf(),
    {
        proof {
            assert forall|i: int| 0 <= i < self.punished@.len() implies (
            #[trigger] self.punished@[i]).wf() by {
                assert(self@.punished[i].wf());
            }
        }
        self.punished.upsert(content, now);
    }

    /// Removes the punished fingerprint with the given identifier; reports
    /// whether one existed.
    pub fn remove_punished(&mut self, id: u64) -> (r: bool)
        ensures
            final(self)@.guild_id == old(self)@.guild_id,
            final(self)@.config == old(self)@.config,
            final(self)@.users == old(self)@.users,
            final(self)@.punished_next_id == old(self)@.punished_next_id,
            r == (exists|i: int|
                0 <= i < old(self)@.punished.len() && (#[trigger] old(self)@.punished[i]).id
                    == id),
            !r ==> final(self)@.punished == old(self)@.punished,
            r ==> exists|i: int|
                {
                    &&& 0 <= i < old(self)@.punished.len()
                    &&& (#[trigger] old(self)@.punished[i]).id == id
                    &&& final(self)@.punished == old(self)@.punished.remove(i)
                },
            old(self)@.wf() ==> final(self)@.wf(),
    {
        let ghost pre = self@;
        let r = self.punished.remove_by_id(id);
        proof {
            if pre.wf() {
                assert forall|i: int| 0 <= i < self.punished@.len() implies (
                #[trigger] self.punished@[i]).wf() by {
                    if r {
                        let j = choose|j: int|
                            {
                                &&& 0 <= j < pre.punished.len()
                                &&& (#[trigger] pre.punished[j]).id == id
                                &&& self.punished@ == pre.punished.remove(j)
                            };
                        if i < j {
                            assert(self.punished@[i] == pre.punished[i]);
                        } else {
                            assert(self.punished@[i] == pre.punished[i + 1]);
                        }
                    } else {
                        assert(self.punished@[i] == pre.punished[i]);
                    }
                }
                assert(self@.users == pre.users);
                assert(self@.config == pre.config);
                assert forall|i: int| 0 <= i < self@.users.len() implies (
                #[trigger] self@.users[i]).wf() by {
                    assert(pre.users[i].wf());
                }
                assert forall|i: int, j: int|
                    0 <= i < j < self@.users.len() implies (#[trigger] self@.users[i]).user_id
                    != (#[trigger] self@.users[j]).user_id by {
                    assert(pre.users[i].user_id != pre.users[j].user_id);
                }
                assert(self@.wf());
            }
        }
        r
    }

    /// Read access to this guild's punished fingerprints.
    pub fn punished_records(&self) -> (r: &Vec<crate::punished::PunishedRecord>)
        ensures
            r.deep_view() == self@.punished,
    {
        self.punished.records()
    }

    /// Read access to the user table, for diagnostic dumps.
    pub fn users(&self) -> (r: &Vec<UserBuckets>)
        ensures
            r.deep_view() == self@.users,
    {
        &self.users
    }
}

} // verus!
