//! The pool manager: single logical owner of every guild's pool.  All
//! mutating operations arrive as [`ChannelMessage`] commands over one
//! ordered queue and are applied one at a time, so no bucket state is ever
//! touched concurrently.  The queue, the timers and every platform call
//! live outside; this module is the state machine they drive.

use vstd::prelude::*;

use crate::pool::{
    classify_post, cleanup_post, take_user_post, ChannelBatch, GuildPool, GuildPoolView,
    NewMessage, SpamVerdict,
};
use crate::punished::spec_unexpired;
use crate::spam_config::AntiSpamConfig;

verus! {

/// A command for the actor that owns all pools.
pub enum ChannelMessage {
    /// Classify (and, at the caller, punish) one inbound message.
    NewMessage(NewMessage),
    /// A guild's configuration changed; `true` disables the guild outright.
    UpdateConfig(u64, bool),
    /// Periodic sweep: evict stale messages and prune empty buckets.
    CleanMessages,
    /// Diagnostic dump of one guild's pool into the given channel.
    PrintPool(u64, u64),
}

/// The first pool of the given guild, scanning from `i`.
pub open spec fn spec_pool_index_from(pools: Seq<GuildPoolView>, guild_id: u64, i: int) -> Option<
    int,
>
    decreases pools.len() - i,
{
    if i < 0 || i >= pools.len() {
        None
    } else if pools[i].guild_id == guild_id {
        Some(i)
    } else {
        spec_pool_index_from(pools, guild_id, i + 1)
    }
}

/// The first pool of the given guild.
pub open spec fn spec_pool_index(pools: Seq<GuildPoolView>, guild_id: u64) -> Option<int> {
    spec_pool_index_from(pools, guild_id, 0)
}

/// The pool table after a guild is disabled: its pool is gone, everything
/// else keeps its place.
pub open spec fn spec_remove_pool(pools: Seq<GuildPoolView>, guild_id: u64) -> Seq<
    GuildPoolView,
> {
    match spec_pool_index(pools, guild_id) {
        Some(i) => pools.remove(i),
        None => pools,
    }
}

/// The single-writer owner of all guild pools.
pub struct PoolManager {
    pools: Vec<GuildPool>,
}

impl View for PoolManager {
    type V = Seq<GuildPoolView>;

    closed spec fn view(&self) -> Seq<GuildPoolView> {
        self.pools.deep_view()
    }
}

impl PoolManager {
    /// Guild identifiers are unique and every pool is well formed.
    pub open spec fn wf(&self) -> bool {
        &&& forall|i: int, j: int|
            0 <= i < j < self@.len() ==> (#[trigger] self@[i]).guild_id != (
            #[trigger] self@[j]).guild_id
        &&& forall|i: int| 0 <= i < self@.len() ==> (#[trigger] self@[i]).wf()
    }

    /// A manager owning no pools yet.
    pub fn new() -> (m: PoolManager)
        ensures
            m@.len() == 0,
            m.wf(),
    {
        let m = PoolManager { pools: Vec::new() };
        proof {
            assert(m@ =~= Seq::<GuildPoolView>::empty());
        }
        m
    }

    /// Index of the pool owning the given guild, if one exists.
    fn find_pool(&self, guild_id: u64) -> (r: Option<usize>)
        ensures
            match r {
                Some(i) => {
                    &&& spec_pool_index(self@, guild_id) == Some(i as int)
                    &&& i < self@.len()
                    &&& self@[i as int].guild_id == guild_id
                },
                None => {
                    &&& spec_pool_index(self@, guild_id) is None
                    &&& forall|k: int|
                        0 <= k < self@.len() ==> (#[trigger] self@[k]).guild_id != guild_id
                },
            },
    {
        let mut i: usize = 0;
        while i < self.pools.len()
            invariant
                i <= self@.len(),
                self@.len() == self.pools@.len(),
                spec_pool_index(self@, guild_id) == spec_pool_index_from(
                    self@,
                    guild_id,
                    i as int,
                ),
                forall|k: int| 0 <= k < i ==> (#[trigger] self@[k]).guild_id != guild_id,
            decreases self@.len() - i,
        {
            if self.pools[i].guild_id() == guild_id {
                return Some(i);
            }
            i += 1;
        }
        None
    }

    /// True when a pool is already open for this guild.
    pub fn has_pool(&self, guild_id: u64) -> (r: bool)
        ensures
            r == (spec_pool_index(self@, guild_id) is Some),
    {
        match self.find_pool(guild_id) {
            Some(_) => true,
            None => false,
        }
    }

    /// Opens a pool for a guild seen for the first time.  The caller builds
    /// it from the guild's fetched configuration and persisted punished
    /// fingerprints.
    pub fn insert_pool(&mut self, pool: GuildPool)
        requires
            old(self).wf(),
            pool@.wf(),
            spec_pool_index(old(self)@, pool@.guild_id) is None,
        ensures
            final(self)@ == old(self)@.push(pool@),
            final(self).wf(),
            spec_pool_index(final(self)@, pool@.guild_id) is Some,
    {
        let ghost pre = self@;
        let ghost gid = pool@.guild_id;
        proof {
            lemma_pool_index_none(pre, gid);
        }
        self.pools.push(pool);
        proof {
            assert(self@ =~= pre.push(pool@));
            assert forall|i: int, j: int|
                0 <= i < j < self@.len() implies (#[trigger] self@[i]).guild_id != (
            #[trigger] self@[j]).guild_id by {
                if j < pre.len() {
                    assert(self@[i] == pre[i]);
                    assert(self@[j] == pre[j]);
                } else {
                    assert(self@[i] == pre[i]);
                    assert(self@[j] == pool@);
                    assert(pre[i].guild_id != gid);
                }
            }
            assert forall|i: int| 0 <= i < self@.len() implies (#[trigger] self@[i]).wf() by {
                if i < pre.len() {
                    assert(self@[i] == pre[i]);
                    assert(pre[i].wf());
                } else {
                    assert(self@[i] == pool@);
                }
            }
            lemma_pool_index_extend(pre, pool@, gid);
        }
    }

    /// Classifies one inbound message in its guild's pool.  A message for a
    /// guild without an open pool is dropped: the caller opens pools with
    /// [`PoolManager::insert_pool`] once it has the guild's configuration.
    pub fn handle_new_message(&mut self, message: &NewMessage, now: u64) -> (r: Option<
        SpamVerdict,
    >)
        requires
            old(self).wf(),
            message@.wf(),
        ensures
            final(self).wf(),
            match spec_pool_index(old(self)@, message@.guild_id) {
                None => final(self)@ == old(self)@ && r is None,
                Some(p) => {
                    &&& r is Some
                    &&& final(self)@.len() == old(self)@.len()
                    &&& forall|k: int|
                        0 <= k < old(self)@.len() && k != p ==> #[trigger] final(self)@[k]
                            == old(self)@[k]
                    &&& classify_post(old(self)@[p], final(self)@[p], r->Some_0@, message@, now)
                },
            },
    {
        let ghost pre = self@;
        let found = self.find_pool(message.guild_id);
        let p: usize = match found {
            Some(p) => p,
            None => {
                return None;
            },
        };
        let ghost prevv = self.pools@;
        let mut pool = self.pools.remove(p);
        proof {
            assert(pool@ == pre[p as int]);
            assert(pre[p as int].wf());
        }
        let verdict = pool.classify(message, now);
        let ghost postp = pool@;
        self.pools.insert(p, pool);
        proof {
            assert forall|k: int| 0 <= k < self.pools@.len() implies self.pools.deep_view()[k]
                == pre.update(p as int, postp)[k] by {
                assert(self.pools.deep_view()[k] == self.pools@[k]@);
                if k != p as int {
                    assert(self.pools@[k] == prevv[k]);
                    assert(prevv[k]@ == pre[k]);
                }
            }
            assert(self@ =~= pre.update(p as int, postp));
            assert forall|i: int, j: int|
                0 <= i < j < self@.len() implies (#[trigger] self@[i]).guild_id != (
            #[trigger] self@[j]).guild_id by {
                assert(self@[i].guild_id == pre[i].guild_id);
                assert(self@[j].guild_id == pre[j].guild_id);
            }
            assert forall|i: int| 0 <= i < self@.len() implies (#[trigger] self@[i]).wf() by {
                if i != p as int {
                    assert(self@[i] == pre[i]);
                    assert(pre[i].wf());
                }
            }
        }
        Some(verdict)
    }

    /// Applies a configuration change: disabling a guild removes its pool
    /// outright; otherwise, a freshly fetched configuration replaces the
    /// pool's cached one.  A fetch failure (`None`) leaves the old
    /// configuration in place.
    pub fn handle_update_config(
        &mut self,
        guild_id: u64,
        disable: bool,
        config: Option<AntiSpamConfig>,
    )
        requires
            old(self).wf(),
            match config {
                Some(c) => c@.wf(),
                None => true,
            },
        ensures
            final(self).wf(),
            disable ==> final(self)@ == spec_remove_pool(old(self)@, guild_id),
            disable ==> spec_pool_index(final(self)@, guild_id) is None,
            !disable ==> match (spec_pool_index(old(self)@, guild_id), config) {
                (Some(p), Some(c)) => final(self)@ == old(self)@.update(
                    p,
                    (GuildPoolView { config: c@, ..old(self)@[p] }),
                ),
                _ => final(self)@ == old(self)@,
            },
    {
        let ghost pre = self@;
        let found = self.find_pool(guild_id);
        if disable {
            match found {
                Some(p) => {
                    let ghost prevv = self.pools@;
                    self.pools.remove(p);
                    proof {
                        assert forall|k: int|
                            0 <= k < self.pools@.len() implies self.pools.deep_view()[k]
                            == pre.remove(p as int)[k] by {
                            assert(self.pools.deep_view()[k] == self.pools@[k]@);
                            if k < p as int {
                                assert(self.pools@[k] == prevv[k]);
                            } else {
                                assert(self.pools@[k] == prevv[k + 1]);
                            }
                        }
                        assert(self@ =~= pre.remove(p as int));
                        assert forall|i: int, j: int|
                            0 <= i < j < self@.len() implies (#[trigger] self@[i]).guild_id != (
                        #[trigger] self@[j]).guild_id by {
                            let pi = if i < p as int {
                                i
                            } else {
                                i + 1
                            };
                            let pj = if j < p as int {
                                j
                            } else {
                                j + 1
                            };
                            assert(self@[i].guild_id == pre[pi].guild_id);
                            assert(self@[j].guild_id == pre[pj].guild_id);
                        }
                        assert forall|i: int| 0 <= i < self@.len() implies (
                        #[trigger] self@[i]).wf() by {
                            if i < p as int {
                                assert(self@[i] == pre[i]);
                                assert(pre[i].wf());
                            } else {
                                assert(self@[i] == pre[i + 1]);
                                assert(pre[i + 1].wf());
                            }
                        }
                        lemma_pool_removed_absent(pre, p as int, guild_id);
                    }
                },
                None => {
                    proof {
                        lemma_pool_index_none(pre, guild_id);
                    }
                },
            }
        } else {
            match (found, config) {
                (Some(p), Some(c)) => {
                    let ghost prevv = self.pools@;
                    let mut pool = self.pools.remove(p);
                    proof {
                        assert(pool@ == pre[p as int]);
                    }
                    pool.set_config(c);
                    let ghost postp = pool@;
                    self.pools.insert(p, pool);
                    proof {
                        assert forall|k: int|
                            0 <= k < self.pools@.len() implies self.pools.deep_view()[k]
                            == pre.update(p as int, postp)[k] by {
                            assert(self.pools.deep_view()[k] == self.pools@[k]@);
                            if k != p as int {
                                assert(self.pools@[k] == prevv[k]);
                                assert(prevv[k]@ == pre[k]);
                            }
                        }
                        assert(self@ =~= pre.update(p as int, postp));
                        assert forall|i: int, j: int|
                            0 <= i < j < self@.len() implies (#[trigger] self@[i]).guild_id != (
                        #[trigger] self@[j]).guild_id by {
                            assert(self@[i].guild_id == pre[i].guild_id);
                            assert(self@[j].guild_id == pre[j].guild_id);
                        }
                        assert forall|i: int| 0 <= i < self@.len() implies (
                        #[trigger] self@[i]).wf() by {
                            if i != p as int {
                                assert(self@[i] == pre[i]);
                            }
                            assert(pre[i].wf());
                        }
                    }
                },
                _ => {},
            }
        }
    }

    /// Sweeps every pool: evicts stale messages from every bucket and
    /// prunes the buckets left empty.
    pub fn clean_all(&mut self, now: u64)
        requires
            old(self).wf(),
        ensures
            final(self).wf(),
            final(self)@.len() == old(self)@.len(),
            forall|k: int|
                0 <= k < old(self)@.len() ==> cleanup_post(
                    old(self)@[k],
                    #[trigger] final(self)@[k],
                    now,
                ),
    {
        let ghost pre = self@;
        let mut i: usize = 0;
        while i < self.pools.len()
            invariant
                i <= pre.len(),
                self.pools@.len() == pre.len(),
                forall|k: int|
                    0 <= k < i ==> cleanup_post(pre[k], #[trigger] self.pools.deep_view()[k], now),
                forall|k: int| i <= k < pre.len() ==> #[trigger] self.pools.deep_view()[k] == pre[k],
                forall|k: int| 0 <= k < pre.len() ==> (#[trigger] self.pools.deep_view()[k]).wf(),
                forall|k: int|
                    0 <= k < pre.len() ==> (#[trigger] self.pools.deep_view()[k]).guild_id
                        == pre[k].guild_id,
            decreases pre.len() - i,
        {
            let ghost prevv = self.pools@;
            let ghost predv = self.pools.deep_view();
            let mut pool = self.pools.remove(i);
            proof {
                assert(pool@ == predv[i as int]);
            }
            pool.cleanup(now);
            let ghost postp = pool@;
            self.pools.insert(i, pool);
            proof {
                assert forall|k: int| 0 <= k < self.pools@.len() implies self.pools.deep_view()[k]
                    == predv.update(i as int, postp)[k] by {
                    assert(self.pools.deep_view()[k] == self.pools@[k]@);
                    if k != i as int {
                        assert(self.pools@[k] == prevv[k]);
                        assert(prevv[k]@ == predv[k]);
                    }
                }
                assert(self.pools.deep_view() =~= predv.update(i as int, postp));
            }
            i += 1;
        }
        proof {
            assert forall|a: int, b: int|
                0 <= a < b < self@.len() implies (#[trigger] self@[a]).guild_id != (
            #[trigger] self@[b]).guild_id by {
                assert(self@[a].guild_id == pre[a].guild_id);
                assert(self@[b].guild_id == pre[b].guild_id);
            }
        }
    }

    /// Deletes every expired punished fingerprint in every pool.
    pub fn expire_all_punished(&mut self, now: u64)
        requires
            old(self).wf(),
        ensures
            final(self).wf(),
            final(self)@.len() == old(self)@.len(),
            forall|k: int|
                0 <= k < old(self)@.len() ==> #[trigger] final(self)@[k] == (GuildPoolView {
                    punished: spec_unexpired(old(self)@[k].punished, now),
                    ..old(self)@[k]
                }),
    {
        let ghost pre = self@;
        let mut i: usize = 0;
        while i < self.pools.len()
            invariant
                i <= pre.len(),
                self.pools@.len() == pre.len(),
                forall|k: int|
                    0 <= k < i ==> #[trigger] self.pools.deep_view()[k] == (GuildPoolView {
                        punished: spec_unexpired(pre[k].punished, now),
                        ..pre[k]
                    }),
                forall|k: int| i <= k < pre.len() ==> #[trigger] self.pools.deep_view()[k] == pre[k],
                forall|k: int| 0 <= k < pre.len() ==> (#[trigger] self.pools.deep_view()[k]).wf(),
                forall|k: int|
                    0 <= k < pre.len() ==> (#[trigger] self.pools.deep_view()[k]).guild_id
                        == pre[k].guild_id,
            decreases pre.len() - i,
        {
            let ghost prevv = self.pools@;
            let ghost predv = self.pools.deep_view();
            let mut pool = self.pools.remove(i);
            proof {
                assert(pool@ == predv[i as int]);
            }
            pool.expire_punished(now);
            let ghost postp = pool@;
            self.pools.insert(i, pool);
            proof {
                assert forall|k: int| 0 <= k < self.pools@.len() implies self.pools.deep_view()[k]
                    == predv.update(i as int, postp)[k] by {
                    assert(self.pools.deep_view()[k] == self.pools@[k]@);
                    if k != i as int {
                        assert(self.pools@[k] == prevv[k]);
                        assert(prevv[k]@ == predv[k]);
                    }
                }
                assert(self.pools.deep_view() =~= predv.update(i as int, postp));
            }
            i += 1;
        }
        proof {
            assert forall|a: int, b: int|
                0 <= a < b < self@.len() implies (#[trigger] self@[a]).guild_id != (
            #[trigger] self@[b]).guild_id by {
                assert(self@[a].guild_id == pre[a].guild_id);
                assert(self@[b].guild_id == pre[b].guild_id);
            }
        }
    }

    /// Deletes every tracked message of one user in one guild and drops the
    /// user's bucket set; the result is what the caller must delete on the
    /// platform, batched per channel.
    pub fn take_user_messages(&mut self, guild_id: u64, user_id: u64) -> (r: Vec<ChannelBatch>)
        requires
            old(self).wf(),
        ensures
            final(self).wf(),
            match spec_pool_index(old(self)@, guild_id) {
                None => final(self)@ == old(self)@ && r@.len() == 0,
                Some(p) => {
                    &&& final(self)@.len() == old(self)@.len()
                    &&& forall|k: int|
                        0 <= k < old(self)@.len() && k != p ==> #[trigger] final(self)@[k]
                            == old(self)@[k]
                    &&& take_user_post(old(self)@[p], final(self)@[p], r.deep_view(), user_id)
                },
            },
    {
        let found = self.find_pool(guild_id);
        let ghost pre = self@;
        let p: usize = match found {
            Some(p) => p,
            None => {
                let empty: Vec<ChannelBatch> = Vec::new();
                return empty;
            },
        };
        let ghost prevv = self.pools@;
        let mut pool = self.pools.remove(p);
        proof {
            assert(pool@ == pre[p as int]);
            assert(pre[p as int].wf());
        }
        let r = pool.take_user_messages(user_id);
        let ghost postp = pool@;
        self.pools.insert(p, pool);
        proof {
            assert forall|k: int| 0 <= k < self.pools@.len() implies self.pools.deep_view()[k]
                == pre.update(p as int, postp)[k] by {
                assert(self.pools.deep_view()[k] == self.pools@[k]@);
                if k != p as int {
                    assert(self.pools@[k] == prevv[k]);
                    assert(prevv[k]@ == pre[k]);
                }
            }
            assert(self@ =~= pre.update(p as int, postp));
            assert(postp.guild_id == pre[p as int].guild_id);
            assert forall|i: int, j: int|
                0 <= i < j < self@.len() implies (#[trigger] self@[i]).guild_id != (
            #[trigger] self@[j]).guild_id by {
                assert(self@[i].guild_id == pre[i].guild_id);
                assert(self@[j].guild_id == pre[j].guild_id);
            }
            assert forall|i: int| 0 <= i < self@.len() implies (#[trigger] self@[i]).wf() by {
                if i != p as int {
                    assert(self@[i] == pre[i]);
                }
                assert(pre[i].wf());
            }
        }
        r
    }

    /// Read access to one guild's pool, for punishment decisions and
    /// diagnostic dumps.
    pub fn pool(&self, guild_id: u64) -> (r: Option<&GuildPool>)
        ensures
            match spec_pool_index(self@, guild_id) {
                Some(p) => 0 <= p < self@.len() && r is Some && r->Some_0@ == self@[p],
                None => r is None,
            },
    {
        match self.find_pool(guild_id) {
            Some(p) => Some(&self.pools[p]),
            None => None,
        }
    }
}

/// Disabling a guild is idempotent: after the first disable its pool is
/// absent, and a second disable changes nothing and raises no error.
pub proof fn lemma_disable_idempotent(pools: Seq<GuildPoolView>, guild_id: u64)
    requires
        forall|i: int, j: int|
            0 <= i < j < pools.len() ==> (#[trigger] pools[i]).guild_id != (
            #[trigger] pools[j]).guild_id,
    ensures
        spec_pool_index(spec_remove_pool(pools, guild_id), guild_id) is None,
        spec_remove_pool(spec_remove_pool(pools, guild_id), guild_id) == spec_remove_pool(
            pools,
            guild_id,
        ),
{
    match spec_pool_index(pools, guild_id) {
        Some(p) => {
            lemma_pool_index_some_in_range(pools, guild_id, 0);
            lemma_pool_removed_absent(pools, p, guild_id);
        },
        None => {},
    }
}

/// A found pool index is in range and names the right guild.
proof fn lemma_pool_index_some_in_range(pools: Seq<GuildPoolView>, guild_id: u64, i: int)
    requires
        0 <= i <= pools.len(),
        spec_pool_index_from(pools, guild_id, i) is Some,
    ensures
        ({
            let p = spec_pool_index_from(pools, guild_id, i)->Some_0;
            i <= p < pools.len() && pools[p].guild_id == guild_id
        }),
    decreases pools.len() - i,
{
    if i < pools.len() && pools[i].guild_id != guild_id {
        lemma_pool_index_some_in_range(pools, guild_id, i + 1);
    }
}

/// When no pool matches a guild, scanning confirms every entry differs.
proof fn lemma_pool_index_none(pools: Seq<GuildPoolView>, guild_id: u64)
    ensures
        (spec_pool_index(pools, guild_id) is None) <==> (forall|k: int|
            0 <= k < pools.len() ==> (#[trigger] pools[k]).guild_id != guild_id),
{
    lemma_pool_index_none_from(pools, guild_id, 0);
}

proof fn lemma_pool_index_none_from(pools: Seq<GuildPoolView>, guild_id: u64, i: int)
    requires
        0 <= i <= pools.len(),
    ensures
        (spec_pool_index_from(pools, guild_id, i) is None) <==> (forall|k: int|
            i <= k < pools.len() ==> (#[trigger] pools[k]).guild_id != guild_id),
    decreases pools.len() - i,
{
    if i < pools.len() {
        lemma_pool_index_none_from(pools, guild_id, i + 1);
    }
}

/// Appending a pool for a new guild makes that guild findable.
proof fn lemma_pool_index_extend(pools: Seq<GuildPoolView>, pool: GuildPoolView, guild_id: u64)
    requires
        pool.guild_id == guild_id,
    ensures
        spec_pool_index(pools.push(pool), guild_id) is Some,
{
    lemma_pool_index_extend_from(pools, pool, guild_id, 0);
}

proof fn lemma_pool_index_extend_from(
    pools: Seq<GuildPoolView>,
    pool: GuildPoolView,
    guild_id: u64,
    i: int,
)
    requires
        pool.guild_id == guild_id,
        0 <= i <= pools.len(),
    ensures
        spec_pool_index_from(pools.push(pool), guild_id, i) is Some,
    decreases pools.len() - i,
{
    let all = pools.push(pool);
    if i < pools.len() {
        if all[i].guild_id != guild_id {
            lemma_pool_index_extend_from(pools, pool, guild_id, i + 1);
        }
    } else {
        assert(all[i] == pool);
    }
}

/// Removing the only pool of a guild leaves the guild without a pool.
proof fn lemma_pool_removed_absent(pools: Seq<GuildPoolView>, p: int, guild_id: u64)
    requires
        0 <= p < pools.len(),
        pools[p].guild_id == guild_id,
        forall|i: int, j: int|
            0 <= i < j < pools.len() ==> (#[trigger] pools[i]).guild_id != (
            #[trigger] pools[j]).guild_id,
    ensures
        spec_pool_index(pools.remove(p), guild_id) is None,
{
    let r = pools.remove(p);
    assert forall|k: int| 0 <= k < r.len() implies (#[trigger] r[k]).guild_id != guild_id by {
        if k < p {
            assert(r[k] == pools[k]);
            assert(pools[k].guild_id != pools[p].guild_id);
        } else {
            assert(r[k] == pools[k + 1]);
            assert(pools[p].guild_id != pools[k + 1].guild_id);
        }
    }
    lemma_pool_index_none(r, guild_id);
}

} // verus!
