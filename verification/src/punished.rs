//! The registry of recently punished content fingerprints, used for instant
//! re-offense detection and periodically expired.

use vstd::prelude::*;

use crate::bucket::{ascii_seq, msg_age};
use crate::similarity::{scorable, spec_similarity, SCALE};

verus! {

/// How long a punished fingerprint is remembered, in seconds: seven days.
pub const RECENTLY_PUNISHED_LIFETIME: u64 = 60 * 60 * 24 * 7;

/// A content fingerprint that led to a punishment.
pub struct PunishedRecord {
    pub id: u64,
    pub content: Vec<u8>,
    pub timestamp: u64,
}

/// The mathematical value of a [`PunishedRecord`].
#[verifier::ext_equal]
pub struct PunishedRecordView {
    pub id: u64,
    pub content: Seq<u8>,
    pub timestamp: u64,
}

impl PunishedRecordView {
    pub open spec fn wf(&self) -> bool {
        scorable(self.content) && ascii_seq(self.content)
    }
}

impl View for PunishedRecord {
    type V = PunishedRecordView;

    open spec fn view(&self) -> PunishedRecordView {
        PunishedRecordView { id: self.id, content: self.content@, timestamp: self.timestamp }
    }
}

impl DeepView for PunishedRecord {
    type V = PunishedRecordView;

    open spec fn deep_view(&self) -> PunishedRecordView {
        self@
    }
}

/// The highest similarity of any stored fingerprint against `c`; zero when
/// the store is empty.
pub open spec fn spec_max_punished_sim(rs: Seq<PunishedRecordView>, c: Seq<u8>) -> int
    decreases rs.len(),
{
    if rs.len() == 0 {
        0
    } else {
        let rest = spec_max_punished_sim(rs.drop_last(), c);
        let s = spec_similarity(rs.last().content, c);
        if s > rest {
            s
        } else {
            rest
        }
    }
}

/// The first record holding exactly the given content, scanning from `i`.
pub open spec fn spec_find_content_from(rs: Seq<PunishedRecordView>, c: Seq<u8>, i: int) -> Option<
    int,
>
    decreases rs.len() - i,
{
    if i < 0 || i >= rs.len() {
        None
    } else if rs[i].content == c {
        Some(i)
    } else {
        spec_find_content_from(rs, c, i + 1)
    }
}

/// The first record holding exactly the given content.
pub open spec fn spec_find_content(rs: Seq<PunishedRecordView>, c: Seq<u8>) -> Option<int> {
    spec_find_content_from(rs, c, 0)
}

/// The registry after an upsert: the exact normalized content is the
/// de-duplication key, so a match refreshes the timestamp in place and
/// anything else appends a new record.
pub open spec fn spec_upsert(
    rs: Seq<PunishedRecordView>,
    c: Seq<u8>,
    now: u64,
    next_id: u64,
) -> Seq<PunishedRecordView> {
    match spec_find_content(rs, c) {
        Some(i) => rs.update(
            i,
            PunishedRecordView { id: rs[i].id, content: rs[i].content, timestamp: now },
        ),
        None => rs.push(PunishedRecordView { id: next_id, content: c, timestamp: now }),
    }
}

/// The identifier counter after an upsert: unchanged on an in-place
/// refresh, advanced (until it saturates) on an insert.
pub open spec fn spec_upsert_next_id(rs: Seq<PunishedRecordView>, c: Seq<u8>, n: u64) -> u64 {
    if spec_find_content(rs, c) is Some {
        n
    } else if n < u64::MAX {
        (n + 1) as u64
    } else {
        n
    }
}

/// True while a record is young enough to survive an expiry sweep.
pub open spec fn record_live(r: PunishedRecordView, now: u64) -> bool {
    msg_age(now, r.timestamp) <= RECENTLY_PUNISHED_LIFETIME
}

/// The records that survive an expiry sweep at time `now`, in order.
pub open spec fn spec_unexpired(rs: Seq<PunishedRecordView>, now: u64) -> Seq<PunishedRecordView>
    decreases rs.len(),
{
    if rs.len() == 0 {
        rs
    } else {
        let rest = spec_unexpired(rs.drop_last(), now);
        if record_live(rs.last(), now) {
            rest.push(rs.last())
        } else {
            rest
        }
    }
}

/// A sweep leaves no expired record behind.
pub proof fn lemma_unexpired_all_live(rs: Seq<PunishedRecordView>, now: u64)
    ensures
        forall|i: int|
            0 <= i < spec_unexpired(rs, now).len() ==> record_live(
                #[trigger] spec_unexpired(rs, now)[i],
                now,
            ),
    decreases rs.len(),
{
    if rs.len() > 0 {
        lemma_unexpired_all_live(rs.drop_last(), now);
        let r = spec_unexpired(rs, now);
        let rest = spec_unexpired(rs.drop_last(), now);
        assert forall|i: int| 0 <= i < r.len() implies record_live(#[trigger] r[i], now) by {
            if record_live(rs.last(), now) {
                assert(r == rest.push(rs.last()));
                if i < rest.len() {
                    assert(r[i] == rest[i]);
                }
            } else {
                assert(r == rest);
            }
        }
    }
}

/// If every record has expired, a sweep empties the store, and an empty
/// store can never trigger the re-offense fast path.
pub proof fn lemma_expired_store_cleared(rs: Seq<PunishedRecordView>, now: u64, c: Seq<u8>)
    requires
        forall|i: int| 0 <= i < rs.len() ==> !record_live(#[trigger] rs[i], now),
    ensures
        spec_unexpired(rs, now).len() == 0,
        spec_max_punished_sim(spec_unexpired(rs, now), c) == 0,
    decreases rs.len(),
{
    if rs.len() > 0 {
        assert(!record_live(rs[rs.len() - 1], now));
        assert(forall|i: int|
            0 <= i < rs.drop_last().len() ==> !record_live(#[trigger] rs.drop_last()[i], now));
        lemma_expired_store_cleared(rs.drop_last(), now, c);
    }
}

/// Persisted registry of punished fingerprints for one guild.
pub struct RecentlyPunishedStore {
    records: Vec<PunishedRecord>,
    next_id: u64,
}

impl View for RecentlyPunishedStore {
    type V = Seq<PunishedRecordView>;

    closed spec fn view(&self) -> Seq<PunishedRecordView> {
        self.records.deep_view()
    }
}

impl RecentlyPunishedStore {
    /// Identifier the next inserted record will carry.
    pub closed spec fn spec_next_id(&self) -> u64 {
        self.next_id
    }

    pub open spec fn wf(&self) -> bool {
        forall|i: int| 0 <= i < self@.len() ==> (#[trigger] self@[i]).wf()
    }

    /// An empty registry.
    pub fn new() -> (s: RecentlyPunishedStore)
        ensures
            s@.len() == 0,
            s.spec_next_id() == 0,
            s.wf(),
    {
        RecentlyPunishedStore { records: Vec::new(), next_id: 0 }
    }

    pub fn len(&self) -> (r: usize)
        ensures
            r == self@.len(),
    {
        self.records.len()
    }

    /// Read access to the stored records, newest last.
    pub fn records(&self) -> (r: &Vec<PunishedRecord>)
        ensures
            r.deep_view() == self@,
    {
        &self.records
    }

    /// The highest similarity of any stored fingerprint against the given
    /// content.
    pub fn max_similarity(&self, content: &Vec<u8>) -> (r: u64)
        requires
            self.wf(),
            scorable(content@),
        ensures
            r == spec_max_punished_sim(self@, content@),
            r <= SCALE,
    {
        let mut r: u64 = 0;
        let mut i: usize = 0;
        while i < self.records.len()
            invariant
                i <= self@.len(),
                self.wf(),
                scorable(content@),
                self@.len() == self.records@.len(),
                r == spec_max_punished_sim(self@.take(i as int), content@),
                r <= SCALE,
            decreases self@.len() - i,
        {
            assert(self@[i as int].wf());
            let s = crate::similarity::similarity(&self.records[i].content, content);
            proof {
                let t = self@.take(i + 1);
                assert(t.drop_last() =~= self@.take(i as int));
                assert(t.last() == self@[i as int]);
                crate::similarity::lemma_similarity_bounds(self@[i as int].content, content@);
            }
            if s > r {
                r = s;
            }
            i += 1;
        }
        proof {
            assert(self@.take(self@.len() as int) =~= self@);
        }
        r
    }

    /// Index of the record holding exactly this content, if any.
    fn find_content(&self, content: &Vec<u8>) -> (r: Option<usize>)
        ensures
            match r {
                Some(i) => spec_find_content(self@, content@) == Some(i as int) && i < self@.len(),
                None => spec_find_content(self@, content@) is None,
            },
    {
        let mut i: usize = 0;
        while i < self.records.len()
            invariant
                i <= self@.len(),
                self@.len() == self.records@.len(),
                spec_find_content(self@, content@) == spec_find_content_from(
                    self@,
                    content@,
                    i as int,
                ),
            decreases self@.len() - i,
        {
            if crate::similarity::bytes_eq(&self.records[i].content, content) {
                return Some(i);
            }
            i += 1;
        }
        None
    }

    /// Refreshes the timestamp of the record holding exactly this content,
    /// or inserts a new record for it; exact content is the key.
    pub fn upsert(&mut self, content: &Vec<u8>, now: u64)
        requires
            old(self).wf(),
            scorable(content@),
            ascii_seq(content@),
        ensures
            final(self)@ == spec_upsert(old(self)@, content@, now, old(self).spec_next_id()),
            final(self).wf(),
            final(self).spec_next_id() == spec_upsert_next_id(
                old(self)@,
                content@,
                old(self).spec_next_id(),
            ),
    {
        let found = self.find_content(content);
        match found {
            Some(i) => {
                let mut r = self.records.remove(i);
                r.timestamp = now;
                self.records.insert(i, r);
                proof {
                    let orig = old(self)@;
                    let upd = spec_upsert(orig, content@, now, old(self).spec_next_id());
                    assert(self.records@.len() == old(self).records@.len());
                    assert forall|k: int| 0 <= k < self@.len() implies self@[k] == upd[k] by {
                        assert(self@[k] == self.records@[k]@);
                        if k < i {
                            assert(self.records@[k] == old(self).records@[k]);
                        } else if k == i {
                            assert(self.records@[k as int].timestamp == now);
                        } else {
                            assert(self.records@[k] == old(self).records@.remove(i as int).insert(
                                i as int,
                                self.records@[i as int],
                            )[k]);
                        }
                    }
                    assert(self@ =~= upd);
                }
            },
            None => {
                let record = PunishedRecord {
                    id: self.next_id,
                    content: content.clone(),
                    timestamp: now,
                };
                proof {
                    assert(record.content@ =~= content@);
                }
                self.records.push(record);
                if self.next_id < u64::MAX {
                    self.next_id = self.next_id + 1;
                }
                proof {
                    assert(self@ =~= old(self)@.push(
                        PunishedRecordView {
                            id: old(self).spec_next_id(),
                            content: content@,
                            timestamp: now,
                        },
                    ));
                }
            },
        }
    }

    /// Removes every record older than the punished-fingerprint lifetime.
    pub fn expire(&mut self, now: u64)
        ensures
            final(self)@ == spec_unexpired(old(self)@, now),
            final(self).spec_next_id() == old(self).spec_next_id(),
            old(self).wf() ==> final(self).wf(),
    {
        let ghost orig = self@;
        let mut kept: Vec<PunishedRecord> = Vec::new();
        let mut i: usize = 0;
        while i < self.records.len()
            invariant
                i <= self.records@.len(),
                orig == self.records.deep_view(),
                orig.len() == self.records@.len(),
                kept@.len() == spec_unexpired(orig.take(i as int), now).len(),
                kept.deep_view() == spec_unexpired(orig.take(i as int), now),
            decreases self.records@.len() - i,
        {
            let r = &self.records[i];
            let live = if r.timestamp <= now {
                now - r.timestamp <= RECENTLY_PUNISHED_LIFETIME
            } else {
                true
            };
            proof {
                let t = orig.take(i + 1);
                assert(t.drop_last() =~= orig.take(i as int));
                assert(t.last() == orig[i as int]);
            }
            if live {
                let c = PunishedRecord {
                    id: self.records[i].id,
                    content: self.records[i].content.clone(),
                    timestamp: self.records[i].timestamp,
                };
                proof {
                    assert(c@ =~= orig[i as int]);
                }
                kept.push(c);
                proof {
                    assert(kept.deep_view() =~= spec_unexpired(orig.take(i as int), now).push(
                        orig[i as int],
                    ));
                }
            }
            i += 1;
        }
        proof {
            assert(orig.take(orig.len() as int) =~= orig);
        }
        self.records = kept;
        proof {
            if old(self).wf() {
                assert forall|k: int| 0 <= k < self@.len() implies (#[trigger] self@[k]).wf() by {
                    lemma_unexpired_member(orig, now, k);
                }
            }
        }
    }

    /// Removes the record with the given identifier; reports whether one
    /// existed.
    pub fn remove_by_id(&mut self, id: u64) -> (r: bool)
        ensures
            r == (exists|i: int| 0 <= i < old(self)@.len() && (#[trigger] old(self)@[i]).id == id),
            !r ==> final(self)@ == old(self)@,
            r ==> exists|i: int|
                {
                    &&& 0 <= i < old(self)@.len()
                    &&& (#[trigger] old(self)@[i]).id == id
                    &&& final(self)@ == old(self)@.remove(i)
                },
            final(self).spec_next_id() == old(self).spec_next_id(),
            old(self).wf() ==> final(self).wf(),
    {
        let mut i: usize = 0;
        while i < self.records.len()
            invariant
                i <= self.records@.len(),
                self@ == old(self)@,
                self.next_id == old(self).next_id,
                self@.len() == self.records@.len(),
                forall|k: int| 0 <= k < i ==> (#[trigger] self@[k]).id != id,
            decreases self.records@.len() - i,
        {
            if self.records[i].id == id {
                self.records.remove(i);
                proof {
                    assert(self@ =~= old(self)@.remove(i as int));
                    assert(old(self)@[i as int].id == id);
                    if old(self).wf() {
                        assert forall|k: int| 0 <= k < self@.len() implies (
                        #[trigger] self@[k]).wf() by {
                            if k < i {
                                assert(self@[k] == old(self)@[k]);
                            } else {
                                assert(self@[k] == old(self)@[k + 1]);
                            }
                        }
                    }
                }
                return true;
            }
            i += 1;
        }
        false
    }
}

/// Every record surviving a sweep already stood in the registry.
proof fn lemma_unexpired_member(rs: Seq<PunishedRecordView>, now: u64, k: int)
    requires
        0 <= k < spec_unexpired(rs, now).len(),
    ensures
        exists|j: int| 0 <= j < rs.len() && spec_unexpired(rs, now)[k] == #[trigger] rs[j],
    decreases rs.len(),
{
    if rs.len() > 0 {
        let rest = spec_unexpired(rs.drop_last(), now);
        if record_live(rs.last(), now) && k == rest.len() {
            assert(spec_unexpired(rs, now)[k] == rs[rs.len() - 1]);
        } else {
            lemma_unexpired_member(rs.drop_last(), now, k);
            let j = choose|j: int|
                0 <= j < rs.drop_last().len() && rest[k] == #[trigger] rs.drop_last()[j];
            assert(spec_unexpired(rs, now)[k] == rs[j]);
        }
    }
}

} // verus!
