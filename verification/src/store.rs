//! The price store: a releases snapshot, an append-only price history, and
//! the current collection/wantlist membership. Rows live in plain vectors;
//! well-formedness (`wf`) keeps catalog ids unique, history ordered by
//! timestamp, membership keys unique, and every row referring to a release
//! that exists. Durability is the surrounding application's concern.

use vstd::prelude::*;

verus! {

use crate::clock::current_time_seconds;
use crate::errors::StoreError;
use crate::types::{PriceRecord, ReleaseInfo};

/// A stored release: the canonical record plus the time it was last touched.
pub struct ReleaseRow {
    pub info: ReleaseInfo,
    pub updated_at: u64,
}

/// One owned copy: a release may appear at most once per (folder, instance).
pub struct CollectionRow {
    pub release_id: u32,
    pub folder_id: u32,
    pub instance_id: Option<u32>,
    pub date_added: u64,
}

/// One wantlist entry; at most one per release id.
pub struct WantRow {
    pub release_id: u32,
    pub rating: u32,
    pub notes: Option<String>,
    pub date_added: u64,
}

/// The store's mathematical model: the four tables as sequences of rows.
pub struct StoreModel {
    pub releases: Seq<ReleaseRow>,
    pub history: Seq<PriceRecord>,
    pub collection: Seq<CollectionRow>,
    pub wants: Seq<WantRow>,
}

pub struct PriceDatabase {
    releases: Vec<ReleaseRow>,
    history: Vec<PriceRecord>,
    collection: Vec<CollectionRow>,
    wants: Vec<WantRow>,
}

impl View for PriceDatabase {
    type V = StoreModel;

    closed spec fn view(&self) -> StoreModel {
        StoreModel {
            releases: self.releases@,
            history: self.history@,
            collection: self.collection@,
            wants: self.wants@,
        }
    }
}

/// The release a lookup of `rid` finds: the most recently stored row wins
/// (with unique ids there is at most one).
pub open spec fn spec_get_release(s: Seq<ReleaseRow>, rid: u32) -> Option<ReleaseInfo>
    decreases s.len(),
{
    if s.len() == 0 {
        None
    } else if s.last().info.id == rid {
        Some(s.last().info)
    } else {
        spec_get_release(s.drop_last(), rid)
    }
}

pub open spec fn has_release(s: Seq<ReleaseRow>, rid: u32) -> bool {
    spec_get_release(s, rid) is Some
}

/// The set of catalog ids present in the releases table.
pub open spec fn release_ids(s: Seq<ReleaseRow>) -> Set<u32>
    decreases s.len(),
{
    if s.len() == 0 {
        Set::empty()
    } else {
        release_ids(s.drop_last()).insert(s.last().info.id)
    }
}

/// The observations for one release, in stored (timestamp) order.
pub open spec fn history_of(h: Seq<PriceRecord>, rid: u32) -> Seq<PriceRecord>
    decreases h.len(),
{
    if h.len() == 0 {
        Seq::empty()
    } else if h.last().release_id == rid {
        history_of(h.drop_last(), rid).push(h.last())
    } else {
        history_of(h.drop_last(), rid)
    }
}

/// The observations for one release at or after `cutoff`, in stored order.
pub open spec fn history_of_since(h: Seq<PriceRecord>, rid: u32, cutoff: u64) -> Seq<PriceRecord>
    decreases h.len(),
{
    if h.len() == 0 {
        Seq::empty()
    } else if h.last().release_id == rid && h.last().timestamp >= cutoff {
        history_of_since(h.drop_last(), rid, cutoff).push(h.last())
    } else {
        history_of_since(h.drop_last(), rid, cutoff)
    }
}

pub open spec fn ts_sorted(h: Seq<PriceRecord>) -> bool {
    forall|i: int, j: int|
        0 <= i <= j < h.len() ==> #[trigger] h[i].timestamp <= #[trigger] h[j].timestamp
}

/// Where a record with timestamp `ts` goes in a history ordered by timestamp:
/// after every record whose timestamp is not later.
pub open spec fn insert_pos(h: Seq<PriceRecord>, ts: u64) -> int
    decreases h.len(),
{
    if h.len() == 0 {
        0
    } else if h.last().timestamp <= ts {
        h.len() as int
    } else {
        insert_pos(h.drop_last(), ts)
    }
}

/// The membership key: a release may appear at most once per key.
pub open spec fn collection_key(r: CollectionRow) -> (u32, u32, Option<u32>) {
    (r.release_id, r.folder_id, r.instance_id)
}

/// The set of membership keys present in the collection table.
pub open spec fn collection_keys(s: Seq<CollectionRow>) -> Set<(u32, u32, Option<u32>)>
    decreases s.len(),
{
    if s.len() == 0 {
        Set::empty()
    } else {
        collection_keys(s.drop_last()).insert(collection_key(s.last()))
    }
}

/// The wantlist entry a lookup of `rid` finds (unique under `wf`).
pub open spec fn spec_get_want(s: Seq<WantRow>, rid: u32) -> Option<WantRow>
    decreases s.len(),
{
    if s.len() == 0 {
        None
    } else if s.last().release_id == rid {
        Some(s.last())
    } else {
        spec_get_want(s.drop_last(), rid)
    }
}

/// The set of release ids present in the wantlist.
pub open spec fn want_ids(s: Seq<WantRow>) -> Set<u32>
    decreases s.len(),
{
    if s.len() == 0 {
        Set::empty()
    } else {
        want_ids(s.drop_last()).insert(s.last().release_id)
    }
}

impl PriceDatabase {
    /// Well-formedness: unique release ids, history ordered by timestamp,
    /// unique membership keys and wantlist ids, and referential integrity of
    /// every observation, membership and wantlist entry.
    pub open spec fn wf(&self) -> bool {
        let m = self@;
        &&& (forall|i: int, j: int|
            0 <= i < j < m.releases.len() ==> (#[trigger] m.releases[i]).info.id != (
            #[trigger] m.releases[j]).info.id)
        &&& ts_sorted(m.history)
        &&& (forall|i: int|
            0 <= i < m.history.len() ==> has_release(
                m.releases,
                (#[trigger] m.history[i]).release_id,
            ))
        &&& (forall|i: int, j: int|
            0 <= i < j < m.collection.len() ==> collection_key(#[trigger] m.collection[i])
                != collection_key(#[trigger] m.collection[j]))
        &&& (forall|i: int|
            0 <= i < m.collection.len() ==> has_release(
                m.releases,
                (#[trigger] m.collection[i]).release_id,
            ))
        &&& (forall|i: int, j: int|
            0 <= i < j < m.wants.len() ==> (#[trigger] m.wants[i]).release_id != (
            #[trigger] m.wants[j]).release_id)
        &&& (forall|i: int|
            0 <= i < m.wants.len() ==> has_release(m.releases, (#[trigger] m.wants[i]).release_id))
    }

    /// An empty store.
    pub fn new() -> (r: PriceDatabase)
        ensures
            r.wf(),
            r@.releases.len() == 0,
            r@.history.len() == 0,
            r@.collection.len() == 0,
            r@.wants.len() == 0,
    {
        PriceDatabase {
            releases: Vec::new(),
            history: Vec::new(),
            collection: Vec::new(),
            wants: Vec::new(),
        }
    }

    fn find_release(&self, rid: u32) -> (r: Option<usize>)
        requires
            self.wf(),
        ensures
            match r {
                Some(i) => i < self@.releases.len() && self@.releases[i as int].info.id == rid
                    && spec_get_release(self@.releases, rid) == Some(
                    self@.releases[i as int].info,
                ),
                None => !has_release(self@.releases, rid),
            },
    {
        let ghost s = self@.releases;
        let n = self.releases.len();
        let mut i: usize = 0;
        while i < n
            invariant
                n == s.len(),
                0 <= i <= n,
                s == self@.releases,
                self.wf(),
                forall|j: int| 0 <= j < i ==> (#[trigger] s[j]).info.id != rid,
            decreases n - i,
        {
            if self.releases[i].info.id == rid {
                proof {
                    lemma_get_release_at(s, rid, i as int);
                }
                return Some(i);
            }
            i += 1;
        }
        proof {
            lemma_get_release_none(s, rid);
        }
        None
    }

    /// Looks a release up by catalog id.
    pub fn get_release(&self, release_id: u32) -> (r: Option<ReleaseInfo>)
        requires
            self.wf(),
        ensures
            r == spec_get_release(self@.releases, release_id),
    {
        match self.find_release(release_id) {
            Some(i) => Some(self.releases[i].info.clone()),
            None => None,
        }
    }

    /// Creates or overwrites the release row for `release.id`: mutable fields
    /// always take the given values and the updated-at marker is refreshed.
    /// No other table and no other release is touched.
    pub fn add_or_update_release(&mut self, release: &ReleaseInfo)
        requires
            old(self).wf(),
        ensures
            final(self).wf(),
            final(self)@.history == old(self)@.history,
            final(self)@.collection == old(self)@.collection,
            final(self)@.wants == old(self)@.wants,
            spec_get_release(final(self)@.releases, release.id) == Some(*release),
            forall|rid: u32|
                rid != release.id ==> #[trigger] spec_get_release(final(self)@.releases, rid)
                    == spec_get_release(old(self)@.releases, rid),
            release_ids(final(self)@.releases) == release_ids(old(self)@.releases).insert(
                release.id,
            ),
            final(self)@.releases.len() == old(self)@.releases.len() + (
            if has_release(old(self)@.releases, release.id) {
                0int
            } else {
                1int
            }),
    {
        let now = current_time_seconds();
        let row = ReleaseRow { info: release.clone(), updated_at: now };
        let ghost s0 = self@.releases;
        match self.find_release(release.id) {
            Some(i) => {
                self.releases[i] = row;
                proof {
                    lemma_get_release_update(s0, i as int, ReleaseRow { info: *release, updated_at: now });
                    lemma_release_ids_update(s0, i as int, ReleaseRow { info: *release, updated_at: now });
                    lemma_has_release_ids(s0, release.id);
                    assert(release_ids(s0).insert(release.id) =~= release_ids(s0));
                    assert(release_ids(self@.releases) =~= release_ids(s0).insert(release.id));
                    lemma_has_release_congruence(s0, self@.releases);
                }
            },
            None => {
                self.releases.push(row);
                proof {
                    assert(self@.releases.drop_last() =~= s0);
                    assert forall|j: int| 0 <= j < s0.len() implies (#[trigger] s0[j]).info.id
                        != release.id by {
                        if s0[j].info.id == release.id {
                            lemma_get_release_at(s0, release.id, j);
                        }
                    }
                    lemma_has_release_ids(s0, release.id);
                    assert(release_ids(self@.releases) =~= release_ids(s0).insert(release.id));
                    lemma_has_release_monotone_push(s0, ReleaseRow { info: *release, updated_at: now });
                }
            },
        }
    }
}

impl PriceDatabase {
    /// Appends a price observation. A pure insert: fails with an integrity
    /// error — and changes nothing — exactly when the referenced release is
    /// unknown; it never creates a release. The record is placed so that the
    /// history stays ordered by timestamp; a record at least as new as every
    /// stored one (the usual case) goes at the end.
    pub fn add_price_record(&mut self, record: &PriceRecord) -> (r: Result<(), StoreError>)
        requires
            old(self).wf(),
        ensures
            final(self).wf(),
            final(self)@.releases == old(self)@.releases,
            final(self)@.collection == old(self)@.collection,
            final(self)@.wants == old(self)@.wants,
            r is Ok <==> has_release(old(self)@.releases, record.release_id),
            r is Err ==> final(self)@ == old(self)@ && r == Err::<(), StoreError>(
                StoreError::Integrity { release_id: record.release_id },
            ),
            r is Ok ==> final(self)@.history == old(self)@.history.insert(
                insert_pos(old(self)@.history, record.timestamp),
                *record,
            ),
            r is Ok && (forall|j: int|
                0 <= j < old(self)@.history.len() ==> (#[trigger] old(self)@.history[j]).timestamp
                    <= record.timestamp) ==> final(self)@.history == old(self)@.history.push(
                *record,
            ),
    {
        if self.find_release(record.release_id).is_none() {
            return Err(StoreError::Integrity { release_id: record.release_id });
        }
        let ghost h = self@.history;
        let ghost ts = record.timestamp;
        let n = self.history.len();
        let mut i: usize = n;
        proof {
            assert(h.take(n as int) =~= h);
        }
        while i > 0 && self.history[i - 1].timestamp > record.timestamp
            invariant
                0 <= i <= n,
                n == h.len(),
                h == self@.history,
                ts == record.timestamp,
                self.wf(),
                insert_pos(h, ts) == insert_pos(h.take(i as int), ts),
                forall|j: int| i <= j < n ==> (#[trigger] h[j]).timestamp > ts,
            decreases i,
        {
            proof {
                assert(h.take(i as int).len() == i);
                assert(h.take(i as int).last() == h[i - 1]);
                assert(h[i - 1].timestamp > ts);
                assert(h.take(i as int).drop_last() =~= h.take(i - 1));
                assert(insert_pos(h.take(i as int), ts) == insert_pos(h.take(i - 1), ts));
            }
            i -= 1;
        }
        proof {
            if i > 0 {
                assert(h.take(i as int).last() == h[i - 1]);
                assert(insert_pos(h.take(i as int), ts) == i);
            } else {
                assert(insert_pos(h.take(0), ts) == 0);
            }
            assert(insert_pos(h, ts) == i);
        }
        self.history.insert(i, record.clone());
        proof {
            lemma_insert_at_pos(h, *record, i as int);
            let hh = self@.history;
            assert forall|k: int| 0 <= k < hh.len() implies has_release(
                self@.releases,
                (#[trigger] hh[k]).release_id,
            ) by {
                if hh[k] != *record {
                    let w = choose|w: int| 0 <= w < h.len() && h[w] == hh[k];
                    assert(has_release(self@.releases, h[w].release_id));
                }
            }
        }
        Ok(())
    }

    /// The most recent observation for a release, if any history exists.
    pub fn get_latest_price(&self, release_id: u32) -> (r: Option<PriceRecord>)
        ensures
            (if history_of(self@.history, release_id).len() == 0 {
                r is None
            } else {
                r == Some(history_of(self@.history, release_id).last())
            }),
    {
        let ghost h = self@.history;
        let mut i: usize = self.history.len();
        proof {
            assert(h.take(h.len() as int) =~= h);
        }
        while i > 0
            invariant
                0 <= i <= h.len(),
                h == self@.history,
                history_of(h, release_id) == history_of(h.take(i as int), release_id),
            decreases i,
        {
            proof {
                assert(h.take(i as int).last() == h[i - 1]);
                assert(h.take(i as int).drop_last() =~= h.take(i - 1));
            }
            if self.history[i - 1].release_id == release_id {
                return Some(self.history[i - 1].clone());
            }
            i -= 1;
        }
        None
    }

    /// The observations for a release at or after `cutoff`, ascending by
    /// timestamp.
    pub fn observations_since(&self, release_id: u32, cutoff: u64) -> (r: Vec<PriceRecord>)
        requires
            self.wf(),
        ensures
            r@ == history_of_since(self@.history, release_id, cutoff),
            ts_sorted(r@),
    {
        let ghost h = self@.history;
        let mut out: Vec<PriceRecord> = Vec::new();
        let n = self.history.len();
        let mut i: usize = 0;
        while i < n
            invariant
                0 <= i <= n,
                n == h.len(),
                h == self@.history,
                self.wf(),
                out@ == history_of_since(h.take(i as int), release_id, cutoff),
            decreases n - i,
        {
            proof {
                assert(h.take(i + 1).last() == h[i as int]);
                assert(h.take(i + 1).drop_last() =~= h.take(i as int));
            }
            let rec = &self.history[i];
            if rec.release_id == release_id && rec.timestamp >= cutoff {
                out.push(rec.clone());
            }
            i += 1;
        }
        proof {
            assert(h.take(n as int) =~= h);
            lemma_history_of_since_sorted(h, release_id, cutoff);
        }
        out
    }

    /// The observations for a release in the trailing window of `days` days,
    /// measured back from the current wall clock, ascending by timestamp.
    pub fn get_price_history(&self, release_id: u32, days: u32) -> (r: Vec<PriceRecord>)
        requires
            self.wf(),
        ensures
            exists|cutoff: u64| r@ == history_of_since(self@.history, release_id, cutoff),
            ts_sorted(r@),
    {
        let now = current_time_seconds();
        let window: u64 = (days as u64) * 86400;
        let cutoff: u64 = if now > window {
            now - window
        } else {
            0
        };
        let r = self.observations_since(release_id, cutoff);
        proof {
            assert(r@ == history_of_since(self@.history, release_id, cutoff));
        }
        r
    }

    /// How many releases the store knows.
    pub fn num_releases(&self) -> (r: usize)
        ensures
            r == self@.releases.len(),
    {
        self.releases.len()
    }

    /// The stored release row at `i`.
    pub fn release_at(&self, i: usize) -> (r: &ReleaseRow)
        requires
            i < self@.releases.len(),
        ensures
            *r == self@.releases[i as int],
    {
        &self.releases[i]
    }

    /// How many observations the history holds in all.
    pub fn num_observations(&self) -> (r: usize)
        ensures
            r == self@.history.len(),
    {
        self.history.len()
    }

    /// The stored observation at `i` (history order: ascending timestamp).
    pub fn observation_at(&self, i: usize) -> (r: &PriceRecord)
        requires
            i < self@.history.len(),
        ensures
            *r == self@.history[i as int],
    {
        &self.history[i]
    }

    /// The wantlist row at `i`.
    pub fn want_row_at(&self, i: usize) -> (r: &WantRow)
        requires
            i < self@.wants.len(),
        ensures
            *r == self@.wants[i as int],
    {
        &self.wants[i]
    }

    /// A row of the collection table.
    pub fn collection_row_at(&self, i: usize) -> (r: &CollectionRow)
        requires
            i < self@.collection.len(),
        ensures
            *r == self@.collection[i as int],
    {
        &self.collection[i]
    }

    /// The complete observation history for a release, ascending by
    /// timestamp.
    pub fn get_full_history(&self, release_id: u32) -> (r: Vec<PriceRecord>)
        requires
            self.wf(),
        ensures
            r@ == history_of(self@.history, release_id),
            ts_sorted(r@),
    {
        let ghost h = self@.history;
        let mut out: Vec<PriceRecord> = Vec::new();
        let n = self.history.len();
        let mut i: usize = 0;
        proof {
            assert(h.take(0) =~= Seq::<PriceRecord>::empty());
        }
        while i < n
            invariant
                0 <= i <= n,
                n == h.len(),
                h == self@.history,
                self.wf(),
                out@ == history_of(h.take(i as int), release_id),
            decreases n - i,
        {
            proof {
                assert(h.take(i + 1).last() == h[i as int]);
                assert(h.take(i + 1).drop_last() =~= h.take(i as int));
            }
            let rec = &self.history[i];
            if rec.release_id == release_id {
                out.push(rec.clone());
            }
            i += 1;
        }
        proof {
            assert(h.take(n as int) =~= h);
            lemma_history_of_sorted(h, release_id);
        }
        out
    }

    /// How many owned copies the collection currently records.
    pub fn get_collection_count(&self) -> (r: usize)
        ensures
            r == self@.collection.len(),
    {
        self.collection.len()
    }

    /// How many wantlist entries the store currently records.
    pub fn get_wants_count(&self) -> (r: usize)
        ensures
            r == self@.wants.len(),
    {
        self.wants.len()
    }
}

impl PriceDatabase {
    /// Records an owned copy. Idempotent: a duplicate (release, folder,
    /// instance) key is a no-op. Fails with an integrity error — and changes
    /// nothing — exactly when the release is unknown.
    #[verifier::loop_isolation(false)]
    pub fn add_collection_item(
        &mut self,
        release_id: u32,
        folder_id: u32,
        instance_id: Option<u32>,
    ) -> (r: Result<(), StoreError>)
        requires
            old(self).wf(),
        ensures
            final(self).wf(),
            r is Ok <==> has_release(old(self)@.releases, release_id),
            r is Err ==> final(self)@ == old(self)@ && r == Err::<(), StoreError>(
                StoreError::Integrity { release_id },
            ),
            final(self)@.releases == old(self)@.releases,
            final(self)@.history == old(self)@.history,
            final(self)@.wants == old(self)@.wants,
            r is Ok ==> collection_keys(final(self)@.collection) == collection_keys(
                old(self)@.collection,
            ).insert((release_id, folder_id, instance_id)),
            collection_keys(old(self)@.collection).contains((release_id, folder_id, instance_id))
                ==> final(self)@.collection == old(self)@.collection,
            final(self)@.collection.len() == old(self)@.collection.len() + (
            if r is Ok && !collection_keys(old(self)@.collection).contains(
                (release_id, folder_id, instance_id),
            ) {
                1int
            } else {
                0int
            }),
            r is Ok && !collection_keys(old(self)@.collection).contains(
                (release_id, folder_id, instance_id),
            ) ==> exists|t: u64|
                final(self)@.collection == old(self)@.collection.push(
                    CollectionRow { release_id, folder_id, instance_id, date_added: t },
                ),
    {
        if self.find_release(release_id).is_none() {
            return Err(StoreError::Integrity { release_id });
        }
        let ghost c = self@.collection;
        let ghost key = (release_id, folder_id, instance_id);
        let n = self.collection.len();
        let mut i: usize = 0;
        while i < n
            invariant
                0 <= i <= n,
                n == c.len(),
                c == self@.collection,
                key == (release_id, folder_id, instance_id),
                forall|j: int| 0 <= j < i ==> collection_key(#[trigger] c[j]) != key,
            decreases n - i,
        {
            let row = &self.collection[i];
            let same_instance = match (row.instance_id, instance_id) {
                (Option::None, Option::None) => true,
                (Option::Some(a), Option::Some(b)) => a == b,
                _ => false,
            };
            if row.release_id == release_id && row.folder_id == folder_id && same_instance {
                proof {
                    lemma_collection_keys_contains(c, key);
                    assert(collection_keys(c).insert(key) =~= collection_keys(c));
                }
                return Ok(());
            }
            i += 1;
        }
        let now = current_time_seconds();
        let row = CollectionRow { release_id, folder_id, instance_id, date_added: now };
        self.collection.push(row);
        proof {
            assert(self@.collection.drop_last() =~= c);
            lemma_collection_keys_contains(c, key);
            assert(self@.collection == c.push(
                CollectionRow { release_id, folder_id, instance_id, date_added: now },
            ));
            assert forall|a: int, b: int| 0 <= a < b < self@.collection.len() implies collection_key(
                #[trigger] self@.collection[a],
            ) != collection_key(#[trigger] self@.collection[b]) by {
                if b == self@.collection.len() - 1 {
                    assert(collection_key(c[a]) != key);
                }
            }
        }
        Ok(())
    }

    /// Upserts a wantlist entry, keyed by release id: the latest write wins.
    /// Fails with an integrity error — and changes nothing — exactly when the
    /// release is unknown.
    #[verifier::loop_isolation(false)]
    pub fn add_want_item(
        &mut self,
        release_id: u32,
        rating: Option<u32>,
        notes: Option<&str>,
    ) -> (r: Result<(), StoreError>)
        requires
            old(self).wf(),
        ensures
            final(self).wf(),
            r is Ok <==> has_release(old(self)@.releases, release_id),
            r is Err ==> final(self)@ == old(self)@ && r == Err::<(), StoreError>(
                StoreError::Integrity { release_id },
            ),
            final(self)@.releases == old(self)@.releases,
            final(self)@.history == old(self)@.history,
            final(self)@.collection == old(self)@.collection,
            r is Ok ==> want_ids(final(self)@.wants) == want_ids(old(self)@.wants).insert(
                release_id,
            ),
            r is Ok ==> (spec_get_want(final(self)@.wants, release_id) matches Some(w)
                && w.release_id == release_id && w.rating == (match rating {
                Some(x) => x,
                None => 0u32,
            }) && (match (w.notes, notes) {
                (Some(a), Some(b)) => a@ == b@,
                (None, None) => true,
                _ => false,
            })),
            forall|rid: u32|
                rid != release_id ==> #[trigger] spec_get_want(final(self)@.wants, rid)
                    == spec_get_want(old(self)@.wants, rid),
            final(self)@.wants.len() == old(self)@.wants.len() + (
            if r is Ok && !want_ids(old(self)@.wants).contains(release_id) {
                1int
            } else {
                0int
            }),
    {
        if self.find_release(release_id).is_none() {
            return Err(StoreError::Integrity { release_id });
        }
        let now = current_time_seconds();
        let stored_notes: Option<String> = match notes {
            Option::Some(s) => Option::Some(s.to_owned()),
            Option::None => Option::None,
        };
        let row = WantRow {
            release_id,
            rating: match rating {
                Option::Some(x) => x,
                Option::None => 0,
            },
            notes: stored_notes,
            date_added: now,
        };
        let ghost w0 = self@.wants;
        let ghost rowg = row;
        let n = self.wants.len();
        let mut i: usize = 0;
        while i < n
            invariant
                0 <= i <= n,
                n == w0.len(),
                *self == *old(self),
                w0 == self@.wants,
                forall|j: int| 0 <= j < i ==> (#[trigger] w0[j]).release_id != release_id,
            decreases n - i,
        {
            if self.wants[i].release_id == release_id {
                proof {
                    lemma_want_ids_contains(w0, release_id);
                }
                self.wants[i] = row;
                proof {
                    lemma_get_want_update(w0, i as int, rowg);
                    lemma_want_ids_update(w0, i as int, rowg);
                    assert(want_ids(w0).insert(release_id) =~= want_ids(w0));
                }
                return Ok(());
            }
            i += 1;
        }
        proof {
            lemma_want_ids_contains(w0, release_id);
        }
        self.wants.push(row);
        proof {
            assert(self@.wants.drop_last() =~= w0);
            assert forall|a: int, b: int| 0 <= a < b < self@.wants.len() implies (
            #[trigger] self@.wants[a]).release_id != (#[trigger] self@.wants[b]).release_id by {
                if b == self@.wants.len() - 1 {
                    assert(w0[a].release_id != release_id);
                }
            }
        }
        Ok(())
    }
}

/// A membership key is in the key set exactly when some row carries it.
proof fn lemma_collection_keys_contains(s: Seq<CollectionRow>, key: (u32, u32, Option<u32>))
    ensures
        collection_keys(s).contains(key) <==> exists|i: int|
            0 <= i < s.len() && collection_key(#[trigger] s[i]) == key,
    decreases s.len(),
{
    if s.len() > 0 {
        lemma_collection_keys_contains(s.drop_last(), key);
        if collection_keys(s).contains(key) {
            if collection_key(s.last()) == key {
                assert(collection_key(s[s.len() - 1]) == key);
            } else {
                let w = choose|i: int|
                    0 <= i < s.drop_last().len() && collection_key(#[trigger] s.drop_last()[i])
                        == key;
                assert(collection_key(s[w]) == key);
            }
        }
        if exists|i: int| 0 <= i < s.len() && collection_key(#[trigger] s[i]) == key {
            let w = choose|i: int| 0 <= i < s.len() && collection_key(#[trigger] s[i]) == key;
            if w < s.len() - 1 {
                assert(collection_key(s.drop_last()[w]) == key);
            }
        }
    }
}

/// A release id is in the wantlist id set exactly when some row carries it.
proof fn lemma_want_ids_contains(s: Seq<WantRow>, rid: u32)
    ensures
        want_ids(s).contains(rid) <==> exists|i: int|
            0 <= i < s.len() && (#[trigger] s[i]).release_id == rid,
    decreases s.len(),
{
    if s.len() > 0 {
        lemma_want_ids_contains(s.drop_last(), rid);
        if want_ids(s).contains(rid) {
            if s.last().release_id == rid {
                assert(s[s.len() - 1].release_id == rid);
            } else {
                let w = choose|i: int|
                    0 <= i < s.drop_last().len() && (#[trigger] s.drop_last()[i]).release_id == rid;
                assert(s[w].release_id == rid);
            }
        }
        if exists|i: int| 0 <= i < s.len() && (#[trigger] s[i]).release_id == rid {
            let w = choose|i: int| 0 <= i < s.len() && (#[trigger] s[i]).release_id == rid;
            if w < s.len() - 1 {
                assert(s.drop_last()[w].release_id == rid);
            }
        }
    }
}

/// Replacing the row at `i` by one with the same release id changes only that
/// id's wantlist lookup.
proof fn lemma_get_want_update(s: Seq<WantRow>, i: int, row: WantRow)
    requires
        forall|a: int, b: int|
            0 <= a < b < s.len() ==> (#[trigger] s[a]).release_id != (#[trigger] s[b]).release_id,
        0 <= i < s.len(),
        s[i].release_id == row.release_id,
    ensures
        spec_get_want(s.update(i, row), row.release_id) == Some(row),
        forall|rid: u32|
            rid != row.release_id ==> #[trigger] spec_get_want(s.update(i, row), rid)
                == spec_get_want(s, rid),
        forall|a: int, b: int|
            0 <= a < b < s.update(i, row).len() ==> (#[trigger] s.update(i, row)[a]).release_id != (
            #[trigger] s.update(i, row)[b]).release_id,
    decreases s.len(),
{
    let t = s.update(i, row);
    assert(forall|a: int| 0 <= a < s.len() && a != i ==> #[trigger] t[a] == s[a]);
    if i == s.len() - 1 {
        assert(t.drop_last() =~= s.drop_last());
        assert forall|rid: u32| rid != row.release_id implies #[trigger] spec_get_want(t, rid)
            == spec_get_want(s, rid) by {
            assert(spec_get_want(t, rid) == spec_get_want(t.drop_last(), rid));
        }
    } else {
        assert(t.drop_last() =~= s.drop_last().update(i, row));
        lemma_get_want_update(s.drop_last(), i, row);
        assert(t.last() == s.last());
        assert(s.last().release_id != row.release_id);
        assert(spec_get_want(t, row.release_id) == spec_get_want(t.drop_last(), row.release_id));
        assert forall|rid: u32| rid != row.release_id implies #[trigger] spec_get_want(t, rid)
            == spec_get_want(s, rid) by {
            if t.last().release_id == rid {
            } else {
                assert(spec_get_want(t, rid) == spec_get_want(t.drop_last(), rid));
                assert(spec_get_want(s, rid) == spec_get_want(s.drop_last(), rid));
            }
        }
    }
}

/// Replacing a row by one with the same release id leaves the id set
/// unchanged.
proof fn lemma_want_ids_update(s: Seq<WantRow>, i: int, row: WantRow)
    requires
        0 <= i < s.len(),
        s[i].release_id == row.release_id,
    ensures
        want_ids(s.update(i, row)) == want_ids(s),
    decreases s.len(),
{
    let t = s.update(i, row);
    if i == s.len() - 1 {
        assert(t.drop_last() =~= s.drop_last());
        assert(want_ids(t) =~= want_ids(s));
    } else {
        assert(t.drop_last() =~= s.drop_last().update(i, row));
        lemma_want_ids_update(s.drop_last(), i, row);
        assert(want_ids(t) =~= want_ids(s));
    }
}

/// Everything at or past the insertion position is strictly newer; everything
/// before it is not.
proof fn lemma_between_insert_pos(h: Seq<PriceRecord>, ts: u64, p: int)
    requires
        ts_sorted(h),
        p == insert_pos(h, ts),
    ensures
        0 <= p <= h.len(),
        forall|j: int| 0 <= j < p ==> (#[trigger] h[j]).timestamp <= ts,
        forall|j: int| p <= j < h.len() ==> (#[trigger] h[j]).timestamp > ts,
    decreases h.len(),
{
    if h.len() > 0 {
        if h.last().timestamp <= ts {
            assert(h.last() == h[h.len() - 1]);
            assert forall|j: int| 0 <= j < p implies (#[trigger] h[j]).timestamp <= ts by {
                assert(h[j].timestamp <= h[h.len() - 1].timestamp);
            }
        } else {
            assert(forall|i: int, j: int|
                0 <= i <= j < h.drop_last().len() ==> (#[trigger] h.drop_last()[i]).timestamp <= (
                #[trigger] h.drop_last()[j]).timestamp);
            lemma_between_insert_pos(h.drop_last(), ts, p);
            assert forall|j: int| 0 <= j < p implies (#[trigger] h[j]).timestamp <= ts by {
                assert(h.drop_last()[j] == h[j]);
            }
            assert forall|j: int| p <= j < h.len() implies (#[trigger] h[j]).timestamp > ts by {
                if j < h.len() - 1 {
                    assert(h.drop_last()[j] == h[j]);
                }
            }
        }
    }
}

/// Inserting a record at its insertion position keeps the history ordered;
/// every resulting record is the new one or one of the old ones; and a record
/// at least as new as all stored ones lands at the end.
proof fn lemma_insert_at_pos(h: Seq<PriceRecord>, rec: PriceRecord, p: int)
    requires
        ts_sorted(h),
        p == insert_pos(h, rec.timestamp),
    ensures
        ts_sorted(h.insert(p, rec)),
        forall|k: int|
            0 <= k < h.insert(p, rec).len() ==> (#[trigger] h.insert(p, rec)[k] == rec
                || h.contains(h.insert(p, rec)[k])),
        (forall|j: int| 0 <= j < h.len() ==> (#[trigger] h[j]).timestamp <= rec.timestamp)
            ==> h.insert(p, rec) == h.push(rec),
{
    let ts = rec.timestamp;
    let hh = h.insert(p, rec);
    lemma_between_insert_pos(h, ts, p);
    h.insert_ensures(p, rec);
    assert forall|a: int, b: int| 0 <= a <= b < hh.len() implies (#[trigger] hh[a]).timestamp <= (
    #[trigger] hh[b]).timestamp by {
        if a < p && b < p {
            assert(hh[a] == h[a] && hh[b] == h[b]);
        } else if a < p && b == p {
            assert(hh[a] == h[a]);
        } else if a < p && b > p {
            assert(hh[a] == h[a] && hh[b] == h[b - 1]);
        } else if a == p && b > p {
            assert(hh[b] == h[b - 1]);
        } else if a > p && b > p {
            assert(hh[a] == h[a - 1] && hh[b] == h[b - 1]);
        }
    }
    assert forall|k: int| 0 <= k < hh.len() implies (#[trigger] hh[k] == rec || h.contains(
        hh[k],
    )) by {
        if k < p {
            assert(hh[k] == h[k]);
        } else if k > p {
            assert(hh[k] == h[k - 1]);
        }
    }
    if forall|j: int| 0 <= j < h.len() ==> (#[trigger] h[j]).timestamp <= ts {
        assert(p == h.len());
        assert(hh =~= h.push(rec));
    }
}

/// A per-release view of a timestamp-ordered history is itself ordered.
pub proof fn lemma_history_of_sorted(h: Seq<PriceRecord>, rid: u32)
    requires
        ts_sorted(h),
    ensures
        ts_sorted(history_of(h, rid)),
        forall|k: int|
            0 <= k < history_of(h, rid).len() ==> h.contains(#[trigger] history_of(h, rid)[k]),
        forall|k: int|
            0 <= k < history_of(h, rid).len() ==> (#[trigger] history_of(h, rid)[k]).timestamp
                <= ts_upper(h),
    decreases h.len(),
{
    if h.len() > 0 {
        assert(forall|i: int, j: int|
            0 <= i <= j < h.drop_last().len() ==> (#[trigger] h.drop_last()[i]).timestamp <= (
            #[trigger] h.drop_last()[j]).timestamp);
        lemma_history_of_sorted(h.drop_last(), rid);
        assert(ts_upper(h.drop_last()) <= ts_upper(h));
        assert forall|k: int| 0 <= k < history_of(h, rid).len() implies h.contains(
            #[trigger] history_of(h, rid)[k],
        ) by {
            let g = history_of(h.drop_last(), rid);
            if k < g.len() {
                assert(h.drop_last().contains(g[k]));
                let w = choose|w: int| 0 <= w < h.drop_last().len() && h.drop_last()[w] == g[k];
                assert(h[w] == g[k]);
            }
        }
    }
}

/// A per-release window of a timestamp-ordered history is itself ordered.
proof fn lemma_history_of_since_sorted(h: Seq<PriceRecord>, rid: u32, cutoff: u64)
    requires
        ts_sorted(h),
    ensures
        ts_sorted(history_of_since(h, rid, cutoff)),
        forall|k: int|
            0 <= k < history_of_since(h, rid, cutoff).len() ==> h.contains(
                #[trigger] history_of_since(h, rid, cutoff)[k],
            ),
        forall|k: int|
            0 <= k < history_of_since(h, rid, cutoff).len() ==> (#[trigger] history_of_since(
                h,
                rid,
                cutoff,
            )[k]).timestamp <= ts_upper(h),
    decreases h.len(),
{
    if h.len() > 0 {
        assert(forall|i: int, j: int|
            0 <= i <= j < h.drop_last().len() ==> (#[trigger] h.drop_last()[i]).timestamp <= (
            #[trigger] h.drop_last()[j]).timestamp);
        lemma_history_of_since_sorted(h.drop_last(), rid, cutoff);
        assert(ts_upper(h.drop_last()) <= ts_upper(h));
        assert forall|k: int|
            0 <= k < history_of_since(h, rid, cutoff).len() implies h.contains(
            #[trigger] history_of_since(h, rid, cutoff)[k],
        ) by {
            let g = history_of_since(h.drop_last(), rid, cutoff);
            if k < g.len() {
                assert(h.drop_last().contains(g[k]));
                let w = choose|w: int| 0 <= w < h.drop_last().len() && h.drop_last()[w] == g[k];
                assert(h[w] == g[k]);
            }
        }
    }
}

/// An upper bound on the timestamps in a timestamp-ordered history.
pub open spec fn ts_upper(h: Seq<PriceRecord>) -> int {
    if h.len() == 0 {
        -1
    } else {
        h.last().timestamp as int
    }
}

/// A found release carries the id it was looked up by.
pub proof fn lemma_get_release_id(s: Seq<ReleaseRow>, rid: u32)
    ensures
        spec_get_release(s, rid) matches Some(r) ==> r.id == rid,
    decreases s.len(),
{
    if s.len() > 0 {
        lemma_get_release_id(s.drop_last(), rid);
    }
}

/// A release is present exactly when some row carries its id.
pub proof fn lemma_has_release_index(s: Seq<ReleaseRow>, rid: u32)
    ensures
        has_release(s, rid) <==> exists|j: int| 0 <= j < s.len() && (#[trigger] s[j]).info.id == rid,
    decreases s.len(),
{
    if s.len() > 0 {
        lemma_has_release_index(s.drop_last(), rid);
        if has_release(s, rid) {
            if s.last().info.id == rid {
                assert(s[s.len() - 1].info.id == rid);
            } else {
                let w = choose|j: int|
                    0 <= j < s.drop_last().len() && (#[trigger] s.drop_last()[j]).info.id == rid;
                assert(s[w].info.id == rid);
            }
        }
        if exists|j: int| 0 <= j < s.len() && (#[trigger] s[j]).info.id == rid {
            let w = choose|j: int| 0 <= j < s.len() && (#[trigger] s[j]).info.id == rid;
            if w < s.len() - 1 {
                assert(s.drop_last()[w].info.id == rid);
            }
        }
    }
}

/// With unique ids, a row matching `rid` at any index is the row a lookup
/// finds.
pub proof fn lemma_get_release_at(s: Seq<ReleaseRow>, rid: u32, i: int)
    requires
        forall|a: int, b: int|
            0 <= a < b < s.len() ==> (#[trigger] s[a]).info.id != (#[trigger] s[b]).info.id,
        0 <= i < s.len(),
        s[i].info.id == rid,
    ensures
        spec_get_release(s, rid) == Some(s[i].info),
    decreases s.len(),
{
    if i == s.len() - 1 {
    } else {
        assert(s.drop_last()[i] == s[i]);
        lemma_get_release_at(s.drop_last(), rid, i);
    }
}

/// If no row matches `rid`, a lookup finds nothing.
proof fn lemma_get_release_none(s: Seq<ReleaseRow>, rid: u32)
    requires
        forall|j: int| 0 <= j < s.len() ==> (#[trigger] s[j]).info.id != rid,
    ensures
        spec_get_release(s, rid) is None,
    decreases s.len(),
{
    if s.len() > 0 {
        assert(forall|j: int|
            0 <= j < s.drop_last().len() ==> (#[trigger] s.drop_last()[j]).info.id != rid);
        lemma_get_release_none(s.drop_last(), rid);
    }
}

/// Replacing the row at `i` by one with the same id changes only that id's
/// lookup.
proof fn lemma_get_release_update(s: Seq<ReleaseRow>, i: int, row: ReleaseRow)
    requires
        forall|a: int, b: int|
            0 <= a < b < s.len() ==> (#[trigger] s[a]).info.id != (#[trigger] s[b]).info.id,
        0 <= i < s.len(),
        s[i].info.id == row.info.id,
    ensures
        spec_get_release(s.update(i, row), row.info.id) == Some(row.info),
        forall|rid: u32|
            rid != row.info.id ==> #[trigger] spec_get_release(s.update(i, row), rid)
                == spec_get_release(s, rid),
        forall|a: int, b: int|
            0 <= a < b < s.update(i, row).len() ==> (#[trigger] s.update(i, row)[a]).info.id != (
            #[trigger] s.update(i, row)[b]).info.id,
    decreases s.len(),
{
    let t = s.update(i, row);
    assert(forall|a: int| 0 <= a < s.len() && a != i ==> #[trigger] t[a] == s[a]);
    if i == s.len() - 1 {
        assert(t.drop_last() =~= s.drop_last());
        assert forall|rid: u32| rid != row.info.id implies #[trigger] spec_get_release(t, rid)
            == spec_get_release(s, rid) by {
            assert(spec_get_release(t, rid) == spec_get_release(t.drop_last(), rid));
        }
    } else {
        assert(t.drop_last() =~= s.drop_last().update(i, row));
        lemma_get_release_update(s.drop_last(), i, row);
        assert(t.last() == s.last());
        assert(s.last().info.id != row.info.id);
        assert(spec_get_release(t, row.info.id) == spec_get_release(t.drop_last(), row.info.id));
        assert forall|rid: u32| rid != row.info.id implies #[trigger] spec_get_release(t, rid)
            == spec_get_release(s, rid) by {
            if t.last().info.id == rid {
            } else {
                assert(spec_get_release(t, rid) == spec_get_release(t.drop_last(), rid));
                assert(spec_get_release(s, rid) == spec_get_release(s.drop_last(), rid));
            }
        }
    }
}

/// Replacing a row by one with the same id leaves the id set unchanged.
proof fn lemma_release_ids_update(s: Seq<ReleaseRow>, i: int, row: ReleaseRow)
    requires
        0 <= i < s.len(),
        s[i].info.id == row.info.id,
    ensures
        release_ids(s.update(i, row)) == release_ids(s),
    decreases s.len(),
{
    let t = s.update(i, row);
    if i == s.len() - 1 {
        assert(t.drop_last() =~= s.drop_last());
        assert(release_ids(t) =~= release_ids(s));
    } else {
        assert(t.drop_last() =~= s.drop_last().update(i, row));
        lemma_release_ids_update(s.drop_last(), i, row);
        assert(release_ids(t) =~= release_ids(s));
    }
}

/// A release is present exactly when its id is in the id set.
pub proof fn lemma_has_release_ids(s: Seq<ReleaseRow>, rid: u32)
    ensures
        has_release(s, rid) <==> release_ids(s).contains(rid),
    decreases s.len(),
{
    if s.len() > 0 {
        lemma_has_release_ids(s.drop_last(), rid);
    }
}

/// Lookups agree on sequences whose id sets agree row-for-row; used to carry
/// referential integrity across an in-place update.
proof fn lemma_has_release_congruence(s: Seq<ReleaseRow>, t: Seq<ReleaseRow>)
    requires
        release_ids(s) == release_ids(t),
    ensures
        forall|rid: u32| #[trigger] has_release(s, rid) == has_release(t, rid),
{
    assert forall|rid: u32| #[trigger] has_release(s, rid) == has_release(t, rid) by {
        lemma_has_release_ids(s, rid);
        lemma_has_release_ids(t, rid);
    }
}

/// Adding a release keeps every already-present release present.
proof fn lemma_has_release_monotone_push(s: Seq<ReleaseRow>, row: ReleaseRow)
    ensures
        forall|rid: u32| has_release(s, rid) ==> #[trigger] has_release(s.push(row), rid),
{
    assert forall|rid: u32| has_release(s, rid) implies #[trigger] has_release(s.push(row), rid) by {
        assert(s.push(row).drop_last() =~= s);
    }
}

} // verus!
