//! The sync orchestrator's decisions: reconciling fetched collection and
//! wantlist data into the store, planning which releases to price (deduped,
//! staleness-aware, batched), and recording pricing outcomes. The phases of a
//! run are `Fetching → Reconciling → Pricing → Done`, with `Failed` reachable
//! from any of them; the surrounding application performs the fetches and
//! drives the phases.

use vstd::prelude::*;

verus! {

use crate::errors::{ApiError, PricingFailure};
use crate::store::{
    PriceDatabase, StoreModel, collection_keys, has_release, history_of, insert_pos, release_ids,
    spec_get_release, spec_get_want, want_ids,
};
use crate::types::{
    DiscogsCollectionItem, DiscogsWantlistItem, MarketplacePrice, PriceRecord, ReleaseInfo,
    spec_primary_artist, spec_primary_format,
};

#[derive(Clone, Copy, PartialEq, Eq, Structural, Debug)]
pub enum SyncPhase {
    Fetching,
    Reconciling,
    Pricing,
    Done,
    Failed,
}

pub open spec fn spec_advance(p: SyncPhase) -> SyncPhase {
    match p {
        SyncPhase::Fetching => SyncPhase::Reconciling,
        SyncPhase::Reconciling => SyncPhase::Pricing,
        SyncPhase::Pricing => SyncPhase::Done,
        SyncPhase::Done => SyncPhase::Done,
        SyncPhase::Failed => SyncPhase::Failed,
    }
}

/// Moves a run to its next phase; `Done` and `Failed` are terminal.
pub fn advance_phase(p: SyncPhase) -> (r: SyncPhase)
    ensures
        r == spec_advance(p),
{
    match p {
        SyncPhase::Fetching => SyncPhase::Reconciling,
        SyncPhase::Reconciling => SyncPhase::Pricing,
        SyncPhase::Pricing => SyncPhase::Done,
        SyncPhase::Done => SyncPhase::Done,
        SyncPhase::Failed => SyncPhase::Failed,
    }
}

/// Aborts a run: every phase may fail.
pub fn fail_phase(p: SyncPhase) -> (r: SyncPhase)
    ensures
        r == SyncPhase::Failed,
{
    SyncPhase::Failed
}

/// The membership key a collection item claims.
pub open spec fn item_key(item: DiscogsCollectionItem) -> (u32, u32, Option<u32>) {
    (item.basic_information.id, item.folder_id, Some(item.instance_id))
}

pub open spec fn item_keys(items: Seq<DiscogsCollectionItem>) -> Set<(u32, u32, Option<u32>)>
    decreases items.len(),
{
    if items.len() == 0 {
        Set::empty()
    } else {
        item_keys(items.drop_last()).insert(item_key(items.last()))
    }
}

pub open spec fn item_ids(items: Seq<DiscogsCollectionItem>) -> Set<u32>
    decreases items.len(),
{
    if items.len() == 0 {
        Set::empty()
    } else {
        item_ids(items.drop_last()).insert(items.last().basic_information.id)
    }
}

pub open spec fn want_item_ids(items: Seq<DiscogsWantlistItem>) -> Set<u32>
    decreases items.len(),
{
    if items.len() == 0 {
        Set::empty()
    } else {
        want_item_ids(items.drop_last()).insert(items.last().basic_information.id)
    }
}

/// The stored release carries exactly the canonical mapping of the item.
pub open spec fn release_matches_collection_item(r: ReleaseInfo, item: DiscogsCollectionItem) -> bool {
    &&& r.id == item.basic_information.id
    &&& r.title@ == item.basic_information.title@
    &&& r.artist@ == spec_primary_artist(item.basic_information)
    &&& r.year == item.basic_information.year
    &&& r.format@ == spec_primary_format(item.basic_information)
    &&& r.thumb_url@ == item.basic_information.thumb@
    &&& r.added_date@ == item.date_added@
}

pub open spec fn release_matches_wantlist_item(r: ReleaseInfo, item: DiscogsWantlistItem) -> bool {
    &&& r.id == item.basic_information.id
    &&& r.title@ == item.basic_information.title@
    &&& r.artist@ == spec_primary_artist(item.basic_information)
    &&& r.year == item.basic_information.year
    &&& r.format@ == spec_primary_format(item.basic_information)
    &&& r.thumb_url@ == item.basic_information.thumb@
    &&& r.added_date@ == item.date_added@
}

/// What reconciling a batch of collection items guarantees: releases
/// upserted (the last occurrence of an id wins), membership keys added
/// set-wise, everything else untouched, and — the idempotence core — no
/// change at all to the collection table when every key was already present.
pub open spec fn reconcile_collection_post(
    pre: StoreModel,
    post: StoreModel,
    items: Seq<DiscogsCollectionItem>,
) -> bool {
    &&& post.history == pre.history
    &&& post.wants == pre.wants
    &&& release_ids(post.releases) == release_ids(pre.releases).union(item_ids(items))
    &&& collection_keys(post.collection) == collection_keys(pre.collection).union(item_keys(items))
    &&& (forall|rid: u32|
        !item_ids(items).contains(rid) ==> #[trigger] spec_get_release(post.releases, rid)
            == spec_get_release(pre.releases, rid))
    &&& (forall|k: int|
        0 <= k < items.len() ==> has_release(
            post.releases,
            (#[trigger] items[k]).basic_information.id,
        ))
    &&& (item_keys(items).subset_of(collection_keys(pre.collection)) ==> post.collection
        == pre.collection)
    &&& (forall|k: int|
        0 <= k < items.len() && (forall|l: int|
            k < l < items.len() ==> (#[trigger] items[l]).basic_information.id
                != items[k].basic_information.id) ==> ((#[trigger] spec_get_release(
            post.releases,
            items[k].basic_information.id,
        )) matches Some(r) && release_matches_collection_item(r, items[k])))
}

/// What reconciling a batch of wantlist items guarantees, analogously; the
/// wantlist count is unchanged when every item's release was already wanted.
pub open spec fn reconcile_wantlist_post(
    pre: StoreModel,
    post: StoreModel,
    items: Seq<DiscogsWantlistItem>,
) -> bool {
    &&& post.history == pre.history
    &&& post.collection == pre.collection
    &&& release_ids(post.releases) == release_ids(pre.releases).union(want_item_ids(items))
    &&& want_ids(post.wants) == want_ids(pre.wants).union(want_item_ids(items))
    &&& (forall|rid: u32|
        !want_item_ids(items).contains(rid) ==> #[trigger] spec_get_release(post.releases, rid)
            == spec_get_release(pre.releases, rid))
    &&& (forall|rid: u32|
        !want_item_ids(items).contains(rid) ==> #[trigger] spec_get_want(post.wants, rid)
            == spec_get_want(pre.wants, rid))
    &&& (forall|k: int|
        0 <= k < items.len() ==> has_release(
            post.releases,
            (#[trigger] items[k]).basic_information.id,
        ))
    &&& (want_item_ids(items).subset_of(want_ids(pre.wants)) ==> post.wants.len()
        == pre.wants.len())
    &&& (forall|k: int|
        0 <= k < items.len() && (forall|l: int|
            k < l < items.len() ==> (#[trigger] items[l]).basic_information.id
                != items[k].basic_information.id) ==> ((#[trigger] spec_get_release(
            post.releases,
            items[k].basic_information.id,
        )) matches Some(r) && release_matches_wantlist_item(r, items[k])))
    &&& (forall|k: int|
        0 <= k < items.len() && (forall|l: int|
            k < l < items.len() ==> (#[trigger] items[l]).basic_information.id
                != items[k].basic_information.id) ==> ((#[trigger] spec_get_want(
            post.wants,
            items[k].basic_information.id,
        )) matches Some(w) && w.rating == items[k].rating && (w.notes matches Some(ns) && ns@
            == items[k].notes@)))
}

proof fn lemma_reconcile_collection_nil(pre: StoreModel)
    ensures
        reconcile_collection_post(pre, pre, Seq::empty()),
{
    assert(release_ids(pre.releases).union(item_ids(Seq::empty())) =~= release_ids(pre.releases));
    assert(collection_keys(pre.collection).union(item_keys(Seq::empty())) =~= collection_keys(
        pre.collection,
    ));
}

proof fn lemma_reconcile_wantlist_nil(pre: StoreModel)
    ensures
        reconcile_wantlist_post(pre, pre, Seq::empty()),
{
    assert(release_ids(pre.releases).union(want_item_ids(Seq::empty())) =~= release_ids(
        pre.releases,
    ));
    assert(want_ids(pre.wants).union(want_item_ids(Seq::empty())) =~= want_ids(pre.wants));
}

proof fn lemma_reconcile_collection_step(
    pre: StoreModel,
    mid: StoreModel,
    p1: StoreModel,
    p2: StoreModel,
    s: Seq<DiscogsCollectionItem>,
    item: DiscogsCollectionItem,
    rv: ReleaseInfo,
)
    requires
        reconcile_collection_post(pre, mid, s),
        p1.history == mid.history,
        p1.collection == mid.collection,
        p1.wants == mid.wants,
        spec_get_release(p1.releases, item.basic_information.id) == Some(rv),
        release_matches_collection_item(rv, item),
        forall|rid: u32|
            rid != item.basic_information.id ==> #[trigger] spec_get_release(p1.releases, rid)
                == spec_get_release(mid.releases, rid),
        release_ids(p1.releases) == release_ids(mid.releases).insert(item.basic_information.id),
        p2.releases == p1.releases,
        p2.history == p1.history,
        p2.wants == p1.wants,
        collection_keys(p2.collection) == collection_keys(p1.collection).insert(item_key(item)),
        collection_keys(p1.collection).contains(item_key(item)) ==> p2.collection == p1.collection,
    ensures
        reconcile_collection_post(pre, p2, s.push(item)),
{
    let t = s.push(item);
    let id = item.basic_information.id;
    assert(t.drop_last() =~= s);
    assert(t.last() == item);
    assert(item_ids(t) == item_ids(s).insert(id));
    assert(item_keys(t) == item_keys(s).insert(item_key(item)));
    assert(release_ids(p2.releases) =~= release_ids(pre.releases).union(item_ids(t)));
    assert(collection_keys(p2.collection) =~= collection_keys(pre.collection).union(item_keys(t)));
    assert forall|rid: u32| !item_ids(t).contains(rid) implies #[trigger] spec_get_release(
        p2.releases,
        rid,
    ) == spec_get_release(pre.releases, rid) by {
        assert(!item_ids(s).contains(rid));
        assert(rid != id);
    }
    assert forall|k: int| 0 <= k < t.len() implies has_release(
        p2.releases,
        (#[trigger] t[k]).basic_information.id,
    ) by {
        if k < s.len() {
            assert(t[k] == s[k]);
            assert(has_release(mid.releases, s[k].basic_information.id));
            if s[k].basic_information.id != id {
                assert(spec_get_release(p1.releases, s[k].basic_information.id)
                    == spec_get_release(mid.releases, s[k].basic_information.id));
            }
        }
    }
    if item_keys(t).subset_of(collection_keys(pre.collection)) {
        assert(item_keys(s).subset_of(collection_keys(pre.collection)));
        assert(mid.collection == pre.collection);
        assert(collection_keys(pre.collection).contains(item_key(item)));
        assert(p2.collection == p1.collection);
    }
    assert forall|k: int|
        0 <= k < t.len() && (forall|l: int|
            k < l < t.len() ==> (#[trigger] t[l]).basic_information.id
                != t[k].basic_information.id) implies ((#[trigger] spec_get_release(
        p2.releases,
        t[k].basic_information.id,
    )) matches Some(r) && release_matches_collection_item(r, t[k])) by {
        if k == s.len() {
            assert(t[k] == item);
        } else {
            assert(t[k] == s[k]);
            assert(t[s.len() as int] == item);
            assert(s[k].basic_information.id != id);
            assert forall|l: int| k < l < s.len() implies (#[trigger] s[l]).basic_information.id
                != s[k].basic_information.id by {
                assert(t[l] == s[l]);
            }
            assert(spec_get_release(mid.releases, s[k].basic_information.id) matches Some(r)
                && release_matches_collection_item(r, s[k]));
            assert(spec_get_release(p1.releases, s[k].basic_information.id) == spec_get_release(
                mid.releases,
                s[k].basic_information.id,
            ));
        }
    }
}

proof fn lemma_reconcile_wantlist_step(
    pre: StoreModel,
    mid: StoreModel,
    p1: StoreModel,
    p2: StoreModel,
    s: Seq<DiscogsWantlistItem>,
    item: DiscogsWantlistItem,
    rv: ReleaseInfo,
)
    requires
        reconcile_wantlist_post(pre, mid, s),
        p1.history == mid.history,
        p1.collection == mid.collection,
        p1.wants == mid.wants,
        spec_get_release(p1.releases, item.basic_information.id) == Some(rv),
        release_matches_wantlist_item(rv, item),
        forall|rid: u32|
            rid != item.basic_information.id ==> #[trigger] spec_get_release(p1.releases, rid)
                == spec_get_release(mid.releases, rid),
        release_ids(p1.releases) == release_ids(mid.releases).insert(item.basic_information.id),
        p2.releases == p1.releases,
        p2.history == p1.history,
        p2.collection == p1.collection,
        want_ids(p2.wants) == want_ids(p1.wants).insert(item.basic_information.id),
        spec_get_want(p2.wants, item.basic_information.id) matches Some(w) && w.rating
            == item.rating && (w.notes matches Some(ns) && ns@ == item.notes@),
        forall|rid: u32|
            rid != item.basic_information.id ==> #[trigger] spec_get_want(p2.wants, rid)
                == spec_get_want(p1.wants, rid),
        p2.wants.len() == p1.wants.len() + (
        if want_ids(p1.wants).contains(item.basic_information.id) {
            0int
        } else {
            1int
        }),
    ensures
        reconcile_wantlist_post(pre, p2, s.push(item)),
{
    let t = s.push(item);
    let id = item.basic_information.id;
    assert(t.drop_last() =~= s);
    assert(t.last() == item);
    assert(want_item_ids(t) == want_item_ids(s).insert(id));
    assert(release_ids(p2.releases) =~= release_ids(pre.releases).union(want_item_ids(t)));
    assert(want_ids(p2.wants) =~= want_ids(pre.wants).union(want_item_ids(t)));
    assert forall|rid: u32| !want_item_ids(t).contains(rid) implies #[trigger] spec_get_release(
        p2.releases,
        rid,
    ) == spec_get_release(pre.releases, rid) by {
        assert(!want_item_ids(s).contains(rid));
        assert(rid != id);
    }
    assert forall|rid: u32| !want_item_ids(t).contains(rid) implies #[trigger] spec_get_want(
        p2.wants,
        rid,
    ) == spec_get_want(pre.wants, rid) by {
        assert(!want_item_ids(s).contains(rid));
        assert(rid != id);
    }
    assert forall|k: int| 0 <= k < t.len() implies has_release(
        p2.releases,
        (#[trigger] t[k]).basic_information.id,
    ) by {
        if k < s.len() {
            assert(t[k] == s[k]);
            assert(has_release(mid.releases, s[k].basic_information.id));
            if s[k].basic_information.id != id {
                assert(spec_get_release(p1.releases, s[k].basic_information.id)
                    == spec_get_release(mid.releases, s[k].basic_information.id));
            }
        }
    }
    if want_item_ids(t).subset_of(want_ids(pre.wants)) {
        assert(want_item_ids(s).subset_of(want_ids(pre.wants)));
        assert(mid.wants.len() == pre.wants.len());
        assert(want_ids(pre.wants).contains(id));
        assert(want_ids(mid.wants) =~= want_ids(pre.wants).union(want_item_ids(s)));
        assert(want_ids(pre.wants).union(want_item_ids(s)) =~= want_ids(pre.wants));
        assert(want_ids(p1.wants).contains(id));
        assert(p2.wants.len() == p1.wants.len());
    }
    assert forall|k: int|
        0 <= k < t.len() && (forall|l: int|
            k < l < t.len() ==> (#[trigger] t[l]).basic_information.id
                != t[k].basic_information.id) implies ((#[trigger] spec_get_release(
        p2.releases,
        t[k].basic_information.id,
    )) matches Some(r) && release_matches_wantlist_item(r, t[k])) by {
        if k == s.len() {
            assert(t[k] == item);
        } else {
            assert(t[k] == s[k]);
            assert(t[s.len() as int] == item);
            assert(s[k].basic_information.id != id);
            assert forall|l: int| k < l < s.len() implies (#[trigger] s[l]).basic_information.id
                != s[k].basic_information.id by {
                assert(t[l] == s[l]);
            }
            assert(spec_get_release(mid.releases, s[k].basic_information.id) matches Some(r)
                && release_matches_wantlist_item(r, s[k]));
            assert(spec_get_release(p1.releases, s[k].basic_information.id) == spec_get_release(
                mid.releases,
                s[k].basic_information.id,
            ));
        }
    }
    assert forall|k: int|
        0 <= k < t.len() && (forall|l: int|
            k < l < t.len() ==> (#[trigger] t[l]).basic_information.id
                != t[k].basic_information.id) implies ((#[trigger] spec_get_want(
        p2.wants,
        t[k].basic_information.id,
    )) matches Some(w) && w.rating == t[k].rating && (w.notes matches Some(ns) && ns@
        == t[k].notes@)) by {
        if k == s.len() {
            assert(t[k] == item);
        } else {
            assert(t[k] == s[k]);
            assert(t[s.len() as int] == item);
            assert(s[k].basic_information.id != id);
            assert forall|l: int| k < l < s.len() implies (#[trigger] s[l]).basic_information.id
                != s[k].basic_information.id by {
                assert(t[l] == s[l]);
            }
            assert(spec_get_want(mid.wants, s[k].basic_information.id) matches Some(w) && w.rating
                == s[k].rating && (w.notes matches Some(ns) && ns@ == s[k].notes@));
            assert(spec_get_want(p2.wants, s[k].basic_information.id) == spec_get_want(
                p1.wants,
                s[k].basic_information.id,
            ));
        }
    }
}

/// Reconciling: upserts every fetched collection item's release and records
/// its membership. Idempotent at the table level: nothing is duplicated.
#[verifier::loop_isolation(false)]
pub fn reconcile_collection(db: &mut PriceDatabase, items: &Vec<DiscogsCollectionItem>)
    requires
        old(db).wf(),
    ensures
        final(db).wf(),
        reconcile_collection_post(old(db)@, final(db)@, items@),
{
    let ghost pre = db@;
    proof {
        lemma_reconcile_collection_nil(pre);
        assert(items@.take(0) =~= Seq::<DiscogsCollectionItem>::empty());
    }
    let n = items.len();
    let mut i: usize = 0;
    while i < n
        invariant
            0 <= i <= n,
            db.wf(),
            pre == old(db)@,
            reconcile_collection_post(pre, db@, items@.take(i as int)),
        decreases n - i,
    {
        let item = &items[i];
        let rel = ReleaseInfo::from_collection_item(item);
        let ghost mid = db@;
        db.add_or_update_release(&rel);
        let ghost p1 = db@;
        let res = db.add_collection_item(rel.id, item.folder_id, Some(item.instance_id));
        proof {
            assert(res is Ok);
            lemma_reconcile_collection_step(
                pre,
                mid,
                p1,
                db@,
                items@.take(i as int),
                items@[i as int],
                rel,
            );
            assert(items@.take(i + 1) =~= items@.take(i as int).push(items@[i as int]));
        }
        i += 1;
    }
    proof {
        assert(items@.take(n as int) =~= items@);
    }
}

/// Reconciling the wantlist: upserts every item's release and its wantlist
/// entry (latest wins).
#[verifier::loop_isolation(false)]
pub fn reconcile_wantlist(db: &mut PriceDatabase, items: &Vec<DiscogsWantlistItem>)
    requires
        old(db).wf(),
    ensures
        final(db).wf(),
        reconcile_wantlist_post(old(db)@, final(db)@, items@),
{
    let ghost pre = db@;
    proof {
        lemma_reconcile_wantlist_nil(pre);
        assert(items@.take(0) =~= Seq::<DiscogsWantlistItem>::empty());
    }
    let n = items.len();
    let mut i: usize = 0;
    while i < n
        invariant
            0 <= i <= n,
            db.wf(),
            pre == old(db)@,
            reconcile_wantlist_post(pre, db@, items@.take(i as int)),
        decreases n - i,
    {
        let item = &items[i];
        let rel = ReleaseInfo::from_wantlist_item(item);
        let ghost mid = db@;
        db.add_or_update_release(&rel);
        let ghost p1 = db@;
        let res = db.add_want_item(rel.id, Some(item.rating), Some(item.notes.as_str()));
        proof {
            assert(res is Ok);
            lemma_reconcile_wantlist_step(
                pre,
                mid,
                p1,
                db@,
                items@.take(i as int),
                items@[i as int],
                rel,
            );
            assert(items@.take(i + 1) =~= items@.take(i as int).push(items@[i as int]));
        }
        i += 1;
    }
    proof {
        assert(items@.take(n as int) =~= items@);
    }
}

/// Law: re-running reconciliation with identical remote data leaves the
/// collection table — and with it `get_collection_count` — exactly where the
/// first run left it.
pub proof fn lemma_reconcile_collection_idempotent(
    pre: StoreModel,
    s1: StoreModel,
    s2: StoreModel,
    items: Seq<DiscogsCollectionItem>,
)
    requires
        reconcile_collection_post(pre, s1, items),
        reconcile_collection_post(s1, s2, items),
    ensures
        s2.collection == s1.collection,
        s2.wants == s1.wants,
{
    assert(item_keys(items).subset_of(collection_keys(s1.collection)));
}

/// Law: re-running wantlist reconciliation with identical remote data leaves
/// the wantlist count — `get_wants_count` — unchanged.
pub proof fn lemma_reconcile_wantlist_idempotent(
    pre: StoreModel,
    s1: StoreModel,
    s2: StoreModel,
    items: Seq<DiscogsWantlistItem>,
)
    requires
        reconcile_wantlist_post(pre, s1, items),
        reconcile_wantlist_post(s1, s2, items),
    ensures
        s2.wants.len() == s1.wants.len(),
        s2.collection == s1.collection,
{
    assert(want_item_ids(items).subset_of(want_ids(s1.wants)));
}

/// Whether a release is due for a marketplace lookup: always under force,
/// otherwise when it has no observation yet or its latest one has aged past
/// the staleness threshold.
pub open spec fn spec_should_price(
    h: Seq<PriceRecord>,
    rid: u32,
    now: u64,
    staleness_secs: u64,
    force: bool,
) -> bool {
    ||| force
    ||| history_of(h, rid).len() == 0
    ||| history_of(h, rid).last().timestamp + staleness_secs <= now
}

/// The pricing plan: the touched releases in first-appearance order, each at
/// most once, keeping exactly those due for a lookup.
pub open spec fn spec_pricing_plan(
    touched: Seq<u32>,
    h: Seq<PriceRecord>,
    now: u64,
    staleness_secs: u64,
    force: bool,
) -> Seq<u32>
    decreases touched.len(),
{
    if touched.len() == 0 {
        Seq::empty()
    } else {
        let p = spec_pricing_plan(touched.drop_last(), h, now, staleness_secs, force);
        let rid = touched.last();
        if !touched.drop_last().contains(rid) && spec_should_price(h, rid, now, staleness_secs, force) {
            p.push(rid)
        } else {
            p
        }
    }
}

impl PriceDatabase {
    fn should_price(&self, rid: u32, now: u64, staleness_secs: u64, force: bool) -> (r: bool)
        ensures
            r == spec_should_price(self@.history, rid, now, staleness_secs, force),
    {
        if force {
            return true;
        }
        match self.get_latest_price(rid) {
            None => true,
            Some(rec) => rec.timestamp <= now && now - rec.timestamp >= staleness_secs,
        }
    }
}

/// Plans one run's pricing: deduplicates the touched releases (a release both
/// owned and wanted is priced once) and keeps those due for a lookup, in
/// first-appearance order.
#[verifier::loop_isolation(false)]
pub fn plan_pricing(
    db: &PriceDatabase,
    touched: &Vec<u32>,
    now: u64,
    staleness_secs: u64,
    force: bool,
) -> (r: Vec<u32>)
    ensures
        r@ == spec_pricing_plan(touched@, db@.history, now, staleness_secs, force),
{
    let ghost ts = touched@;
    let n = touched.len();
    let mut out: Vec<u32> = Vec::new();
    let mut i: usize = 0;
    proof {
        assert(ts.take(0) =~= Seq::<u32>::empty());
    }
    while i < n
        invariant
            0 <= i <= n,
            out@ == spec_pricing_plan(ts.take(i as int), db@.history, now, staleness_secs, force),
        decreases n - i,
    {
        let rid = touched[i];
        let mut seen = false;
        let mut j: usize = 0;
        while j < i
            invariant
                0 <= j <= i <= n,
                seen == ts.take(i as int).subrange(0, j as int).contains(rid),
            decreases i - j,
        {
            proof {
                let p0 = ts.take(i as int).subrange(0, j as int);
                let p1 = ts.take(i as int).subrange(0, j + 1);
                assert(p1 =~= p0.push(ts[j as int]));
                if p1.contains(rid) && ts[j as int] != rid {
                    let w = choose|w: int| 0 <= w < p1.len() && p1[w] == rid;
                    assert(p0[w] == rid);
                    assert(p0.contains(rid));
                }
                if p0.contains(rid) {
                    let w = choose|w: int| 0 <= w < p0.len() && p0[w] == rid;
                    assert(p1[w] == rid);
                    assert(p1.contains(rid));
                }
                if ts[j as int] == rid {
                    assert(p1[j as int] == rid);
                    assert(p1.contains(rid));
                }
            }
            if touched[j] == rid {
                seen = true;
            }
            j += 1;
        }
        proof {
            assert(ts.take(i as int).subrange(0, i as int) =~= ts.take(i as int));
            assert(ts.take(i + 1).drop_last() =~= ts.take(i as int));
            assert(ts.take(i + 1).last() == ts[i as int]);
        }
        if !seen {
            if db.should_price(rid, now, staleness_secs, force) {
                out.push(rid);
            }
        }
        i += 1;
    }
    proof {
        assert(ts.take(n as int) =~= ts);
    }
    out
}

/// Splits a plan into pricing waves: the batch starting at `start`, at most
/// `batch_size` releases.
pub fn next_batch(ids: &Vec<u32>, start: usize, batch_size: usize) -> (r: Vec<u32>)
    requires
        start <= ids@.len(),
    ensures
        r@ == ids@.subrange(
            start as int,
            if start + batch_size <= ids@.len() {
                (start + batch_size) as int
            } else {
                ids@.len() as int
            },
        ),
{
    let end = if batch_size <= ids.len() - start {
        start + batch_size
    } else {
        ids.len()
    };
    let mut out: Vec<u32> = Vec::new();
    let mut i: usize = start;
    while i < end
        invariant
            start <= i <= end <= ids@.len(),
            out@ == ids@.subrange(start as int, i as int),
        decreases end - i,
    {
        proof {
            assert(ids@.subrange(start as int, i + 1) =~= ids@.subrange(start as int, i as int).push(
                ids@[i as int],
            ));
        }
        out.push(ids[i]);
        i += 1;
    }
    out
}

/// What one release's marketplace lookup produced: a price, an explicit "no
/// price available", or a failure (captured, never fatal to the run).
pub enum PricingOutcome {
    Priced(MarketplacePrice),
    NoPrice,
    Failed(ApiError),
}

/// The counts a finished run reports.
pub struct SyncReport {
    pub releases_seen: usize,
    pub appended: usize,
    pub no_price: usize,
    pub skipped: usize,
    pub failures: Vec<PricingFailure>,
}

/// The observation a successful lookup is recorded as.
pub open spec fn observation_of(release_id: u32, mp: MarketplacePrice, now: u64) -> PriceRecord {
    PriceRecord {
        id: None,
        release_id,
        price_cents: mp.price_cents,
        currency: mp.currency,
        condition: mp.condition,
        timestamp: now,
        listing_count: mp.listing_count,
        wants_count: Some(mp.wants_count),
    }
}

/// The history after recording a batch of outcomes: one observation per
/// priced release, in outcome order; empty and failed lookups add nothing.
pub open spec fn spec_apply_outcomes(
    h: Seq<PriceRecord>,
    outs: Seq<(u32, PricingOutcome)>,
    now: u64,
) -> Seq<PriceRecord>
    decreases outs.len(),
{
    if outs.len() == 0 {
        h
    } else {
        let h1 = spec_apply_outcomes(h, outs.drop_last(), now);
        match outs.last().1 {
            PricingOutcome::Priced(mp) => h1.insert(
                insert_pos(h1, now),
                observation_of(outs.last().0, mp, now),
            ),
            _ => h1,
        }
    }
}

pub open spec fn count_priced(outs: Seq<(u32, PricingOutcome)>) -> int
    decreases outs.len(),
{
    if outs.len() == 0 {
        0
    } else {
        count_priced(outs.drop_last()) + (match outs.last().1 {
            PricingOutcome::Priced(_) => 1int,
            _ => 0int,
        })
    }
}

pub open spec fn count_no_price(outs: Seq<(u32, PricingOutcome)>) -> int
    decreases outs.len(),
{
    if outs.len() == 0 {
        0
    } else {
        count_no_price(outs.drop_last()) + (match outs.last().1 {
            PricingOutcome::NoPrice => 1int,
            _ => 0int,
        })
    }
}

/// The failures a batch of outcomes reports, in outcome order.
pub open spec fn spec_failures(outs: Seq<(u32, PricingOutcome)>) -> Seq<PricingFailure>
    decreases outs.len(),
{
    if outs.len() == 0 {
        Seq::empty()
    } else {
        let f = spec_failures(outs.drop_last());
        match outs.last().1 {
            PricingOutcome::Failed(e) => f.push(
                PricingFailure { release_id: outs.last().0, error: e },
            ),
            _ => f,
        }
    }
}

/// Records one pricing wave's outcomes: appends an observation per priced
/// release, counts empty results, and aggregates failures into the report;
/// one release's failure never affects another's outcome. Every outcome must
/// name a release the run reconciled into the store.
#[verifier::loop_isolation(false)]
pub fn apply_pricing_outcomes(
    db: &mut PriceDatabase,
    outcomes: &Vec<(u32, PricingOutcome)>,
    now: u64,
    releases_seen: usize,
    skipped: usize,
) -> (r: SyncReport)
    requires
        old(db).wf(),
        forall|k: int|
            0 <= k < outcomes@.len() ==> has_release(
                old(db)@.releases,
                (#[trigger] outcomes@[k]).0,
            ),
    ensures
        final(db).wf(),
        final(db)@.releases == old(db)@.releases,
        final(db)@.collection == old(db)@.collection,
        final(db)@.wants == old(db)@.wants,
        final(db)@.history == spec_apply_outcomes(old(db)@.history, outcomes@, now),
        r.releases_seen == releases_seen,
        r.skipped == skipped,
        r.appended == count_priced(outcomes@),
        r.no_price == count_no_price(outcomes@),
        r.failures@ == spec_failures(outcomes@),
{
    let ghost pre = db@;
    let ghost outs = outcomes@;
    let n = outcomes.len();
    let mut appended: usize = 0;
    let mut no_price: usize = 0;
    let mut failures: Vec<PricingFailure> = Vec::new();
    let mut i: usize = 0;
    proof {
        assert(outs.take(0) =~= Seq::<(u32, PricingOutcome)>::empty());
    }
    while i < n
        invariant
            0 <= i <= n,
            db.wf(),
            pre == old(db)@,
            db@.releases == pre.releases,
            db@.collection == pre.collection,
            db@.wants == pre.wants,
            db@.history == spec_apply_outcomes(pre.history, outs.take(i as int), now),
            appended == count_priced(outs.take(i as int)),
            no_price == count_no_price(outs.take(i as int)),
            failures@ == spec_failures(outs.take(i as int)),
            appended <= i,
            no_price <= i,
        decreases n - i,
    {
        proof {
            assert(outs.take(i + 1).drop_last() =~= outs.take(i as int));
            assert(outs.take(i + 1).last() == outs[i as int]);
        }
        let (rid, outcome) = &outcomes[i];
        match outcome {
            PricingOutcome::Priced(mp) => {
                let record = PriceRecord {
                    id: None,
                    release_id: *rid,
                    price_cents: mp.price_cents,
                    currency: mp.currency.clone(),
                    condition: mp.condition.clone(),
                    timestamp: now,
                    listing_count: mp.listing_count,
                    wants_count: Some(mp.wants_count),
                };
                proof {
                    assert(record == observation_of(outs[i as int].0, outs[i as int].1->Priced_0, now));
                }
                let res = db.add_price_record(&record);
                proof {
                    assert(res is Ok);
                }
                appended += 1;
            },
            PricingOutcome::NoPrice => {
                no_price += 1;
            },
            PricingOutcome::Failed(e) => {
                failures.push(PricingFailure { release_id: *rid, error: e.clone() });
            },
        }
        i += 1;
    }
    proof {
        assert(outs.take(n as int) =~= outs);
    }
    SyncReport { releases_seen, appended, no_price, skipped, failures }
}

} // verus!
