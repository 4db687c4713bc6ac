//! Collection valuation: the sum of each owned release's latest known price.
//! A release without any observation contributes zero and is flagged
//! unpriced, never silently dropped; optional groupings break the sum down
//! by format and list the highest-priced releases.

use vstd::prelude::*;

verus! {

use crate::analytics::{lemma_rank_total, lemma_rank_trans, rank_before, rank_before_exec};
use crate::store::{
    CollectionRow, PriceDatabase, StoreModel, history_of, spec_get_release,
};
use crate::types::ReleaseInfo;

/// One priced owned release: its latest known price.
pub struct ValuedRelease {
    pub release: ReleaseInfo,
    pub price_cents: u64,
}

/// One format's share of the collection's value.
pub struct FormatSubtotal {
    pub format: String,
    pub total_cents: u128,
}

/// The valuation report: the grand total, the priced and unpriced owned
/// releases, and the optional groupings.
pub struct ValueSummary {
    pub total_cents: u128,
    pub priced: Vec<ValuedRelease>,
    pub unpriced: Vec<ReleaseInfo>,
    pub by_format: Option<Vec<FormatSubtotal>>,
    pub top: Option<Vec<ValuedRelease>>,
}

/// Whether some owned copy references the release.
pub open spec fn owned_contains(c: Seq<CollectionRow>, rid: u32) -> bool {
    exists|i: int| 0 <= i < c.len() && (#[trigger] c[i]).release_id == rid
}

/// The owned releases, one entry per distinct id, in first-appearance order.
pub open spec fn owned_ids(c: Seq<CollectionRow>) -> Seq<u32>
    decreases c.len(),
{
    if c.len() == 0 {
        Seq::empty()
    } else {
        let p = owned_ids(c.drop_last());
        if owned_contains(c.drop_last(), c.last().release_id) {
            p
        } else {
            p.push(c.last().release_id)
        }
    }
}

/// What a release contributes to the total: its latest known price, or zero
/// when it has no observation.
pub open spec fn spec_value_of(m: StoreModel, rid: u32) -> int {
    if history_of(m.history, rid).len() == 0 {
        0
    } else {
        history_of(m.history, rid).last().price_cents as int
    }
}

/// The summed latest-known prices of the given releases.
pub open spec fn total_value(m: StoreModel, ids: Seq<u32>) -> int
    decreases ids.len(),
{
    if ids.len() == 0 {
        0
    } else {
        total_value(m, ids.drop_last()) + spec_value_of(m, ids.last())
    }
}

/// The format string a release is filed under.
pub open spec fn release_format(m: StoreModel, rid: u32) -> Seq<char> {
    match spec_get_release(m.releases, rid) {
        Some(r) => r.format@,
        None => Seq::empty(),
    }
}

/// The part of the total contributed by releases of one format.
pub open spec fn format_total(m: StoreModel, ids: Seq<u32>, fmt: Seq<char>) -> int
    decreases ids.len(),
{
    if ids.len() == 0 {
        0
    } else {
        format_total(m, ids.drop_last(), fmt) + (if release_format(m, ids.last()) == fmt {
            spec_value_of(m, ids.last())
        } else {
            0
        })
    }
}

/// A priced entry is exactly what the store says: the release and its latest
/// price. Opaque: proofs over whole reports treat it abstractly.
#[verifier::opaque]
pub open spec fn valued_entry_valid(m: StoreModel, v: ValuedRelease) -> bool {
    &&& spec_get_release(m.releases, v.release.id) == Some(v.release)
    &&& history_of(m.history, v.release.id).len() >= 1
    &&& v.price_cents == history_of(m.history, v.release.id).last().price_cents
}

/// An unpriced entry is an owned release with no observation at all. Opaque:
/// proofs over whole reports treat it abstractly.
#[verifier::opaque]
pub open spec fn unpriced_entry_valid(m: StoreModel, r: ReleaseInfo) -> bool {
    &&& spec_get_release(m.releases, r.id) == Some(r)
    &&& history_of(m.history, r.id).len() == 0
}

/// Value is nonnegative and bounded by one maximal price per release.
proof fn lemma_total_value_bound(m: StoreModel, ids: Seq<u32>)
    ensures
        0 <= total_value(m, ids) <= ids.len() * (u64::MAX as int),
    decreases ids.len(),
{
    if ids.len() > 0 {
        lemma_total_value_bound(m, ids.drop_last());
    }
}

/// Format subtotals are nonnegative and bounded the same way.
proof fn lemma_format_total_bound(m: StoreModel, ids: Seq<u32>, fmt: Seq<char>)
    ensures
        0 <= format_total(m, ids, fmt) <= ids.len() * (u64::MAX as int),
    decreases ids.len(),
{
    if ids.len() > 0 {
        lemma_format_total_bound(m, ids.drop_last(), fmt);
    }
}

/// The distinct owned release ids, in first-appearance order.
#[verifier::loop_isolation(false)]
fn owned_release_ids(db: &PriceDatabase) -> (r: Vec<u32>)
    ensures
        r@ == owned_ids(db@.collection),
{
    let ghost c = db@.collection;
    let n = db.get_collection_count();
    let mut out: Vec<u32> = Vec::new();
    let mut i: usize = 0;
    proof {
        assert(c.take(0) =~= Seq::<CollectionRow>::empty());
    }
    while i < n
        invariant
            0 <= i <= n,
            n == c.len(),
            out@ == owned_ids(c.take(i as int)),
        decreases n - i,
    {
        let rid = db.collection_row_at(i).release_id;
        let mut seen = false;
        let mut j: usize = 0;
        while j < i
            invariant
                0 <= j <= i <= n,
                seen == owned_contains(c.take(j as int), rid),
            decreases i - j,
        {
            proof {
                let p0 = c.take(j as int);
                let p1 = c.take(j + 1);
                assert(p1 =~= p0.push(c[j as int]));
                if owned_contains(p1, rid) && c[j as int].release_id != rid {
                    let w = choose|w: int| 0 <= w < p1.len() && (#[trigger] p1[w]).release_id == rid;
                    assert(p0[w].release_id == rid);
                    assert(owned_contains(p0, rid));
                }
                if owned_contains(p0, rid) {
                    let w = choose|w: int| 0 <= w < p0.len() && (#[trigger] p0[w]).release_id == rid;
                    assert(p1[w].release_id == rid);
                    assert(owned_contains(p1, rid));
                }
                if c[j as int].release_id == rid {
                    assert(p1[j as int].release_id == rid);
                    assert(owned_contains(p1, rid));
                }
            }
            if db.collection_row_at(j).release_id == rid {
                seen = true;
            }
            j += 1;
        }
        proof {
            assert(c.take(i + 1).drop_last() =~= c.take(i as int));
            assert(c.take(i + 1).last() == c[i as int]);
        }
        if !seen {
            out.push(rid);
        }
        i += 1;
    }
    proof {
        assert(c.take(n as int) =~= c);
    }
    out
}

/// No owned release id repeats, and each one is owned.
proof fn lemma_owned_ids_props(c: Seq<CollectionRow>)
    ensures
        forall|k: int, l: int|
            0 <= k < l < owned_ids(c).len() ==> owned_ids(c)[k] != owned_ids(c)[l],
        forall|k: int|
            0 <= k < owned_ids(c).len() ==> owned_contains(c, #[trigger] owned_ids(c)[k]),
        forall|rid: u32|
            owned_contains(c, rid) ==> exists|k: int|
                0 <= k < owned_ids(c).len() && #[trigger] owned_ids(c)[k] == rid,
    decreases c.len(),
{
    if c.len() > 0 {
        let d = c.drop_last();
        lemma_owned_ids_props(d);
        assert forall|k: int| 0 <= k < owned_ids(c).len() implies owned_contains(
            c,
            #[trigger] owned_ids(c)[k],
        ) by {
            if k < owned_ids(d).len() {
                assert(owned_contains(d, owned_ids(d)[k]));
                let w = choose|w: int|
                    0 <= w < d.len() && (#[trigger] d[w]).release_id == owned_ids(d)[k];
                assert(c[w].release_id == owned_ids(d)[k]);
            } else {
                assert(c[c.len() - 1].release_id == c.last().release_id);
            }
        }
        assert forall|rid: u32| owned_contains(c, rid) implies exists|k: int|
            0 <= k < owned_ids(c).len() && #[trigger] owned_ids(c)[k] == rid by {
            let w = choose|w: int| 0 <= w < c.len() && (#[trigger] c[w]).release_id == rid;
            if w < c.len() - 1 {
                assert(d[w].release_id == rid);
                assert(owned_contains(d, rid));
                let k = choose|k: int| 0 <= k < owned_ids(d).len() && #[trigger] owned_ids(d)[k] == rid;
                assert(owned_ids(c)[k] == rid);
            } else {
                if owned_contains(d, rid) {
                    let k = choose|k: int|
                        0 <= k < owned_ids(d).len() && #[trigger] owned_ids(d)[k] == rid;
                    assert(owned_ids(c)[k] == rid);
                } else {
                    assert(owned_ids(c).last() == rid);
                }
            }
        }
        assert forall|k: int, l: int| 0 <= k < l < owned_ids(c).len() implies owned_ids(c)[k]
            != owned_ids(c)[l] by {
            if l == owned_ids(c).len() - 1 && owned_ids(c).len() > owned_ids(d).len() {
                assert(owned_ids(c)[l] == c.last().release_id);
                assert(!owned_contains(d, c.last().release_id));
                assert(owned_contains(d, owned_ids(d)[k]));
            }
        }
    }
}

impl Clone for ValuedRelease {
    fn clone(&self) -> (r: Self)
        ensures
            r == *self,
    {
        ValuedRelease { release: self.release.clone(), price_cents: self.price_cents }
    }
}

/// The top list's order: price descending, ties by release id ascending.
pub open spec fn value_precedes(a: ValuedRelease, b: ValuedRelease) -> bool {
    rank_before(
        a.price_cents as int,
        1,
        a.release.id,
        b.price_cents as int,
        1,
        b.release.id,
    )
}

/// A format nobody's release carries contributes nothing.
proof fn lemma_format_total_zero(m: StoreModel, ids: Seq<u32>, fmt: Seq<char>)
    requires
        forall|j: int| 0 <= j < ids.len() ==> release_format(m, #[trigger] ids[j]) != fmt,
    ensures
        format_total(m, ids, fmt) == 0,
    decreases ids.len(),
{
    if ids.len() > 0 {
        assert(release_format(m, ids[ids.len() - 1]) != fmt);
        assert forall|j: int| 0 <= j < ids.drop_last().len() implies release_format(
            m,
            #[trigger] ids.drop_last()[j],
        ) != fmt by {
            assert(ids.drop_last()[j] == ids[j]);
        }
        lemma_format_total_zero(m, ids.drop_last(), fmt);
    }
}

/// The format groups built so far: distinct formats, each subtotal exact for
/// the ids already tallied, every tallied release's format present.
pub open spec fn formats_state_ok(
    m: StoreModel,
    ids: Seq<u32>,
    upto: int,
    formats: Seq<FormatSubtotal>,
) -> bool {
    &&& (forall|k: int, l: int|
        0 <= k < l < formats.len() ==> (#[trigger] formats[k]).format@ != (
        #[trigger] formats[l]).format@)
    &&& (forall|k: int|
        0 <= k < formats.len() ==> (#[trigger] formats[k]).total_cents as int == format_total(
            m,
            ids.take(upto),
            formats[k].format@,
        ))
    &&& (forall|j: int|
        0 <= j < upto ==> exists|k: int|
            0 <= k < formats.len() && (#[trigger] formats[k]).format@ == #[trigger] release_format(
                m,
                ids[j],
            ))
}

/// Adds one release's contribution to its format's subtotal, opening a new
/// group when the format is new.
#[verifier::loop_isolation(false)]
#[verifier::rlimit(40)]
fn bump_format(
    formats: &mut Vec<FormatSubtotal>,
    fmt: &String,
    v: u64,
    Ghost(m): Ghost<StoreModel>,
    Ghost(ids): Ghost<Seq<u32>>,
    Ghost(i): Ghost<int>,
)
    requires
        0 <= i < ids.len(),
        ids.len() <= usize::MAX,
        fmt@ == release_format(m, ids[i]),
        v as int == spec_value_of(m, ids[i]),
        formats_state_ok(m, ids, i, old(formats)@),
    ensures
        formats_state_ok(m, ids, i + 1, final(formats)@),
        final(formats)@.len() >= old(formats)@.len(),
{
    let ghost f0 = formats@;
    proof {
        assert(ids.take(i + 1).drop_last() =~= ids.take(i));
        assert(ids.take(i + 1).last() == ids[i]);
        lemma_format_total_bound(m, ids.take(i), fmt@);
    }
    let n = formats.len();
    let mut j: usize = 0;
    let mut found = false;
    while !found && j < n
        invariant
            0 <= j <= n,
            n == f0.len(),
            f0 == formats@,
            forall|k: int| 0 <= k < j ==> (#[trigger] f0[k]).format@ != fmt@,
            found ==> j < n && f0[j as int].format@ == fmt@,
        decreases n - j, (if found { 0int } else { 1int }),
    {
        if formats[j].format == *fmt {
            found = true;
        } else {
            j += 1;
        }
    }
    if found {
        let cur = formats[j].total_cents;
        proof {
            assert(f0[j as int].total_cents as int == format_total(m, ids.take(i), fmt@));
            assert(format_total(m, ids.take(i), fmt@) <= ids.take(i).len() * (u64::MAX as int));
            assert(ids.take(i).len() * (u64::MAX as int) + (u64::MAX as int) <= (ids.take(i).len()
                + 1) * (u64::MAX as int)) by (nonlinear_arith);
            assert((ids.take(i).len() + 1) * (u64::MAX as int) <= u128::MAX as int)
                by (nonlinear_arith)
                requires
                    0 <= ids.take(i).len() <= usize::MAX,
            ;
        }
        formats[j].total_cents = cur + (v as u128);
        proof {
            assert forall|k: int|
                0 <= k < formats@.len() implies (#[trigger] formats@[k]).total_cents as int
                == format_total(m, ids.take(i + 1), formats@[k].format@) by {
                if k == j {
                    assert(formats@[k].format@ == fmt@);
                    assert(format_total(m, ids.take(i + 1), fmt@) == format_total(
                        m,
                        ids.take(i),
                        fmt@,
                    ) + v);
                } else {
                    assert(formats@[k] == f0[k]);
                    assert(f0[k].format@ != fmt@);
                    assert(format_total(m, ids.take(i + 1), f0[k].format@) == format_total(
                        m,
                        ids.take(i),
                        f0[k].format@,
                    ));
                }
            }
            assert forall|jj: int| 0 <= jj < i + 1 implies exists|k: int|
                0 <= k < formats@.len() && (#[trigger] formats@[k]).format@
                    == #[trigger] release_format(m, ids[jj]) by {
                if jj < i {
                    let k0 = choose|k0: int|
                        0 <= k0 < f0.len() && (#[trigger] f0[k0]).format@ == release_format(
                            m,
                            ids[jj],
                        );
                    assert(formats@[k0].format@ == f0[k0].format@);
                } else {
                    assert(formats@[j as int].format@ == fmt@);
                }
            }
        }
    } else {
        proof {
            assert forall|jj: int| 0 <= jj < i implies release_format(m, #[trigger] ids.take(i)[jj])
                != fmt@ by {
                if release_format(m, ids.take(i)[jj]) == fmt@ {
                    let k0 = choose|k0: int|
                        0 <= k0 < f0.len() && (#[trigger] f0[k0]).format@ == release_format(
                            m,
                            ids[jj],
                        );
                    assert(f0[k0].format@ == fmt@);
                    assert(false);
                }
            }
            lemma_format_total_zero(m, ids.take(i), fmt@);
        }
        formats.push(FormatSubtotal { format: fmt.clone(), total_cents: v as u128 });
        proof {
            assert(formats@.drop_last() =~= f0);
            assert forall|k: int|
                0 <= k < formats@.len() implies (#[trigger] formats@[k]).total_cents as int
                == format_total(m, ids.take(i + 1), formats@[k].format@) by {
                if k < f0.len() {
                    assert(formats@[k] == f0[k]);
                    if f0[k].format@ == fmt@ {
                        assert(false);
                    }
                    assert(format_total(m, ids.take(i + 1), f0[k].format@) == format_total(
                        m,
                        ids.take(i),
                        f0[k].format@,
                    ));
                } else {
                    assert(formats@[k].format@ == fmt@);
                    assert(format_total(m, ids.take(i + 1), fmt@) == format_total(
                        m,
                        ids.take(i),
                        fmt@,
                    ) + v);
                }
            }
            assert forall|jj: int| 0 <= jj < i + 1 implies exists|k: int|
                0 <= k < formats@.len() && (#[trigger] formats@[k]).format@
                    == #[trigger] release_format(m, ids[jj]) by {
                if jj < i {
                    let k0 = choose|k0: int|
                        0 <= k0 < f0.len() && (#[trigger] f0[k0]).format@ == release_format(
                            m,
                            ids[jj],
                        );
                    assert(formats@[k0].format@ == f0[k0].format@);
                } else {
                    assert(formats@[formats@.len() - 1].format@ == fmt@);
                }
            }
        }
    }
}

/// The valuation built so far over a prefix of the owned releases: priced
/// and unpriced entries valid, complete and duplicate-free, and one of the
/// two lists holding each tallied release.
pub open spec fn value_state_ok(
    m: StoreModel,
    ids: Seq<u32>,
    upto: int,
    priced: Seq<ValuedRelease>,
    unpriced: Seq<ReleaseInfo>,
) -> bool {
    &&& (forall|k: int| 0 <= k < priced.len() ==> valued_entry_valid(m, #[trigger] priced[k]))
    &&& (forall|k: int|
        0 <= k < priced.len() ==> exists|j: int|
            0 <= j < upto && (#[trigger] priced[k]).release.id == ids[j])
    &&& (forall|k: int| 0 <= k < unpriced.len() ==> unpriced_entry_valid(m, #[trigger] unpriced[k]))
    &&& (forall|k: int|
        0 <= k < unpriced.len() ==> exists|j: int|
            0 <= j < upto && (#[trigger] unpriced[k]).id == ids[j])
    &&& (forall|j: int|
        0 <= j < upto && history_of(m.history, #[trigger] ids[j]).len() >= 1 ==> exists|k: int|
            0 <= k < priced.len() && (#[trigger] priced[k]).release.id == ids[j])
    &&& (forall|j: int|
        0 <= j < upto && history_of(m.history, #[trigger] ids[j]).len() == 0 ==> exists|k: int|
            0 <= k < unpriced.len() && (#[trigger] unpriced[k]).id == ids[j])
    &&& priced.len() + unpriced.len() == upto
    &&& (forall|k: int, l: int|
        0 <= k < l < priced.len() ==> (#[trigger] priced[k]).release.id != (
        #[trigger] priced[l]).release.id)
    &&& (forall|k: int, l: int|
        0 <= k < l < unpriced.len() ==> (#[trigger] unpriced[k]).id != (
        #[trigger] unpriced[l]).id)
}

/// Inserts a priced entry into a descending-ranked vector, keeping it
/// ranked.
#[verifier::loop_isolation(false)]
fn insert_ranked_valued(v: &mut Vec<ValuedRelease>, t: ValuedRelease)
    requires
        forall|k: int, l: int|
            0 <= k < l < old(v)@.len() ==> value_precedes(
                #[trigger] old(v)@[k],
                #[trigger] old(v)@[l],
            ),
        forall|k: int| 0 <= k < old(v)@.len() ==> (#[trigger] old(v)@[k]).release.id != t.release.id,
    ensures
        exists|p: int| 0 <= p <= old(v)@.len() && final(v)@ == old(v)@.insert(p, t),
        forall|k: int, l: int|
            0 <= k < l < final(v)@.len() ==> value_precedes(
                #[trigger] final(v)@[k],
                #[trigger] final(v)@[l],
            ),
        final(v)@.len() == old(v)@.len() + 1,
{
    let ghost s = v@;
    let n = v.len();
    let mut i: usize = 0;
    let mut placed = false;
    while !placed && i < n
        invariant
            0 <= i <= n,
            n == s.len(),
            s == v@,
            forall|j: int| 0 <= j < i ==> value_precedes(#[trigger] s[j], t),
            placed ==> i < n && value_precedes(t, s[i as int]),
        decreases n - i, (if placed { 0int } else { 1int }),
    {
        let e = &v[i];
        if rank_before_exec(
            e.price_cents as i128,
            1,
            e.release.id,
            t.price_cents as i128,
            1,
            t.release.id,
        ) {
            i += 1;
        } else {
            proof {
                lemma_rank_total(
                    s[i as int].price_cents as int,
                    1,
                    s[i as int].release.id,
                    t.price_cents as int,
                    1,
                    t.release.id,
                );
            }
            placed = true;
        }
    }
    let ghost p = i as int;
    v.insert(i, t);
    proof {
        s.insert_ensures(p, t);
        assert forall|k: int, l: int| 0 <= k < l < v@.len() implies value_precedes(
            #[trigger] v@[k],
            #[trigger] v@[l],
        ) by {
            if l < p {
                assert(v@[k] == s[k] && v@[l] == s[l]);
            } else if k < p && l == p {
                assert(v@[k] == s[k]);
            } else if k < p && l > p {
                assert(v@[k] == s[k] && v@[l] == s[l - 1]);
            } else if k == p && l > p {
                assert(v@[l] == s[l - 1]);
                assert(value_precedes(t, s[p]));
                if l - 1 > p {
                    lemma_rank_trans(
                        t.price_cents as int,
                        1,
                        t.release.id,
                        s[p].price_cents as int,
                        1,
                        s[p].release.id,
                        s[l - 1].price_cents as int,
                        1,
                        s[l - 1].release.id,
                    );
                }
            } else {
                assert(v@[k] == s[k - 1] && v@[l] == s[l - 1]);
            }
        }
    }
}

/// The `n` highest-priced entries of `priced`: price descending, ties by
/// release id ascending.
#[verifier::loop_isolation(false)]
#[verifier::rlimit(60)]
fn top_valued(priced: &Vec<ValuedRelease>, n: usize) -> (r: Vec<ValuedRelease>)
    requires
        forall|k: int, l: int|
            0 <= k < l < priced@.len() ==> (#[trigger] priced@[k]).release.id != (
            #[trigger] priced@[l]).release.id,
    ensures
        r@.len() == (if n <= priced@.len() {
            n as int
        } else {
            priced@.len() as int
        }),
        forall|k: int, l: int|
            0 <= k < l < r@.len() ==> value_precedes(#[trigger] r@[k], #[trigger] r@[l]),
        forall|k: int, l: int|
            0 <= k < l < r@.len() ==> (#[trigger] r@[k]).release.id != (#[trigger] r@[l]).release.id,
{
    let ghost src = priced@;
    let m = priced.len();
    let mut ranked: Vec<ValuedRelease> = Vec::new();
    let mut i: usize = 0;
    while i < m
        invariant
            0 <= i <= m,
            m == src.len(),
            ranked@.len() == i,
            forall|k: int|
                0 <= k < ranked@.len() ==> exists|q: int|
                    0 <= q < i && (#[trigger] ranked@[k]).release.id == (
                    #[trigger] src[q]).release.id && ranked@[k].price_cents == src[q].price_cents,
            forall|k: int, l: int|
                0 <= k < l < ranked@.len() ==> value_precedes(
                    #[trigger] ranked@[k],
                    #[trigger] ranked@[l],
                ),
            forall|k: int, l: int|
                0 <= k < l < ranked@.len() ==> (#[trigger] ranked@[k]).release.id != (
                #[trigger] ranked@[l]).release.id,
        decreases m - i,
    {
        let t = priced[i].clone();
        let ghost r0 = ranked@;
        proof {
            assert forall|k: int| 0 <= k < ranked@.len() implies (
            #[trigger] ranked@[k]).release.id != t.release.id by {
                let q = choose|q: int|
                    0 <= q < i && (#[trigger] ranked@[k]).release.id == (
                    #[trigger] src[q]).release.id && ranked@[k].price_cents == src[q].price_cents;
                assert(src[q].release.id != src[i as int].release.id);
            }
        }
        insert_ranked_valued(&mut ranked, t);
        proof {
            let p = choose|p: int| 0 <= p <= r0.len() && ranked@ == r0.insert(p, t);
            r0.insert_ensures(p, t);
            assert forall|k: int| 0 <= k < ranked@.len() implies exists|q: int|
                0 <= q < i + 1 && (#[trigger] ranked@[k]).release.id == (
                #[trigger] src[q]).release.id && ranked@[k].price_cents == src[q].price_cents by {
                if k < p {
                    assert(ranked@[k] == r0[k]);
                } else if k > p {
                    assert(ranked@[k] == r0[k - 1]);
                } else {
                    assert(ranked@[k].release.id == src[i as int].release.id);
                    assert(ranked@[k].price_cents == src[i as int].price_cents);
                }
            }
        }
        i += 1;
    }
    let ghost full = ranked@;
    let keep = if n <= m {
        n
    } else {
        m
    };
    ranked.truncate(keep);
    proof {
        assert(ranked@ =~= full.take(keep as int));
        assert forall|k: int, l: int| 0 <= k < l < ranked@.len() implies value_precedes(
            #[trigger] ranked@[k],
            #[trigger] ranked@[l],
        ) by {
            assert(ranked@[k] == full[k] && ranked@[l] == full[l]);
        }
        assert forall|k: int, l: int| 0 <= k < l < ranked@.len() implies (
        #[trigger] ranked@[k]).release.id != (#[trigger] ranked@[l]).release.id by {
            assert(ranked@[k] == full[k] && ranked@[l] == full[l]);
        }
    }
    ranked
}

/// Tallies one owned release: adds its latest price to the total, files it
/// under priced or unpriced, and updates its format's subtotal.
#[verifier::loop_isolation(false)]
#[verifier::rlimit(60)]
fn tally_release(
    db: &PriceDatabase,
    ids: &Vec<u32>,
    i: usize,
    total: &mut u128,
    priced: &mut Vec<ValuedRelease>,
    unpriced: &mut Vec<ReleaseInfo>,
    formats: &mut Vec<FormatSubtotal>,
)
    requires
        db.wf(),
        i < ids@.len(),
        forall|j: int|
            0 <= j < ids@.len() ==> crate::store::has_release(db@.releases, #[trigger] ids@[j]),
        forall|k: int, l: int| 0 <= k < l < ids@.len() ==> ids@[k] != ids@[l],
        *old(total) as int == total_value(db@, ids@.take(i as int)),
        value_state_ok(db@, ids@, i as int, old(priced)@, old(unpriced)@),
        formats_state_ok(db@, ids@, i as int, old(formats)@),
    ensures
        *final(total) as int == total_value(db@, ids@.take(i + 1)),
        value_state_ok(db@, ids@, i + 1, final(priced)@, final(unpriced)@),
        formats_state_ok(db@, ids@, i + 1, final(formats)@),
{
    let ghost m = db@;
    let ghost idseq = ids@;
    let total_ids = ids.len();
    let rid = ids[i];
    proof {
        assert(idseq.take(i + 1).drop_last() =~= idseq.take(i as int));
        assert(idseq.take(i + 1).last() == idseq[i as int]);
        lemma_total_value_bound(m, idseq.take(i as int));
        assert(idseq.take(i as int).len() * (u64::MAX as int) + (u64::MAX as int) <= (idseq.take(
            i as int,
        ).len() + 1) * (u64::MAX as int)) by (nonlinear_arith);
    }
    proof {
        crate::store::lemma_get_release_id(m.releases, rid);
    }
    let rel = match db.get_release(rid) {
        Some(r) => r,
        None => {
            proof {
                assert(false);
            }
            ReleaseInfo {
                id: 0,
                title: String::new(),
                artist: String::new(),
                year: 0,
                format: String::new(),
                thumb_url: String::new(),
                added_date: String::new(),
            }
        },
    };
    let latest = db.get_latest_price(rid);
    let v: u64 = match &latest {
        Some(rec) => rec.price_cents,
        None => 0,
    };
    let ghost priced0 = priced@;
    let ghost unpriced0 = unpriced@;
    match latest {
        Some(rec) => {
            let entry = ValuedRelease { release: rel.clone(), price_cents: rec.price_cents };
            proof {
                assert(valued_entry_valid(m, entry)) by {
                    reveal(valued_entry_valid);
                }
                assert forall|k: int| 0 <= k < priced@.len() implies (
                #[trigger] priced@[k]).release.id != rid by {
                    let j = choose|j: int|
                        0 <= j < i && (#[trigger] priced@[k]).release.id == idseq[j];
                    assert(idseq[j] != idseq[i as int]);
                }
            }
            priced.push(entry);
            *total = *total + (v as u128);
            proof {
                assert(priced@.drop_last() =~= priced0);
                assert(priced@.last().release.id == idseq[i as int]);
            }
        },
        None => {
            proof {
                assert(unpriced_entry_valid(m, rel)) by {
                    reveal(unpriced_entry_valid);
                }
                assert forall|k: int| 0 <= k < unpriced@.len() implies (#[trigger] unpriced@[k]).id
                    != rid by {
                    let j = choose|j: int| 0 <= j < i && (#[trigger] unpriced@[k]).id == idseq[j];
                    assert(idseq[j] != idseq[i as int]);
                }
            }
            unpriced.push(rel.clone());
            proof {
                assert(unpriced@.drop_last() =~= unpriced0);
                assert(unpriced@.last().id == idseq[i as int]);
            }
        },
    }
    proof {
        assert(rel.format@ == release_format(m, idseq[i as int]));
        assert(v as int == spec_value_of(m, idseq[i as int]));
    }
    bump_format(formats, &rel.format, v, Ghost(m), Ghost(idseq), Ghost(i as int));
}

/// The collection's value: the latest-known prices of all owned releases
/// summed; a release with no observation contributes zero and appears in
/// `unpriced`. When `by_format` is set the sum is also grouped by format
/// string; when `top_n` is set the highest-priced releases are listed,
/// ranked by price descending with ties by release id ascending.
#[verifier::loop_isolation(false)]
pub fn collection_value(db: &PriceDatabase, by_format: bool, top_n: Option<usize>) -> (r:
    ValueSummary)
    requires
        db.wf(),
    ensures
        r.total_cents as int == total_value(db@, owned_ids(db@.collection)),
        value_state_ok(
            db@,
            owned_ids(db@.collection),
            owned_ids(db@.collection).len() as int,
            r.priced@,
            r.unpriced@,
        ),
        r.by_format is Some <==> by_format,
        (r.by_format matches Some(f) ==> formats_state_ok(
            db@,
            owned_ids(db@.collection),
            owned_ids(db@.collection).len() as int,
            f@,
        )),
        r.top is Some <==> top_n is Some,
        (match (r.top, top_n) {
            (Some(t), Some(n)) => {
                &&& t@.len() == (if n <= r.priced@.len() {
                    n as int
                } else {
                    r.priced@.len() as int
                })
                &&& (forall|k: int, l: int|
                    0 <= k < l < t@.len() ==> value_precedes(#[trigger] t@[k], #[trigger] t@[l]))
                &&& (forall|k: int, l: int|
                    0 <= k < l < t@.len() ==> (#[trigger] t@[k]).release.id != (
                    #[trigger] t@[l]).release.id)
            },
            (None, None) => true,
            _ => false,
        }),
{
    let ghost m = db@;
    let ghost c = db@.collection;
    let ids = owned_release_ids(db);
    let ghost idseq = ids@;
    proof {
        lemma_owned_ids_props(c);
        assert forall|j: int| 0 <= j < idseq.len() implies crate::store::has_release(
            m.releases,
            #[trigger] idseq[j],
        ) by {
            assert(owned_contains(c, idseq[j]));
            let w = choose|w: int| 0 <= w < c.len() && (#[trigger] c[w]).release_id == idseq[j];
            assert(crate::store::has_release(m.releases, c[w].release_id));
        }
        assert(idseq.take(0) =~= Seq::<u32>::empty());
    }
    let count = ids.len();
    let mut total: u128 = 0;
    let mut priced: Vec<ValuedRelease> = Vec::new();
    let mut unpriced: Vec<ReleaseInfo> = Vec::new();
    let mut formats: Vec<FormatSubtotal> = Vec::new();
    let mut i: usize = 0;
    while i < count
        invariant
            0 <= i <= count,
            count == idseq.len(),
            total as int == total_value(m, idseq.take(i as int)),
            value_state_ok(m, idseq, i as int, priced@, unpriced@),
            formats_state_ok(m, idseq, i as int, formats@),
        decreases count - i,
    {
        tally_release(db, &ids, i, &mut total, &mut priced, &mut unpriced, &mut formats);
        i += 1;
    }
    proof {
        assert(idseq.take(count as int) =~= idseq);
    }
    let top = match top_n {
        Some(n) => Some(top_valued(&priced, n)),
        None => None,
    };
    let by = if by_format {
        Some(formats)
    } else {
        None
    };
    ValueSummary { total_cents: total, priced, unpriced, by_format: by, top }
}

} // verus!
