//! Derived analytics over the stored history: trend classification, demand
//! and sell-candidate scoring, and collection valuation. Results are ranked
//! by exact rational comparison — a score `n / d` is compared by cross
//! multiplication, never rounded — with ties broken by release id ascending
//! for determinism.

use vstd::prelude::*;

verus! {

use vstd::arithmetic::mul::lemma_mul_upper_bound;

use crate::store::{
    PriceDatabase, StoreModel, has_release, history_of, lemma_has_release_index, spec_get_release,
};
use crate::types::{PriceRecord, PriceTrend, ReleaseInfo, TrendDirection};

/// The magnitude bound the ranking comparison works under: every numerator
/// fits in a 64-bit magnitude.
pub const RANK_NUM_BOUND: u64 = u64::MAX;

/// `an / ad > bn / bd`, by cross multiplication (denominators positive).
pub open spec fn frac_gt(an: int, ad: int, bn: int, bd: int) -> bool {
    an * bd > bn * ad
}

/// `an / ad == bn / bd`, by cross multiplication (denominators positive).
pub open spec fn frac_eq(an: int, ad: int, bn: int, bd: int) -> bool {
    an * bd == bn * ad
}

/// The ranking order: strictly greater score first; equal scores fall back to
/// release id ascending. Kept opaque so that the cross products surface only
/// inside the ordering lemmas, never inside quantified proofs over reports.
#[verifier::opaque]
pub open spec fn rank_before(an: int, ad: int, aid: u32, bn: int, bd: int, bid: u32) -> bool {
    frac_gt(an, ad, bn, bd) || (frac_eq(an, ad, bn, bd) && aid < bid)
}

/// The ranking order is total on entries with distinct ids.
pub(crate) proof fn lemma_rank_total(an: int, ad: int, aid: u32, bn: int, bd: int, bid: u32)
    requires
        ad > 0,
        bd > 0,
        aid != bid,
    ensures
        rank_before(an, ad, aid, bn, bd, bid) || rank_before(bn, bd, bid, an, ad, aid),
{
    reveal(rank_before);
}

/// The ranking order is transitive.
pub(crate) proof fn lemma_rank_trans(
    an: int,
    ad: int,
    aid: u32,
    bn: int,
    bd: int,
    bid: u32,
    cn: int,
    cd: int,
    cid: u32,
)
    requires
        ad > 0,
        bd > 0,
        cd > 0,
        rank_before(an, ad, aid, bn, bd, bid),
        rank_before(bn, bd, bid, cn, cd, cid),
    ensures
        rank_before(an, ad, aid, cn, cd, cid),
{
    reveal(rank_before);
    if frac_gt(an, ad, bn, bd) && frac_gt(bn, bd, cn, cd) {
        assert(an * cd > cn * ad) by (nonlinear_arith)
            requires
                an * bd > bn * ad,
                bn * cd > cn * bd,
                ad > 0,
                bd > 0,
                cd > 0,
        ;
    } else if frac_gt(an, ad, bn, bd) && frac_eq(bn, bd, cn, cd) {
        assert(an * cd > cn * ad) by (nonlinear_arith)
            requires
                an * bd > bn * ad,
                bn * cd == cn * bd,
                ad > 0,
                bd > 0,
                cd > 0,
        ;
    } else if frac_eq(an, ad, bn, bd) && frac_gt(bn, bd, cn, cd) {
        assert(an * cd > cn * ad) by (nonlinear_arith)
            requires
                an * bd == bn * ad,
                bn * cd > cn * bd,
                ad > 0,
                bd > 0,
                cd > 0,
        ;
    } else {
        assert(an * cd == cn * ad) by (nonlinear_arith)
            requires
                an * bd == bn * ad,
                bn * cd == cn * bd,
                ad > 0,
                bd > 0,
                cd > 0,
        ;
    }
}

/// Decides the ranking order executably, without overflow, for numerators of
/// 64-bit magnitude and positive 64-bit denominators.
pub(crate) fn rank_before_exec(an: i128, ad: u64, aid: u32, bn: i128, bd: u64, bid: u32) -> (r: bool)
    requires
        ad >= 1,
        bd >= 1,
        -(RANK_NUM_BOUND as i128) <= an <= RANK_NUM_BOUND as i128,
        -(RANK_NUM_BOUND as i128) <= bn <= RANK_NUM_BOUND as i128,
    ensures
        r == rank_before(an as int, ad as int, aid, bn as int, bd as int, bid),
{
    proof {
        reveal(rank_before);
    }
    if an >= 0 && bn < 0 {
        proof {
            assert(an * bd >= 0) by (nonlinear_arith)
                requires
                    an >= 0,
                    bd >= 1,
            ;
            assert(bn * ad < 0) by (nonlinear_arith)
                requires
                    bn < 0,
                    ad >= 1,
            ;
        }
        true
    } else if an < 0 && bn >= 0 {
        proof {
            assert(an * bd < 0) by (nonlinear_arith)
                requires
                    an < 0,
                    bd >= 1,
            ;
            assert(bn * ad >= 0) by (nonlinear_arith)
                requires
                    bn >= 0,
                    ad >= 1,
            ;
        }
        false
    } else if an >= 0 {
        proof {
            lemma_mul_upper_bound(an as int, RANK_NUM_BOUND as int, bd as int, RANK_NUM_BOUND as int);
            lemma_mul_upper_bound(bn as int, RANK_NUM_BOUND as int, ad as int, RANK_NUM_BOUND as int);
            assert(an * bd >= 0) by (nonlinear_arith)
                requires
                    an >= 0,
                    bd >= 1,
            ;
            assert(bn * ad >= 0) by (nonlinear_arith)
                requires
                    bn >= 0,
                    ad >= 1,
            ;
        }
        let x: u128 = (an as u128) * (bd as u128);
        let y: u128 = (bn as u128) * (ad as u128);
        if x > y {
            true
        } else if x < y {
            false
        } else {
            aid < bid
        }
    } else {
        let ma: u128 = (-an) as u128;
        let mb: u128 = (-bn) as u128;
        proof {
            lemma_mul_upper_bound(ma as int, RANK_NUM_BOUND as int, bd as int, RANK_NUM_BOUND as int);
            lemma_mul_upper_bound(mb as int, RANK_NUM_BOUND as int, ad as int, RANK_NUM_BOUND as int);
            assert(an * bd == -((ma as int) * (bd as int))) by (nonlinear_arith)
                requires
                    ma == -an,
            ;
            assert(bn * ad == -((mb as int) * (ad as int))) by (nonlinear_arith)
                requires
                    mb == -bn,
            ;
        }
        let x: u128 = ma * (bd as u128);
        let y: u128 = mb * (ad as u128);
        if x < y {
            true
        } else if x > y {
            false
        } else {
            aid < bid
        }
    }
}

/// The trend's score is its exact percentage change `price_change * 100 /
/// previous_price`; scaling by the shared factor 100 leaves the cross
///-multiplied comparison unchanged, so the change/previous pair ranks it.
pub open spec fn trend_precedes(a: PriceTrend, b: PriceTrend) -> bool {
    rank_before(
        a.price_change as int,
        a.previous_price as int,
        a.release.id,
        b.price_change as int,
        b.previous_price as int,
        b.release.id,
    )
}

/// Bounds under which a trend entry can be compared executably.
pub open spec fn trend_rank_ok(t: PriceTrend) -> bool {
    &&& t.previous_price >= 1
    &&& -(RANK_NUM_BOUND as int) <= t.price_change <= RANK_NUM_BOUND as int
}

/// Inserts a trend into a descending-ranked vector, keeping it ranked.
#[verifier::loop_isolation(false)]
fn insert_ranked_trend(v: &mut Vec<PriceTrend>, t: PriceTrend)
    requires
        forall|k: int, l: int|
            0 <= k < l < old(v)@.len() ==> trend_precedes(
                #[trigger] old(v)@[k],
                #[trigger] old(v)@[l],
            ),
        forall|k: int| 0 <= k < old(v)@.len() ==> trend_rank_ok(#[trigger] old(v)@[k]),
        trend_rank_ok(t),
        forall|k: int| 0 <= k < old(v)@.len() ==> (#[trigger] old(v)@[k]).release.id != t.release.id,
    ensures
        exists|p: int| 0 <= p <= old(v)@.len() && final(v)@ == old(v)@.insert(p, t),
        forall|k: int, l: int|
            0 <= k < l < final(v)@.len() ==> trend_precedes(
                #[trigger] final(v)@[k],
                #[trigger] final(v)@[l],
            ),
        final(v)@.len() == old(v)@.len() + 1,
{
    let ghost s = v@;
    let n = v.len();
    let mut i: usize = 0;
    let mut placed = false;
    while !placed && i < n
        invariant
            0 <= i <= n,
            n == s.len(),
            s == v@,
            forall|j: int| 0 <= j < i ==> trend_precedes(#[trigger] s[j], t),
            placed ==> i < n && trend_precedes(t, s[i as int]),
        decreases n - i, (if placed { 0int } else { 1int }),
    {
        let e = &v[i];
        if rank_before_exec(
            e.price_change,
            e.previous_price,
            e.release.id,
            t.price_change,
            t.previous_price,
            t.release.id,
        ) {
            i += 1;
        } else {
            proof {
                lemma_rank_total(
                    s[i as int].price_change as int,
                    s[i as int].previous_price as int,
                    s[i as int].release.id,
                    t.price_change as int,
                    t.previous_price as int,
                    t.release.id,
                );
                assert(trend_precedes(t, s[i as int]));
            }
            placed = true;
        }
    }
    let ghost p = i as int;
    v.insert(i, t);
    proof {
        s.insert_ensures(p, t);
        assert(v@ == s.insert(p, t));
        assert forall|k: int, l: int| 0 <= k < l < v@.len() implies trend_precedes(
            #[trigger] v@[k],
            #[trigger] v@[l],
        ) by {
            if l < p {
                assert(v@[k] == s[k] && v@[l] == s[l]);
            } else if k < p && l == p {
                assert(v@[k] == s[k]);
            } else if k < p && l > p {
                assert(v@[k] == s[k] && v@[l] == s[l - 1]);
            } else if k == p && l > p {
                assert(v@[l] == s[l - 1]);
                assert(trend_precedes(t, s[p]));
                if l - 1 > p {
                    lemma_rank_trans(
                        t.price_change as int,
                        t.previous_price as int,
                        t.release.id,
                        s[p].price_change as int,
                        s[p].previous_price as int,
                        s[p].release.id,
                        s[l - 1].price_change as int,
                        s[l - 1].previous_price as int,
                        s[l - 1].release.id,
                    );
                }
            } else {
                assert(v@[k] == s[k - 1] && v@[l] == s[l - 1]);
            }
        }
    }
}

/// Whether `|latest - previous| / previous * 100`, the percentage change,
/// reaches a threshold given in hundredths of a percent — compared exactly:
/// `|change| * 10000 >= threshold * previous`. Opaque so the product stays
/// out of quantified proofs.
#[verifier::opaque]
pub open spec fn passes_threshold(latest: u64, prev: u64, min_hundredths: u32) -> bool {
    (if latest >= prev {
        latest - prev
    } else {
        prev - latest
    }) * 10000 >= min_hundredths * prev
}

fn passes_threshold_exec(latest: u64, prev: u64, min_hundredths: u32) -> (r: bool)
    ensures
        r == passes_threshold(latest, prev, min_hundredths),
{
    proof {
        reveal(passes_threshold);
    }
    let diff: u64 = if latest >= prev {
        latest - prev
    } else {
        prev - latest
    };
    proof {
        assert((diff as int) * 10000 <= (u64::MAX as int) * 10000) by (nonlinear_arith)
            requires
                0 <= diff <= u64::MAX,
        ;
        assert((min_hundredths as int) * (prev as int) <= (u32::MAX as int) * (u64::MAX as int))
            by (nonlinear_arith)
            requires
                0 <= min_hundredths <= u32::MAX,
                0 <= prev <= u64::MAX,
        ;
    }
    (diff as u128) * 10000 >= (min_hundredths as u128) * (prev as u128)
}

/// A release qualifies for the trend report: at least two observations, a
/// non-zero previous price (otherwise there is no trend data), a percentage
/// change reaching the threshold, and — unless decreases are included — no
/// downward move. Opaque: proofs over whole reports treat it abstractly.
#[verifier::opaque]
pub open spec fn trend_eligible(
    m: StoreModel,
    rid: u32,
    min_hundredths: u32,
    include_decreases: bool,
) -> bool {
    let hist = history_of(m.history, rid);
    &&& has_release(m.releases, rid)
    &&& hist.len() >= 2
    &&& hist[hist.len() - 2].price_cents != 0
    &&& passes_threshold(
        hist.last().price_cents,
        hist[hist.len() - 2].price_cents,
        min_hundredths,
    )
    &&& (include_decreases || hist.last().price_cents >= hist[hist.len() - 2].price_cents)
}

/// One reported trend is exactly what the store says of its release: the two
/// most recent observations compared, the change their difference, and the
/// classification the sign of the change (zero is `Stable`). Opaque:
/// proofs over whole reports treat it abstractly.
#[verifier::opaque]
pub open spec fn trend_entry_valid(m: StoreModel, t: PriceTrend) -> bool {
    let hist = history_of(m.history, t.release.id);
    &&& spec_get_release(m.releases, t.release.id) == Some(t.release)
    &&& hist.len() >= 2
    &&& t.price_history@ == hist
    &&& t.current_price == hist.last().price_cents
    &&& t.previous_price == hist[hist.len() - 2].price_cents
    &&& t.previous_price != 0
    &&& t.price_change == t.current_price - t.previous_price
    &&& t.trend == (if t.price_change > 0 {
        TrendDirection::Up
    } else if t.price_change < 0 {
        TrendDirection::Down
    } else {
        TrendDirection::Stable
    })
}


/// The trend report built so far, having looked at the first `upto` stored
/// releases: every entry valid, thresholded and filtered; every eligible
/// release among the first `upto` present; ranked and duplicate-free.
pub open spec fn trends_state_ok(
    m: StoreModel,
    out: Seq<PriceTrend>,
    upto: int,
    min_hundredths: u32,
    include_decreases: bool,
) -> bool {
    &&& (forall|k: int| 0 <= k < out.len() ==> trend_entry_valid(m, #[trigger] out[k]))
    &&& (forall|k: int|
        0 <= k < out.len() ==> passes_threshold(
            (#[trigger] out[k]).current_price,
            out[k].previous_price,
            min_hundredths,
        ))
    &&& (forall|k: int|
        0 <= k < out.len() ==> (include_decreases || !((#[trigger] out[k]).trend is Down)))
    &&& (forall|k: int|
        0 <= k < out.len() ==> exists|j: int|
            0 <= j < upto && (#[trigger] out[k]).release.id == m.releases[j].info.id)
    &&& (forall|j: int|
        0 <= j < upto && trend_eligible(
            m,
            (#[trigger] m.releases[j]).info.id,
            min_hundredths,
            include_decreases,
        ) ==> exists|k: int|
            0 <= k < out.len() && (#[trigger] out[k]).release.id == m.releases[j].info.id)
    &&& (forall|k: int, l: int|
        0 <= k < l < out.len() ==> trend_precedes(#[trigger] out[k], #[trigger] out[l]))
    &&& (forall|k: int, l: int|
        0 <= k < l < out.len() ==> (#[trigger] out[k]).release.id != (#[trigger] out[l]).release.id)
}

/// Adding a qualifying trend at its rank keeps the report well-formed and
/// extends its coverage to the release it came from.
#[verifier::rlimit(40)]
proof fn lemma_trends_step_added(
    m: StoreModel,
    out0: Seq<PriceTrend>,
    out1: Seq<PriceTrend>,
    t: PriceTrend,
    p: int,
    idx: int,
    min_hundredths: u32,
    include_decreases: bool,
)
    requires
        forall|a: int, b: int|
            0 <= a < b < m.releases.len() ==> (#[trigger] m.releases[a]).info.id != (
            #[trigger] m.releases[b]).info.id,
        0 <= idx < m.releases.len(),
        trends_state_ok(m, out0, idx, min_hundredths, include_decreases),
        trend_entry_valid(m, t),
        passes_threshold(t.current_price, t.previous_price, min_hundredths),
        include_decreases || !(t.trend is Down),
        t.release.id == m.releases[idx].info.id,
        0 <= p <= out0.len(),
        out1 == out0.insert(p, t),
        forall|k: int, l: int|
            0 <= k < l < out1.len() ==> trend_precedes(#[trigger] out1[k], #[trigger] out1[l]),
    ensures
        trends_state_ok(m, out1, idx + 1, min_hundredths, include_decreases),
{
    out0.insert_ensures(p, t);
    assert forall|k: int| 0 <= k < out1.len() implies trend_entry_valid(m, #[trigger] out1[k])
        && passes_threshold(out1[k].current_price, out1[k].previous_price, min_hundredths) && (
    include_decreases || !(out1[k].trend is Down)) by {
        if k < p {
            assert(out1[k] == out0[k]);
        } else if k > p {
            assert(out1[k] == out0[k - 1]);
        }
    }
    assert forall|k: int| 0 <= k < out1.len() implies exists|j: int|
        0 <= j < idx + 1 && (#[trigger] out1[k]).release.id == m.releases[j].info.id by {
        if k < p {
            assert(out1[k] == out0[k]);
        } else if k > p {
            assert(out1[k] == out0[k - 1]);
        } else {
            assert(out1[k] == t);
            assert(t.release.id == m.releases[idx].info.id);
        }
    }
    assert forall|j: int|
        0 <= j < idx + 1 && trend_eligible(
            m,
            (#[trigger] m.releases[j]).info.id,
            min_hundredths,
            include_decreases,
        ) implies exists|k: int|
        0 <= k < out1.len() && (#[trigger] out1[k]).release.id == m.releases[j].info.id by {
        if j == idx {
            assert(out1[p] == t);
        } else {
            let k0 = choose|k0: int|
                0 <= k0 < out0.len() && (#[trigger] out0[k0]).release.id == m.releases[j].info.id;
            if k0 < p {
                assert(out1[k0] == out0[k0]);
            } else {
                assert(out1[k0 + 1] == out0[k0]);
            }
        }
    }
    assert forall|k: int, l: int| 0 <= k < l < out1.len() implies (#[trigger] out1[k]).release.id
        != (#[trigger] out1[l]).release.id by {
        if k != p && l != p {
            let a = if k < p {
                k
            } else {
                k - 1
            };
            let b = if l < p {
                l
            } else {
                l - 1
            };
            assert(out1[k] == out0[a] && out1[l] == out0[b]);
        } else {
            let other = if k == p {
                l
            } else {
                k
            };
            let a = if other < p {
                other
            } else {
                other - 1
            };
            assert(out1[other] == out0[a]);
            let j = choose|j: int|
                0 <= j < idx && (#[trigger] out0[a]).release.id == m.releases[j].info.id;
            assert(m.releases[j].info.id != m.releases[idx].info.id);
        }
    }
}

/// A release that does not qualify extends the report's coverage without
/// changing it.
proof fn lemma_trends_step_skipped(
    m: StoreModel,
    out0: Seq<PriceTrend>,
    idx: int,
    min_hundredths: u32,
    include_decreases: bool,
)
    requires
        0 <= idx < m.releases.len(),
        trends_state_ok(m, out0, idx, min_hundredths, include_decreases),
        !trend_eligible(m, m.releases[idx].info.id, min_hundredths, include_decreases),
    ensures
        trends_state_ok(m, out0, idx + 1, min_hundredths, include_decreases),
{
    assert forall|j: int|
        0 <= j < idx + 1 && trend_eligible(
            m,
            (#[trigger] m.releases[j]).info.id,
            min_hundredths,
            include_decreases,
        ) implies exists|k: int|
        0 <= k < out0.len() && (#[trigger] out0[k]).release.id == m.releases[j].info.id by {
        if j == idx {
            assert(false);
        }
    }
}

/// Looks at the stored release at `idx` and adds its trend to the report if
/// it qualifies.
#[verifier::loop_isolation(false)]
#[verifier::rlimit(40)]
fn add_release_trend(
    db: &PriceDatabase,
    out: &mut Vec<PriceTrend>,
    idx: usize,
    min_percent_hundredths: u32,
    include_decreases: bool,
)
    requires
        db.wf(),
        idx < db@.releases.len(),
        trends_state_ok(db@, old(out)@, idx as int, min_percent_hundredths, include_decreases),
    ensures
        trends_state_ok(db@, final(out)@, idx + 1, min_percent_hundredths, include_decreases),
{
    let ghost m = db@;
    let row = db.release_at(idx);
    let rid = row.info.id;
    let hist = db.get_full_history(rid);
    let ghost out0 = out@;
    let mut added = false;
    if hist.len() >= 2 {
        let latest = hist[hist.len() - 1].price_cents;
        let prev = hist[hist.len() - 2].price_cents;
        if prev != 0 {
            if passes_threshold_exec(latest, prev, min_percent_hundredths) && (include_decreases
                || latest >= prev) {
                let change: i128 = (latest as i128) - (prev as i128);
                let dir = if latest > prev {
                    TrendDirection::Up
                } else if latest < prev {
                    TrendDirection::Down
                } else {
                    TrendDirection::Stable
                };
                let t = PriceTrend {
                    release: row.info.clone(),
                    current_price: latest,
                    previous_price: prev,
                    price_change: change,
                    trend: dir,
                    price_history: hist,
                };
                proof {
                    crate::store::lemma_get_release_at(m.releases, rid, idx as int);
                    assert(has_release(m.releases, rid));
                    assert(trend_entry_valid(m, t)) by {
                        reveal(trend_entry_valid);
                    }
                    assert(trend_rank_ok(t));
                    assert forall|k: int| 0 <= k < out@.len() implies trend_rank_ok(
                        #[trigger] out@[k],
                    ) by {
                        reveal(trend_entry_valid);
                        assert(trend_entry_valid(m, out@[k]));
                    }
                    assert forall|k: int| 0 <= k < out@.len() implies (
                    #[trigger] out@[k]).release.id != t.release.id by {
                        let j = choose|j: int|
                            0 <= j < idx && out@[k].release.id == m.releases[j].info.id;
                        assert(m.releases[j].info.id != m.releases[idx as int].info.id);
                    }
                }
                insert_ranked_trend(out, t);
                added = true;
                proof {
                    let p = choose|p: int| 0 <= p <= out0.len() && out@ == out0.insert(p, t);
                    lemma_trends_step_added(
                        m,
                        out0,
                        out@,
                        t,
                        p,
                        idx as int,
                        min_percent_hundredths,
                        include_decreases,
                    );
                }
            }
        }
    }
    proof {
        if !added {
            assert(out@ == out0);
            assert(!trend_eligible(m, rid, min_percent_hundredths, include_decreases)) by {
                reveal(trend_eligible);
            }
            lemma_trends_step_skipped(
                m,
                out0,
                idx as int,
                min_percent_hundredths,
                include_decreases,
            );
        }
    }
}

/// The trend report: every release with at least two observations, a
/// non-zero previous price and a percentage change of at least
/// `min_percent_hundredths` hundredths of a percent — downward moves only
/// when `include_decreases` — ordered by percentage change descending, ties
/// by release id ascending.
#[verifier::loop_isolation(false)]
pub fn compute_trends(
    db: &PriceDatabase,
    min_percent_hundredths: u32,
    include_decreases: bool,
) -> (r: Vec<PriceTrend>)
    requires
        db.wf(),
    ensures
        forall|k: int| 0 <= k < r@.len() ==> trend_entry_valid(db@, #[trigger] r@[k]),
        forall|k: int|
            0 <= k < r@.len() ==> passes_threshold(
                (#[trigger] r@[k]).current_price,
                r@[k].previous_price,
                min_percent_hundredths,
            ),
        forall|k: int|
            0 <= k < r@.len() ==> (include_decreases || !((#[trigger] r@[k]).trend is Down)),
        forall|rid: u32|
            #[trigger] trend_eligible(db@, rid, min_percent_hundredths, include_decreases)
                ==> exists|k: int| 0 <= k < r@.len() && (#[trigger] r@[k]).release.id == rid,
        forall|k: int, l: int|
            0 <= k < l < r@.len() ==> trend_precedes(#[trigger] r@[k], #[trigger] r@[l]),
        forall|k: int, l: int|
            0 <= k < l < r@.len() ==> (#[trigger] r@[k]).release.id != (#[trigger] r@[l]).release.id,
{
    let ghost m = db@;
    let mut out: Vec<PriceTrend> = Vec::new();
    let n = db.num_releases();
    let mut idx: usize = 0;
    while idx < n
        invariant
            0 <= idx <= n,
            trends_state_ok(m, out@, idx as int, min_percent_hundredths, include_decreases),
        decreases n - idx,
    {
        add_release_trend(db, &mut out, idx, min_percent_hundredths, include_decreases);
        idx += 1;
    }
    proof {
        assert forall|rid: u32|
            #[trigger] trend_eligible(m, rid, min_percent_hundredths, include_decreases) implies exists|k: int|
            0 <= k < out@.len() && (#[trigger] out@[k]).release.id == rid by {
            assert(has_release(m.releases, rid)) by {
                reveal(trend_eligible);
            }
            lemma_has_release_index(m.releases, rid);
            let j = choose|j: int|
                0 <= j < m.releases.len() && (#[trigger] m.releases[j]).info.id == rid;
            assert(trend_eligible(
                m,
                m.releases[j].info.id,
                min_percent_hundredths,
                include_decreases,
            ));
        }
    }
    out
}

/// A demand candidate: a release's latest observation's want and listing
/// counts. The sell score is `wants / max(listings, 1)` — high want, low
/// supply ranks first.
pub struct DemandCandidate {
    pub release: ReleaseInfo,
    pub wants_count: u32,
    pub listing_count: u32,
}

#[derive(Clone, Copy, PartialEq, Eq, Structural, Debug)]
pub enum AnalysisKind {
    Demand,
    Sell,
    All,
}

/// The want count an observation recorded; a missing count reads as zero.
pub open spec fn wants_of(rec: PriceRecord) -> u32 {
    match rec.wants_count {
        Some(w) => w,
        None => 0,
    }
}

/// A candidate is exactly what the store says of its release: its latest
/// observation's want and listing counts. Opaque: proofs over whole reports
/// treat it abstractly.
#[verifier::opaque]
pub open spec fn demand_entry_valid(m: StoreModel, c: DemandCandidate) -> bool {
    let hist = history_of(m.history, c.release.id);
    &&& spec_get_release(m.releases, c.release.id) == Some(c.release)
    &&& hist.len() >= 1
    &&& c.wants_count == wants_of(hist.last())
    &&& c.listing_count == hist.last().listing_count
}

/// A release qualifies for the demand report: it has at least one
/// observation (no price, no ranking) whose want count reaches the minimum.
/// Opaque: proofs over whole reports treat it abstractly.
#[verifier::opaque]
pub open spec fn demand_eligible(m: StoreModel, rid: u32, min_wants: u32) -> bool {
    &&& has_release(m.releases, rid)
    &&& history_of(m.history, rid).len() >= 1
    &&& wants_of(history_of(m.history, rid).last()) >= min_wants
}

/// The ranking numerator: the want count, under every analysis kind.
pub open spec fn demand_num(c: DemandCandidate) -> int {
    c.wants_count as int
}

/// The ranking denominator: 1 when ranking by raw demand (`Demand`, `All`),
/// the listing count floored at 1 when ranking by sell score.
pub open spec fn demand_den(c: DemandCandidate, kind: AnalysisKind) -> int {
    match kind {
        AnalysisKind::Sell => if c.listing_count >= 1 {
            c.listing_count as int
        } else {
            1
        },
        _ => 1,
    }
}

pub open spec fn demand_precedes(a: DemandCandidate, b: DemandCandidate, kind: AnalysisKind) -> bool {
    rank_before(
        demand_num(a),
        demand_den(a, kind),
        a.release.id,
        demand_num(b),
        demand_den(b, kind),
        b.release.id,
    )
}

/// Inserts a candidate into a descending-ranked vector, keeping it ranked.
#[verifier::loop_isolation(false)]
fn insert_ranked_candidate(v: &mut Vec<DemandCandidate>, c: DemandCandidate, kind: AnalysisKind)
    requires
        forall|k: int, l: int|
            0 <= k < l < old(v)@.len() ==> demand_precedes(
                #[trigger] old(v)@[k],
                #[trigger] old(v)@[l],
                kind,
            ),
        forall|k: int|
            0 <= k < old(v)@.len() ==> (#[trigger] old(v)@[k]).release.id != c.release.id,
    ensures
        exists|p: int| 0 <= p <= old(v)@.len() && final(v)@ == old(v)@.insert(p, c),
        forall|k: int, l: int|
            0 <= k < l < final(v)@.len() ==> demand_precedes(
                #[trigger] final(v)@[k],
                #[trigger] final(v)@[l],
                kind,
            ),
        final(v)@.len() == old(v)@.len() + 1,
{
    let ghost s = v@;
    let n = v.len();
    let mut i: usize = 0;
    let mut placed = false;
    while !placed && i < n
        invariant
            0 <= i <= n,
            n == s.len(),
            s == v@,
            forall|j: int| 0 <= j < i ==> demand_precedes(#[trigger] s[j], c, kind),
            placed ==> i < n && demand_precedes(c, s[i as int], kind),
        decreases n - i, (if placed { 0int } else { 1int }),
    {
        let e = &v[i];
        let eden: u64 = match kind {
            AnalysisKind::Sell => if e.listing_count >= 1 {
                e.listing_count as u64
            } else {
                1
            },
            _ => 1,
        };
        let cden: u64 = match kind {
            AnalysisKind::Sell => if c.listing_count >= 1 {
                c.listing_count as u64
            } else {
                1
            },
            _ => 1,
        };
        if rank_before_exec(
            e.wants_count as i128,
            eden,
            e.release.id,
            c.wants_count as i128,
            cden,
            c.release.id,
        ) {
            i += 1;
        } else {
            proof {
                lemma_rank_total(
                    demand_num(s[i as int]),
                    demand_den(s[i as int], kind),
                    s[i as int].release.id,
                    demand_num(c),
                    demand_den(c, kind),
                    c.release.id,
                );
            }
            placed = true;
        }
    }
    let ghost p = i as int;
    v.insert(i, c);
    proof {
        s.insert_ensures(p, c);
        assert forall|k: int, l: int| 0 <= k < l < v@.len() implies demand_precedes(
            #[trigger] v@[k],
            #[trigger] v@[l],
            kind,
        ) by {
            if l < p {
                assert(v@[k] == s[k] && v@[l] == s[l]);
            } else if k < p && l == p {
                assert(v@[k] == s[k]);
            } else if k < p && l > p {
                assert(v@[k] == s[k] && v@[l] == s[l - 1]);
            } else if k == p && l > p {
                assert(v@[l] == s[l - 1]);
                assert(demand_precedes(c, s[p], kind));
                if l - 1 > p {
                    lemma_rank_trans(
                        demand_num(c),
                        demand_den(c, kind),
                        c.release.id,
                        demand_num(s[p]),
                        demand_den(s[p], kind),
                        s[p].release.id,
                        demand_num(s[l - 1]),
                        demand_den(s[l - 1], kind),
                        s[l - 1].release.id,
                    );
                }
            } else {
                assert(v@[k] == s[k - 1] && v@[l] == s[l - 1]);
            }
        }
    }
}

/// The demand report built so far, having looked at the first `upto` stored
/// releases.
pub open spec fn demand_state_ok(
    m: StoreModel,
    out: Seq<DemandCandidate>,
    upto: int,
    min_wants: u32,
    kind: AnalysisKind,
) -> bool {
    &&& (forall|k: int| 0 <= k < out.len() ==> demand_entry_valid(m, #[trigger] out[k]))
    &&& (forall|k: int| 0 <= k < out.len() ==> (#[trigger] out[k]).wants_count >= min_wants)
    &&& (forall|k: int|
        0 <= k < out.len() ==> exists|j: int|
            0 <= j < upto && (#[trigger] out[k]).release.id == m.releases[j].info.id)
    &&& (forall|j: int|
        0 <= j < upto && demand_eligible(m, (#[trigger] m.releases[j]).info.id, min_wants)
            ==> exists|k: int|
            0 <= k < out.len() && (#[trigger] out[k]).release.id == m.releases[j].info.id)
    &&& (forall|k: int, l: int|
        0 <= k < l < out.len() ==> demand_precedes(#[trigger] out[k], #[trigger] out[l], kind))
    &&& (forall|k: int, l: int|
        0 <= k < l < out.len() ==> (#[trigger] out[k]).release.id != (#[trigger] out[l]).release.id)
}

/// Adding a qualifying candidate at its rank keeps the report well-formed
/// and extends its coverage to the release it came from.
#[verifier::rlimit(40)]
proof fn lemma_demand_step_added(
    m: StoreModel,
    out0: Seq<DemandCandidate>,
    out1: Seq<DemandCandidate>,
    c: DemandCandidate,
    p: int,
    idx: int,
    min_wants: u32,
    kind: AnalysisKind,
)
    requires
        forall|a: int, b: int|
            0 <= a < b < m.releases.len() ==> (#[trigger] m.releases[a]).info.id != (
            #[trigger] m.releases[b]).info.id,
        0 <= idx < m.releases.len(),
        demand_state_ok(m, out0, idx, min_wants, kind),
        demand_entry_valid(m, c),
        c.wants_count >= min_wants,
        c.release.id == m.releases[idx].info.id,
        0 <= p <= out0.len(),
        out1 == out0.insert(p, c),
        forall|k: int, l: int|
            0 <= k < l < out1.len() ==> demand_precedes(#[trigger] out1[k], #[trigger] out1[l], kind),
    ensures
        demand_state_ok(m, out1, idx + 1, min_wants, kind),
{
    out0.insert_ensures(p, c);
    assert forall|k: int| 0 <= k < out1.len() implies demand_entry_valid(m, #[trigger] out1[k])
        && out1[k].wants_count >= min_wants by {
        if k < p {
            assert(out1[k] == out0[k]);
        } else if k > p {
            assert(out1[k] == out0[k - 1]);
        }
    }
    assert forall|k: int| 0 <= k < out1.len() implies exists|j: int|
        0 <= j < idx + 1 && (#[trigger] out1[k]).release.id == m.releases[j].info.id by {
        if k < p {
            assert(out1[k] == out0[k]);
        } else if k > p {
            assert(out1[k] == out0[k - 1]);
        } else {
            assert(out1[k] == c);
            assert(c.release.id == m.releases[idx].info.id);
        }
    }
    assert forall|j: int|
        0 <= j < idx + 1 && demand_eligible(m, (#[trigger] m.releases[j]).info.id, min_wants) implies exists|k: int|
        0 <= k < out1.len() && (#[trigger] out1[k]).release.id == m.releases[j].info.id by {
        if j == idx {
            assert(out1[p] == c);
        } else {
            let k0 = choose|k0: int|
                0 <= k0 < out0.len() && (#[trigger] out0[k0]).release.id == m.releases[j].info.id;
            if k0 < p {
                assert(out1[k0] == out0[k0]);
            } else {
                assert(out1[k0 + 1] == out0[k0]);
            }
        }
    }
    assert forall|k: int, l: int| 0 <= k < l < out1.len() implies (#[trigger] out1[k]).release.id
        != (#[trigger] out1[l]).release.id by {
        if k != p && l != p {
            let a = if k < p {
                k
            } else {
                k - 1
            };
            let b = if l < p {
                l
            } else {
                l - 1
            };
            assert(out1[k] == out0[a] && out1[l] == out0[b]);
        } else {
            let other = if k == p {
                l
            } else {
                k
            };
            let a = if other < p {
                other
            } else {
                other - 1
            };
            assert(out1[other] == out0[a]);
            let j = choose|j: int|
                0 <= j < idx && (#[trigger] out0[a]).release.id == m.releases[j].info.id;
            assert(m.releases[j].info.id != m.releases[idx].info.id);
        }
    }
}

/// A release that does not qualify extends the report's coverage without
/// changing it.
proof fn lemma_demand_step_skipped(
    m: StoreModel,
    out0: Seq<DemandCandidate>,
    idx: int,
    min_wants: u32,
    kind: AnalysisKind,
)
    requires
        0 <= idx < m.releases.len(),
        demand_state_ok(m, out0, idx, min_wants, kind),
        !demand_eligible(m, m.releases[idx].info.id, min_wants),
    ensures
        demand_state_ok(m, out0, idx + 1, min_wants, kind),
{
    assert forall|j: int|
        0 <= j < idx + 1 && demand_eligible(m, (#[trigger] m.releases[j]).info.id, min_wants) implies exists|k: int|
        0 <= k < out0.len() && (#[trigger] out0[k]).release.id == m.releases[j].info.id by {
        if j == idx {
            assert(false);
        }
    }
}

/// Looks at the stored release at `idx` and adds it to the demand report if
/// it qualifies.
#[verifier::loop_isolation(false)]
#[verifier::rlimit(40)]
fn add_release_candidate(
    db: &PriceDatabase,
    out: &mut Vec<DemandCandidate>,
    idx: usize,
    min_wants: u32,
    kind: AnalysisKind,
)
    requires
        db.wf(),
        idx < db@.releases.len(),
        demand_state_ok(db@, old(out)@, idx as int, min_wants, kind),
    ensures
        demand_state_ok(db@, final(out)@, idx + 1, min_wants, kind),
{
    let ghost m = db@;
    let row = db.release_at(idx);
    let rid = row.info.id;
    let ghost out0 = out@;
    let mut added = false;
    match db.get_latest_price(rid) {
        None => {},
        Some(rec) => {
            let wants = match rec.wants_count {
                Some(w) => w,
                None => 0,
            };
            if wants >= min_wants {
                let c = DemandCandidate {
                    release: row.info.clone(),
                    wants_count: wants,
                    listing_count: rec.listing_count,
                };
                proof {
                    crate::store::lemma_get_release_at(m.releases, rid, idx as int);
                    assert(has_release(m.releases, rid));
                    assert(demand_entry_valid(m, c)) by {
                        reveal(demand_entry_valid);
                    }
                    assert forall|k: int| 0 <= k < out@.len() implies (
                    #[trigger] out@[k]).release.id != c.release.id by {
                        let j = choose|j: int|
                            0 <= j < idx && out@[k].release.id == m.releases[j].info.id;
                        assert(m.releases[j].info.id != m.releases[idx as int].info.id);
                    }
                }
                insert_ranked_candidate(out, c, kind);
                added = true;
                proof {
                    let p = choose|p: int| 0 <= p <= out0.len() && out@ == out0.insert(p, c);
                    lemma_demand_step_added(m, out0, out@, c, p, idx as int, min_wants, kind);
                }
            }
        },
    }
    proof {
        if !added {
            assert(out@ == out0);
            assert(!demand_eligible(m, rid, min_wants)) by {
                reveal(demand_eligible);
            }
            lemma_demand_step_skipped(m, out0, idx as int, min_wants, kind);
        }
    }
}

/// The demand report: every release with at least one observation whose want
/// count reaches `min_wants`. `Demand` and `All` rank by want count
/// descending; `Sell` ranks by the sell score `wants / max(listings, 1)`
/// descending; ties break by release id ascending. Each candidate carries
/// both counts, so both rankings can be read off any result.
#[verifier::loop_isolation(false)]
pub fn compute_demand(db: &PriceDatabase, min_wants: u32, kind: AnalysisKind) -> (r: Vec<
    DemandCandidate,
>)
    requires
        db.wf(),
    ensures
        forall|k: int| 0 <= k < r@.len() ==> demand_entry_valid(db@, #[trigger] r@[k]),
        forall|k: int| 0 <= k < r@.len() ==> (#[trigger] r@[k]).wants_count >= min_wants,
        forall|rid: u32|
            #[trigger] demand_eligible(db@, rid, min_wants) ==> exists|k: int|
                0 <= k < r@.len() && (#[trigger] r@[k]).release.id == rid,
        forall|k: int, l: int|
            0 <= k < l < r@.len() ==> demand_precedes(#[trigger] r@[k], #[trigger] r@[l], kind),
        forall|k: int, l: int|
            0 <= k < l < r@.len() ==> (#[trigger] r@[k]).release.id != (#[trigger] r@[l]).release.id,
{
    let ghost m = db@;
    let mut out: Vec<DemandCandidate> = Vec::new();
    let n = db.num_releases();
    let mut idx: usize = 0;
    while idx < n
        invariant
            0 <= idx <= n,
            demand_state_ok(m, out@, idx as int, min_wants, kind),
        decreases n - idx,
    {
        add_release_candidate(db, &mut out, idx, min_wants, kind);
        idx += 1;
    }
    proof {
        assert forall|rid: u32| #[trigger] demand_eligible(m, rid, min_wants) implies exists|k: int|
            0 <= k < out@.len() && (#[trigger] out@[k]).release.id == rid by {
            assert(has_release(m.releases, rid)) by {
                reveal(demand_eligible);
            }
            lemma_has_release_index(m.releases, rid);
            let j = choose|j: int|
                0 <= j < m.releases.len() && (#[trigger] m.releases[j]).info.id == rid;
            assert(demand_eligible(m, m.releases[j].info.id, min_wants));
        }
    }
    out
}

} // verus!
