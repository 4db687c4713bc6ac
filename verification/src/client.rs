//! Catalog-client logic: the sequential, rate-limited pagination state
//! machine, the driver that folds a complete set of page responses into one
//! listing, the decision rule for marketplace statistics, and the mapping
//! from HTTP status codes to the error taxonomy. The surrounding application
//! performs the HTTP requests and the waiting; everything decided here is
//! pure.

use vstd::prelude::*;

verus! {

use crate::errors::ApiError;
use crate::types::{DiscogsMarketplaceStats, MarketplacePrice};

/// Minimum wait between successive page requests, in milliseconds.
pub const PAGE_DELAY_MS: u64 = 1000;

/// One page of a paginated listing: the total page count the server reported
/// alongside it, and the items of this page.
pub struct Page<T> {
    pub pages: u32,
    pub items: Vec<T>,
}

/// What the paginator asks its driver to do next: request a page (after
/// waiting `delay_ms`), or stop.
#[derive(PartialEq, Eq, Structural)]
pub enum FetchStep {
    Request { page: u32, delay_ms: u64 },
    Done,
}

/// One issued page request, with the wait that preceded it.
#[derive(Clone, Copy, PartialEq, Eq, Structural, Debug)]
pub struct PageRequest {
    pub page: u32,
    pub delay_ms: u64,
}

/// The sequential pagination state machine. Pages are requested in ascending
/// order starting at 1; after each response the machine either advances or
/// halts. It halts as soon as the current page has reached the reported
/// total, so a misreporting server can never make it revisit or skip a page,
/// and a constant report of `n` pages yields exactly `n` requests.
pub struct Paginator {
    pub next_page: u32,
    pub finished: bool,
}

impl Paginator {
    pub fn new() -> (r: Paginator)
        ensures
            r.next_page == 1,
            !r.finished,
    {
        Paginator { next_page: 1, finished: false }
    }

    /// The next action: the first request carries no delay; every later one
    /// waits the fixed rate-limit interval first.
    pub fn next_step(&self) -> (r: FetchStep)
        ensures
            r == (if self.finished {
                FetchStep::Done
            } else {
                FetchStep::Request {
                    page: self.next_page,
                    delay_ms: if self.next_page == 1 {
                        0u64
                    } else {
                        PAGE_DELAY_MS
                    },
                }
            }),
    {
        if self.finished {
            FetchStep::Done
        } else {
            FetchStep::Request {
                page: self.next_page,
                delay_ms: if self.next_page == 1 {
                    0
                } else {
                    PAGE_DELAY_MS
                },
            }
        }
    }

    /// Records the total the server reported for the page just fetched. The
    /// machine halts exactly when the fetched page has reached that total —
    /// in particular it always halts when `reported_pages` never grows.
    pub fn record_response(&mut self, reported_pages: u32)
        requires
            !old(self).finished,
        ensures
            final(self).finished == (old(self).next_page >= reported_pages),
            !final(self).finished ==> final(self).next_page == old(self).next_page + 1,
            final(self).finished ==> final(self).next_page == old(self).next_page,
    {
        if self.next_page >= reported_pages {
            self.finished = true;
        } else {
            self.next_page = self.next_page + 1;
        }
    }
}

/// All items of a sequence of pages, in page order.
pub open spec fn flatten_pages<T>(pages: Seq<Page<T>>) -> Seq<T>
    decreases pages.len(),
{
    if pages.len() == 0 {
        Seq::empty()
    } else {
        flatten_pages(pages.drop_last()) + pages.last().items@
    }
}

/// Drives the paginator over a complete set of page responses (`responses[k]`
/// answers page `k + 1`) and collects every item, recording each request it
/// would issue. Requests stop as soon as the reported total is reached, or
/// when the responses run out; against an endpoint that consistently reports
/// `n` pages this issues exactly `n` requests, the first without delay and
/// each later one after the fixed rate-limit wait.
#[verifier::loop_isolation(false)]
pub fn collect_paginated<T>(responses: Vec<Page<T>>) -> (r: (Vec<T>, Vec<PageRequest>))
    ensures
        r.1@.len() <= responses@.len(),
        forall|k: int|
            0 <= k < r.1@.len() ==> (#[trigger] r.1@[k]).page as int == k + 1 && r.1@[k].delay_ms
                == (if k == 0 {
                0u64
            } else {
                PAGE_DELAY_MS
            }),
        forall|k: int|
            0 <= k < r.1@.len() - 1 ==> k + 1 < (#[trigger] responses@[k]).pages as int,
        r.0@ == flatten_pages(responses@.take(r.1@.len() as int)),
        (responses@.len() >= 1 && responses@.len() <= u32::MAX && (forall|i: int|
            0 <= i < responses@.len() ==> (#[trigger] responses@[i]).pages as int
                == responses@.len())) ==> (r.1@.len() == responses@.len() && r.0@ == flatten_pages(
            responses@,
        )),
        responses@.len() == 0 ==> r.0@.len() == 0 && r.1@.len() == 0,
{
    let ghost resp = responses@;
    let n = responses.len();
    let mut rest = responses;
    let mut stack: Vec<Page<T>> = Vec::new();
    while rest.len() > 0
        invariant
            rest@ == resp.take(rest@.len() as int),
            stack@.len() + rest@.len() == n,
            forall|k: int| 0 <= k < stack@.len() ==> #[trigger] stack@[k] == resp[n - 1 - k],
        decreases rest@.len(),
    {
        proof {
            assert(rest@.last() == resp[rest@.len() - 1]);
            assert(rest@.drop_last() =~= resp.take(rest@.len() - 1));
        }
        match rest.pop() {
            Some(p) => {
                stack.push(p);
            },
            None => {},
        }
    }
    let mut pag = Paginator::new();
    let mut items: Vec<T> = Vec::new();
    let mut requests: Vec<PageRequest> = Vec::new();
    while !pag.finished && stack.len() > 0
        invariant
            requests@.len() <= pag.next_page as int,
            stack@.len() == n - requests@.len(),
            forall|k: int| 0 <= k < stack@.len() ==> #[trigger] stack@[k] == resp[n - 1 - k],
            forall|k: int|
                0 <= k < requests@.len() ==> (#[trigger] requests@[k]).page as int == k + 1
                    && requests@[k].delay_ms == (if k == 0 {
                    0u64
                } else {
                    PAGE_DELAY_MS
                }),
            forall|k: int|
                0 <= k < requests@.len() - 1 ==> k + 1 < (#[trigger] resp[k]).pages as int,
            items@ == flatten_pages(resp.take(requests@.len() as int)),
            !pag.finished ==> pag.next_page as int == requests@.len() + 1,
            !pag.finished && requests@.len() > 0 ==> requests@.len() < (#[trigger] resp[
                requests@.len() - 1]).pages as int,
            pag.finished ==> requests@.len() > 0 && requests@.len() >= resp[requests@.len()
                - 1].pages as int,
        decreases stack@.len(),
    {
        let mut page = match stack.pop() {
            Some(p) => p,
            None => {
                proof {
                    assert(false);
                }
                Page { pages: 0, items: Vec::new() }
            },
        };
        let ghost kreq = requests@.len() as int;
        proof {
            assert(page == resp[kreq]);
        }
        match pag.next_step() {
            FetchStep::Request { page: pnum, delay_ms } => {
                requests.push(PageRequest { page: pnum, delay_ms });
            },
            FetchStep::Done => {
                proof {
                    assert(false);
                }
            },
        }
        items.append(&mut page.items);
        proof {
            assert(resp.take(kreq + 1).drop_last() =~= resp.take(kreq));
            assert(resp.take(kreq + 1).last() == resp[kreq]);
        }
        pag.record_response(page.pages);
    }
    proof {
        if n == 0 {
            assert(requests@.len() == 0);
            assert(resp.take(0) =~= resp);
        }
        if resp.len() >= 1 && resp.len() <= u32::MAX && (forall|i: int|
            0 <= i < resp.len() ==> (#[trigger] resp[i]).pages as int == resp.len()) {
            if pag.finished {
                assert(requests@.len() >= resp[requests@.len() - 1].pages as int);
                assert(requests@.len() >= resp.len());
                assert(requests@.len() == resp.len());
            } else {
                assert(stack@.len() == 0);
                assert(requests@.len() == n);
                assert(requests@.len() >= 1);
                assert(resp[requests@.len() - 1].pages as int == n);
                assert(pag.next_page as int == n + 1);
                assert(false);
            }
            assert(resp.take(requests@.len() as int) =~= resp);
        }
    }
    (items, requests)
}

/// The marketplace decision rule: "no price available" — not an error — when
/// there are no active listings or the server reports no lowest price; the
/// want count from the secondary lookup degrades to 0 when that lookup
/// failed. The condition label is the fixed placeholder the listing data does
/// not refine.
pub fn marketplace_price_from_stats(
    stats: &DiscogsMarketplaceStats,
    wants: &Result<u32, ApiError>,
) -> (r: Option<MarketplacePrice>)
    ensures
        r is None <==> (stats.num_for_sale == 0 || stats.lowest_price is None),
        r matches Some(p) ==> (stats.lowest_price matches Some(lp) && p.price_cents
            == lp.value_cents && p.currency@ == lp.currency@ && p.condition@ == "Various"@
            && p.listing_count == stats.num_for_sale && p.wants_count == (match wants {
            Ok(w) => *w,
            Err(_) => 0u32,
        })),
{
    if stats.num_for_sale == 0 {
        return None;
    }
    match &stats.lowest_price {
        None => None,
        Some(lp) => {
            let wants_count = match wants {
                Ok(w) => *w,
                Err(_) => 0,
            };
            Some(
                MarketplacePrice {
                    price_cents: lp.value_cents,
                    currency: lp.currency.clone(),
                    condition: "Various".to_owned(),
                    listing_count: stats.num_for_sale,
                    wants_count,
                },
            )
        },
    }
}

/// Maps an HTTP status (with the response body) to the error taxonomy: no
/// error for 2xx; authentication failure for 401 and 403; missing resource
/// for 404; rate limiting for 429; every other status is a hard transport
/// error carrying the status and body.
pub fn classify_status(status: u16, body: String) -> (r: Option<ApiError>)
    ensures
        (200 <= status < 300) <==> r is None,
        (status == 401 || status == 403) ==> (r matches Some(e) && e matches ApiError::Auth {
            status: s,
            body: b,
        } && s == status && b@ == body@),
        status == 404 ==> (r matches Some(e) && e matches ApiError::NotFound { body: b } && b@
            == body@),
        status == 429 ==> (r matches Some(e) && e matches ApiError::RateLimit { body: b } && b@
            == body@),
        (!(200 <= status < 300) && status != 401 && status != 403 && status != 404 && status
            != 429) ==> (r matches Some(e) && e matches ApiError::Transport { status: s, body: b }
            && s == status && b@ == body@),
{
    if 200 <= status && status < 300 {
        None
    } else if status == 401 || status == 403 {
        Some(ApiError::Auth { status, body })
    } else if status == 404 {
        Some(ApiError::NotFound { body })
    } else if status == 429 {
        Some(ApiError::RateLimit { body })
    } else {
        Some(ApiError::Transport { status, body })
    }
}

} // verus!
