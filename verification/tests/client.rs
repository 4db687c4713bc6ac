use discogs_tracker::client::{
    classify_status, collect_paginated, marketplace_price_from_stats, FetchStep, Page, Paginator,
    PAGE_DELAY_MS,
};
use discogs_tracker::errors::ApiError;
use discogs_tracker::types::{DiscogsMarketplaceStats, DiscogsPrice};

#[test]
fn pagination_three_pages_three_requests_with_delays() {
    let responses: Vec<Page<u32>> = vec![
        Page { pages: 3, items: vec![1, 2] },
        Page { pages: 3, items: vec![3] },
        Page { pages: 3, items: vec![4, 5] },
    ];
    let (items, requests) = collect_paginated(responses);
    assert_eq!(requests.len(), 3);
    assert_eq!(requests[0].page, 1);
    assert_eq!(requests[0].delay_ms, 0);
    assert_eq!(requests[1].page, 2);
    assert_eq!(requests[1].delay_ms, PAGE_DELAY_MS);
    assert_eq!(requests[2].page, 3);
    assert_eq!(requests[2].delay_ms, PAGE_DELAY_MS);
    assert_eq!(items, vec![1, 2, 3, 4, 5]);
}

#[test]
fn pagination_single_page_stops_immediately() {
    let responses: Vec<Page<u32>> = vec![Page { pages: 1, items: vec![9] }];
    let (items, requests) = collect_paginated(responses);
    assert_eq!(requests.len(), 1);
    assert_eq!(items, vec![9]);
}

#[test]
fn pagination_halts_when_server_misreports() {
    // the server claims many pages but only two exist: the loop cannot run
    // past the data it has
    let responses: Vec<Page<u32>> = vec![
        Page { pages: 100, items: vec![1] },
        Page { pages: 100, items: vec![2] },
    ];
    let (_items, requests) = collect_paginated(responses);
    assert!(requests.len() <= 2);
}

#[test]
fn paginator_halts_once_reported_total_reached() {
    let mut pag = Paginator::new();
    assert!(matches!(pag.next_step(), FetchStep::Request { page: 1, delay_ms: 0 }));
    pag.record_response(2);
    assert!(!pag.finished);
    assert!(matches!(
        pag.next_step(),
        FetchStep::Request { page: 2, delay_ms: PAGE_DELAY_MS }
    ));
    pag.record_response(2);
    assert!(pag.finished);
    assert!(matches!(pag.next_step(), FetchStep::Done));
}

#[test]
fn marketplace_no_price_when_no_listings_even_with_lowest_price() {
    let stats = DiscogsMarketplaceStats {
        lowest_price: Some(DiscogsPrice { value_cents: 1234, currency: "USD".to_string() }),
        num_for_sale: 0,
        blocked_from_sale: false,
    };
    let r = marketplace_price_from_stats(&stats, &Ok(42));
    assert!(r.is_none());
}

#[test]
fn marketplace_no_price_when_no_lowest_price() {
    let stats = DiscogsMarketplaceStats {
        lowest_price: None,
        num_for_sale: 7,
        blocked_from_sale: false,
    };
    assert!(marketplace_price_from_stats(&stats, &Ok(42)).is_none());
}

#[test]
fn marketplace_price_carries_stats_and_wants() {
    let stats = DiscogsMarketplaceStats {
        lowest_price: Some(DiscogsPrice { value_cents: 2599, currency: "EUR".to_string() }),
        num_for_sale: 4,
        blocked_from_sale: false,
    };
    let r = marketplace_price_from_stats(&stats, &Ok(42)).unwrap();
    assert_eq!(r.price_cents, 2599);
    assert_eq!(r.currency, "EUR");
    assert_eq!(r.condition, "Various");
    assert_eq!(r.listing_count, 4);
    assert_eq!(r.wants_count, 42);
}

#[test]
fn marketplace_wants_degrade_to_zero_on_failure() {
    let stats = DiscogsMarketplaceStats {
        lowest_price: Some(DiscogsPrice { value_cents: 100, currency: "USD".to_string() }),
        num_for_sale: 1,
        blocked_from_sale: false,
    };
    let err: Result<u32, ApiError> = Err(ApiError::Transport {
        status: 0,
        body: "timed out".to_string(),
    });
    let r = marketplace_price_from_stats(&stats, &err).unwrap();
    assert_eq!(r.wants_count, 0);
}

#[test]
fn status_classification_covers_the_taxonomy() {
    assert!(classify_status(200, String::new()).is_none());
    assert!(classify_status(299, String::new()).is_none());
    assert!(matches!(
        classify_status(401, "no".to_string()),
        Some(ApiError::Auth { status: 401, .. })
    ));
    assert!(matches!(
        classify_status(403, "no".to_string()),
        Some(ApiError::Auth { status: 403, .. })
    ));
    assert!(matches!(
        classify_status(404, String::new()),
        Some(ApiError::NotFound { .. })
    ));
    assert!(matches!(
        classify_status(429, String::new()),
        Some(ApiError::RateLimit { .. })
    ));
    assert!(matches!(
        classify_status(500, "boom".to_string()),
        Some(ApiError::Transport { status: 500, .. })
    ));
}
