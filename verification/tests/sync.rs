use discogs_tracker::store::PriceDatabase;
use discogs_tracker::sync::{
    advance_phase, apply_pricing_outcomes, fail_phase, next_batch, plan_pricing,
    reconcile_collection, reconcile_wantlist, PricingOutcome, SyncPhase,
};
use discogs_tracker::types::{
    DiscogsArtist, DiscogsBasicInformation, DiscogsCollectionItem, DiscogsFormat,
    DiscogsWantlistItem, MarketplacePrice, PriceRecord, ReleaseInfo,
};

fn basic_info(id: u32, title: &str) -> DiscogsBasicInformation {
    DiscogsBasicInformation {
        id,
        title: title.to_string(),
        year: 1999,
        resource_url: String::new(),
        thumb: String::new(),
        cover_image: String::new(),
        formats: vec![DiscogsFormat {
            name: "Vinyl".to_string(),
            qty: "1".to_string(),
            descriptions: None,
        }],
        artists: vec![DiscogsArtist {
            name: "Some Artist".to_string(),
            id: 1,
            resource_url: String::new(),
        }],
        labels: vec![],
        genres: vec![],
        styles: vec![],
    }
}

fn collection_item(id: u32, instance: u32) -> DiscogsCollectionItem {
    DiscogsCollectionItem {
        id,
        instance_id: instance,
        folder_id: 0,
        rating: 0,
        basic_information: basic_info(id, "Owned"),
        date_added: "2023-01-01".to_string(),
    }
}

fn wantlist_item(id: u32) -> DiscogsWantlistItem {
    DiscogsWantlistItem {
        id,
        rating: 4,
        notes: "wanted".to_string(),
        basic_information: basic_info(id, "Wanted"),
        date_added: "2023-02-02".to_string(),
    }
}

fn record(release_id: u32, price_cents: u64, timestamp: u64) -> PriceRecord {
    PriceRecord {
        id: None,
        release_id,
        price_cents,
        currency: "USD".to_string(),
        condition: "Various".to_string(),
        timestamp,
        listing_count: 2,
        wants_count: Some(1),
    }
}

#[test]
fn reconcile_twice_leaves_counts_unchanged() {
    let mut db = PriceDatabase::new();
    let items = vec![collection_item(10, 1), collection_item(11, 2), collection_item(10, 1)];
    let wants = vec![wantlist_item(20), wantlist_item(21)];

    reconcile_collection(&mut db, &items);
    reconcile_wantlist(&mut db, &wants);
    let c1 = db.get_collection_count();
    let w1 = db.get_wants_count();
    assert_eq!(c1, 2);
    assert_eq!(w1, 2);

    reconcile_collection(&mut db, &items);
    reconcile_wantlist(&mut db, &wants);
    assert_eq!(db.get_collection_count(), c1);
    assert_eq!(db.get_wants_count(), w1);
}

#[test]
fn reconcile_upserts_release_fields() {
    let mut db = PriceDatabase::new();
    reconcile_collection(&mut db, &vec![collection_item(10, 1)]);
    let r = db.get_release(10).unwrap();
    assert_eq!(r.title, "Owned");
    assert_eq!(r.artist, "Some Artist");
    assert_eq!(r.format, "Vinyl");
    assert_eq!(r.added_date, "2023-01-01");
}

#[test]
fn plan_pricing_deduplicates_and_respects_staleness() {
    let mut db = PriceDatabase::new();
    let rel = ReleaseInfo {
        id: 5,
        title: "T".to_string(),
        artist: "A".to_string(),
        year: 2000,
        format: "Vinyl".to_string(),
        thumb_url: String::new(),
        added_date: String::new(),
    };
    db.add_or_update_release(&rel);
    db.add_price_record(&record(5, 1000, 1000)).unwrap();

    // fresh observation at t=1000, threshold 500 s, asked at t=1200: skipped
    let touched = vec![5, 6, 5];
    let plan = plan_pricing(&db, &touched, 1200, 500, false);
    assert_eq!(plan, vec![6]);

    // past the threshold it is due again; duplicates still collapse
    let plan = plan_pricing(&db, &touched, 2000, 500, false);
    assert_eq!(plan, vec![5, 6]);

    // force re-fetches everything
    let plan = plan_pricing(&db, &touched, 1200, 500, true);
    assert_eq!(plan, vec![5, 6]);
}

#[test]
fn apply_outcomes_counts_and_appends() {
    let mut db = PriceDatabase::new();
    reconcile_collection(&mut db, &vec![collection_item(10, 1), collection_item(11, 2)]);
    let outcomes = vec![
        (
            10u32,
            PricingOutcome::Priced(MarketplacePrice {
                price_cents: 2500,
                currency: "USD".to_string(),
                condition: "Various".to_string(),
                listing_count: 3,
                wants_count: 9,
            }),
        ),
        (11u32, PricingOutcome::NoPrice),
    ];
    let report = apply_pricing_outcomes(&mut db, &outcomes, 5000, 2, 0);
    assert_eq!(report.releases_seen, 2);
    assert_eq!(report.appended, 1);
    assert_eq!(report.no_price, 1);
    assert_eq!(report.skipped, 0);
    assert_eq!(report.failures.len(), 0);

    let latest = db.get_latest_price(10).unwrap();
    assert_eq!(latest.price_cents, 2500);
    assert_eq!(latest.timestamp, 5000);
    assert_eq!(latest.wants_count, Some(9));
    assert!(db.get_latest_price(11).is_none());
}

#[test]
fn one_failure_does_not_affect_other_outcomes() {
    let mut db = PriceDatabase::new();
    reconcile_collection(&mut db, &vec![collection_item(10, 1), collection_item(11, 2)]);
    let outcomes = vec![
        (
            10u32,
            PricingOutcome::Failed(discogs_tracker::errors::ApiError::RateLimit {
                body: "slow down".to_string(),
            }),
        ),
        (
            11u32,
            PricingOutcome::Priced(MarketplacePrice {
                price_cents: 700,
                currency: "USD".to_string(),
                condition: "Various".to_string(),
                listing_count: 1,
                wants_count: 2,
            }),
        ),
    ];
    let report = apply_pricing_outcomes(&mut db, &outcomes, 100, 2, 0);
    assert_eq!(report.appended, 1);
    assert_eq!(report.failures.len(), 1);
    assert_eq!(report.failures[0].release_id, 10);
    assert!(db.get_latest_price(11).is_some());
}

#[test]
fn phases_advance_in_order_and_fail_from_anywhere() {
    let p = SyncPhase::Fetching;
    let p = advance_phase(p);
    assert!(matches!(p, SyncPhase::Reconciling));
    let p = advance_phase(p);
    assert!(matches!(p, SyncPhase::Pricing));
    let p = advance_phase(p);
    assert!(matches!(p, SyncPhase::Done));
    assert!(matches!(advance_phase(p), SyncPhase::Done));
    assert!(matches!(fail_phase(SyncPhase::Pricing), SyncPhase::Failed));
    assert!(matches!(advance_phase(SyncPhase::Failed), SyncPhase::Failed));
}

#[test]
fn batches_bound_each_pricing_wave() {
    let ids = vec![1u32, 2, 3, 4, 5];
    assert_eq!(next_batch(&ids, 0, 2), vec![1, 2]);
    assert_eq!(next_batch(&ids, 2, 2), vec![3, 4]);
    assert_eq!(next_batch(&ids, 4, 2), vec![5]);
    assert_eq!(next_batch(&ids, 5, 2), Vec::<u32>::new());
}
