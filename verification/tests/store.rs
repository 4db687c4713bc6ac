use discogs_tracker::errors::StoreError;
use discogs_tracker::store::PriceDatabase;
use discogs_tracker::types::{PriceRecord, ReleaseInfo};

fn release(id: u32, title: &str, artist: &str, year: u32, format: &str) -> ReleaseInfo {
    ReleaseInfo {
        id,
        title: title.to_string(),
        artist: artist.to_string(),
        year,
        format: format.to_string(),
        thumb_url: "https://example.com/thumb.jpg".to_string(),
        added_date: "2023-01-01".to_string(),
    }
}

fn record(release_id: u32, price_cents: u64, timestamp: u64) -> PriceRecord {
    PriceRecord {
        id: None,
        release_id,
        price_cents,
        currency: "USD".to_string(),
        condition: "Various".to_string(),
        timestamp,
        listing_count: 5,
        wants_count: Some(10),
    }
}

#[test]
fn test_database_creation() {
    let db = PriceDatabase::new();
    assert_eq!(db.get_collection_count(), 0);
}

#[test]
fn test_database_migrations() {
    let db = PriceDatabase::new();
    assert_eq!(db.get_collection_count(), 0);
    assert_eq!(db.get_wants_count(), 0);
    assert!(db.get_release(1).is_none());
}

#[test]
fn test_basic_database_operations() {
    let mut db = PriceDatabase::new();
    let rel = release(123456, "Test Album", "Test Artist", 2023, "Vinyl");
    db.add_or_update_release(&rel);

    let retrieved = db.get_release(123456);
    assert!(retrieved.is_some());
    let retrieved = retrieved.unwrap();
    assert_eq!(retrieved.id, 123456);
    assert_eq!(retrieved.title, "Test Album");
    assert_eq!(retrieved.artist, "Test Artist");
}

#[test]
fn append_observation_unknown_release_fails_with_integrity() {
    let mut db = PriceDatabase::new();
    let res = db.add_price_record(&record(999, 1000, 1));
    assert!(matches!(res, Err(StoreError::Integrity { release_id: 999 })));
    // the failed append never silently creates the release
    assert!(db.get_release(999).is_none());
    assert!(db.get_latest_price(999).is_none());
}

#[test]
fn append_observation_known_release_succeeds() {
    let mut db = PriceDatabase::new();
    db.add_or_update_release(&release(7, "A", "B", 2020, "Vinyl"));
    assert!(db.add_price_record(&record(7, 1500, 10)).is_ok());
    let latest = db.get_latest_price(7).unwrap();
    assert_eq!(latest.price_cents, 1500);
}

#[test]
fn latest_price_is_most_recent_by_timestamp() {
    let mut db = PriceDatabase::new();
    db.add_or_update_release(&release(7, "A", "B", 2020, "Vinyl"));
    db.add_price_record(&record(7, 1000, 100)).unwrap();
    db.add_price_record(&record(7, 1200, 200)).unwrap();
    let latest = db.get_latest_price(7).unwrap();
    assert_eq!(latest.price_cents, 1200);
    assert_eq!(latest.timestamp, 200);
}

#[test]
fn out_of_order_append_keeps_history_ordered() {
    let mut db = PriceDatabase::new();
    db.add_or_update_release(&release(7, "A", "B", 2020, "Vinyl"));
    db.add_price_record(&record(7, 1200, 200)).unwrap();
    db.add_price_record(&record(7, 1000, 100)).unwrap();
    // the later-timestamped record is still the latest
    let latest = db.get_latest_price(7).unwrap();
    assert_eq!(latest.timestamp, 200);
    let all = db.observations_since(7, 0);
    assert_eq!(all.len(), 2);
    assert!(all[0].timestamp <= all[1].timestamp);
}

#[test]
fn observations_since_restricts_to_window() {
    let mut db = PriceDatabase::new();
    db.add_or_update_release(&release(7, "A", "B", 2020, "Vinyl"));
    db.add_price_record(&record(7, 1000, 100)).unwrap();
    db.add_price_record(&record(7, 1100, 200)).unwrap();
    db.add_price_record(&record(7, 1200, 300)).unwrap();
    let recent = db.observations_since(7, 150);
    assert_eq!(recent.len(), 2);
    assert_eq!(recent[0].timestamp, 200);
    assert_eq!(recent[1].timestamp, 300);
}

#[test]
fn collection_membership_is_idempotent() {
    let mut db = PriceDatabase::new();
    db.add_or_update_release(&release(7, "A", "B", 2020, "Vinyl"));
    assert!(db.add_collection_item(7, 0, Some(1)).is_ok());
    assert!(db.add_collection_item(7, 0, Some(1)).is_ok());
    assert_eq!(db.get_collection_count(), 1);
    // a different instance is a separate copy
    assert!(db.add_collection_item(7, 0, Some(2)).is_ok());
    assert_eq!(db.get_collection_count(), 2);
}

#[test]
fn collection_membership_requires_release() {
    let mut db = PriceDatabase::new();
    let res = db.add_collection_item(5, 0, None);
    assert!(matches!(res, Err(StoreError::Integrity { release_id: 5 })));
    assert_eq!(db.get_collection_count(), 0);
}

#[test]
fn wantlist_upsert_is_keyed_by_release() {
    let mut db = PriceDatabase::new();
    db.add_or_update_release(&release(7, "A", "B", 2020, "Vinyl"));
    assert!(db.add_want_item(7, Some(3), Some("first")).is_ok());
    assert!(db.add_want_item(7, Some(5), Some("second")).is_ok());
    assert_eq!(db.get_wants_count(), 1);
}

#[test]
fn wantlist_requires_release() {
    let mut db = PriceDatabase::new();
    let res = db.add_want_item(5, None, None);
    assert!(matches!(res, Err(StoreError::Integrity { release_id: 5 })));
    assert_eq!(db.get_wants_count(), 0);
}

#[test]
fn upsert_release_overwrites_fields() {
    let mut db = PriceDatabase::new();
    db.add_or_update_release(&release(7, "Old Title", "Old Artist", 2020, "Vinyl"));
    db.add_or_update_release(&release(7, "New Title", "New Artist", 2021, "CD"));
    let r = db.get_release(7).unwrap();
    assert_eq!(r.title, "New Title");
    assert_eq!(r.artist, "New Artist");
    assert_eq!(r.year, 2021);
    assert_eq!(r.format, "CD");
}
