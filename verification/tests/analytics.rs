use discogs_tracker::analytics::{compute_demand, compute_trends, AnalysisKind};
use discogs_tracker::store::PriceDatabase;
use discogs_tracker::types::{PriceRecord, ReleaseInfo, TrendDirection};
use discogs_tracker::value::collection_value;

fn release(id: u32, title: &str, format: &str) -> ReleaseInfo {
    ReleaseInfo {
        id,
        title: title.to_string(),
        artist: "Artist".to_string(),
        year: 2001,
        format: format.to_string(),
        thumb_url: String::new(),
        added_date: String::new(),
    }
}

fn record(release_id: u32, price_cents: u64, timestamp: u64) -> PriceRecord {
    PriceRecord {
        id: None,
        release_id,
        price_cents,
        currency: "USD".to_string(),
        condition: "Various".to_string(),
        timestamp,
        listing_count: 2,
        wants_count: Some(0),
    }
}

fn record_with_demand(
    release_id: u32,
    price_cents: u64,
    timestamp: u64,
    wants: u32,
    listings: u32,
) -> PriceRecord {
    PriceRecord {
        id: None,
        release_id,
        price_cents,
        currency: "USD".to_string(),
        condition: "Various".to_string(),
        timestamp,
        listing_count: listings,
        wants_count: Some(wants),
    }
}

#[test]
fn twenty_percent_increase_is_reported_up() {
    // release 111: 10.00 then 12.00 — a 20% increase over a 5% threshold
    let mut db = PriceDatabase::new();
    db.add_or_update_release(&release(111, "Album", "Vinyl"));
    db.add_price_record(&record(111, 1000, 1)).unwrap();
    db.add_price_record(&record(111, 1200, 2)).unwrap();

    let trends = compute_trends(&db, 500, false);
    assert_eq!(trends.len(), 1);
    let t = &trends[0];
    assert_eq!(t.release.id, 111);
    assert!(matches!(t.trend, TrendDirection::Up));
    assert_eq!(t.current_price, 1200);
    assert_eq!(t.previous_price, 1000);
    assert_eq!(t.price_change, 200);
    // the exact percentage is change / previous * 100 = 20.0
    assert_eq!(t.price_change * 100, 20 * t.previous_price as i128);
    assert_eq!(t.price_history.len(), 2);
}

#[test]
fn zero_previous_price_is_never_reported() {
    let mut db = PriceDatabase::new();
    db.add_or_update_release(&release(1, "Free", "Vinyl"));
    db.add_price_record(&record(1, 0, 1)).unwrap();
    db.add_price_record(&record(1, 500, 2)).unwrap();
    let trends = compute_trends(&db, 0, true);
    assert!(trends.is_empty());
}

#[test]
fn single_observation_has_no_trend() {
    let mut db = PriceDatabase::new();
    db.add_or_update_release(&release(1, "One", "Vinyl"));
    db.add_price_record(&record(1, 500, 1)).unwrap();
    assert!(compute_trends(&db, 0, true).is_empty());
}

#[test]
fn unchanged_price_is_stable() {
    let mut db = PriceDatabase::new();
    db.add_or_update_release(&release(1, "Flat", "Vinyl"));
    db.add_price_record(&record(1, 800, 1)).unwrap();
    db.add_price_record(&record(1, 800, 2)).unwrap();
    let trends = compute_trends(&db, 0, true);
    assert_eq!(trends.len(), 1);
    assert!(matches!(trends[0].trend, TrendDirection::Stable));
    assert_eq!(trends[0].price_change, 0);
}

#[test]
fn decreases_are_excluded_unless_requested() {
    let mut db = PriceDatabase::new();
    db.add_or_update_release(&release(1, "Falling", "Vinyl"));
    db.add_price_record(&record(1, 1200, 1)).unwrap();
    db.add_price_record(&record(1, 1000, 2)).unwrap();
    assert!(compute_trends(&db, 0, false).is_empty());
    let trends = compute_trends(&db, 0, true);
    assert_eq!(trends.len(), 1);
    assert!(matches!(trends[0].trend, TrendDirection::Down));
    assert_eq!(trends[0].price_change, -200);
}

#[test]
fn threshold_filters_small_changes() {
    let mut db = PriceDatabase::new();
    db.add_or_update_release(&release(1, "Slight", "Vinyl"));
    db.add_price_record(&record(1, 1000, 1)).unwrap();
    db.add_price_record(&record(1, 1030, 2)).unwrap();
    // 3% change: below a 5% threshold, at or above a 3% threshold
    assert!(compute_trends(&db, 500, false).is_empty());
    assert_eq!(compute_trends(&db, 300, false).len(), 1);
}

#[test]
fn trends_are_ordered_by_percentage_descending() {
    let mut db = PriceDatabase::new();
    db.add_or_update_release(&release(1, "Small", "Vinyl"));
    db.add_price_record(&record(1, 1000, 1)).unwrap();
    db.add_price_record(&record(1, 1100, 2)).unwrap(); // +10%
    db.add_or_update_release(&release(2, "Big", "Vinyl"));
    db.add_price_record(&record(2, 1000, 1)).unwrap();
    db.add_price_record(&record(2, 1500, 2)).unwrap(); // +50%
    let trends = compute_trends(&db, 0, false);
    assert_eq!(trends.len(), 2);
    assert_eq!(trends[0].release.id, 2);
    assert_eq!(trends[1].release.id, 1);
}

#[test]
fn equal_percentages_tie_break_by_id_ascending() {
    let mut db = PriceDatabase::new();
    db.add_or_update_release(&release(9, "B", "Vinyl"));
    db.add_price_record(&record(9, 1000, 1)).unwrap();
    db.add_price_record(&record(9, 1100, 2)).unwrap();
    db.add_or_update_release(&release(3, "A", "Vinyl"));
    db.add_price_record(&record(3, 2000, 1)).unwrap();
    db.add_price_record(&record(3, 2200, 2)).unwrap();
    let trends = compute_trends(&db, 0, false);
    assert_eq!(trends.len(), 2);
    assert_eq!(trends[0].release.id, 3);
    assert_eq!(trends[1].release.id, 9);
}

#[test]
fn sell_analysis_ranks_by_want_to_listing_ratio() {
    // release 222: wants 150, listings 3; release 333: wants 60, listings 30
    let mut db = PriceDatabase::new();
    db.add_or_update_release(&release(222, "Hot", "Vinyl"));
    db.add_price_record(&record_with_demand(222, 5000, 1, 150, 3)).unwrap();
    db.add_or_update_release(&release(333, "Common", "Vinyl"));
    db.add_price_record(&record_with_demand(333, 4000, 1, 60, 30)).unwrap();

    let candidates = compute_demand(&db, 50, AnalysisKind::Sell);
    assert_eq!(candidates.len(), 2);
    assert_eq!(candidates[0].release.id, 222);
    assert_eq!(candidates[1].release.id, 333);
    assert_eq!(candidates[0].wants_count, 150);
    assert_eq!(candidates[0].listing_count, 3);
}

#[test]
fn demand_analysis_ranks_by_wants_and_applies_minimum() {
    let mut db = PriceDatabase::new();
    db.add_or_update_release(&release(1, "Low", "Vinyl"));
    db.add_price_record(&record_with_demand(1, 100, 1, 10, 1)).unwrap();
    db.add_or_update_release(&release(2, "Mid", "Vinyl"));
    db.add_price_record(&record_with_demand(2, 100, 1, 60, 1)).unwrap();
    db.add_or_update_release(&release(3, "High", "Vinyl"));
    db.add_price_record(&record_with_demand(3, 100, 1, 200, 1)).unwrap();

    let candidates = compute_demand(&db, 50, AnalysisKind::Demand);
    assert_eq!(candidates.len(), 2);
    assert_eq!(candidates[0].release.id, 3);
    assert_eq!(candidates[1].release.id, 2);
}

#[test]
fn demand_excludes_releases_without_observations() {
    let mut db = PriceDatabase::new();
    db.add_or_update_release(&release(1, "Silent", "Vinyl"));
    assert!(compute_demand(&db, 0, AnalysisKind::All).is_empty());
}

#[test]
fn value_reports_total_format_breakdown_and_unpriced() {
    // A priced at 25.00 (Vinyl), B unpriced
    let mut db = PriceDatabase::new();
    db.add_or_update_release(&release(1, "A", "Vinyl"));
    db.add_or_update_release(&release(2, "B", "Vinyl"));
    db.add_collection_item(1, 0, Some(1)).unwrap();
    db.add_collection_item(2, 0, Some(2)).unwrap();
    db.add_price_record(&record(1, 2500, 1)).unwrap();

    let summary = collection_value(&db, true, None);
    assert_eq!(summary.total_cents, 2500);
    assert_eq!(summary.priced.len(), 1);
    assert_eq!(summary.priced[0].release.id, 1);
    assert_eq!(summary.priced[0].price_cents, 2500);
    assert_eq!(summary.unpriced.len(), 1);
    assert_eq!(summary.unpriced[0].id, 2);

    let formats = summary.by_format.unwrap();
    assert_eq!(formats.len(), 1);
    assert_eq!(formats[0].format, "Vinyl");
    assert_eq!(formats[0].total_cents, 2500);
    assert!(summary.top.is_none());
}

#[test]
fn value_groups_by_format_string() {
    let mut db = PriceDatabase::new();
    db.add_or_update_release(&release(1, "A", "Vinyl"));
    db.add_or_update_release(&release(2, "B", "CD"));
    db.add_or_update_release(&release(3, "C", "Vinyl"));
    db.add_collection_item(1, 0, None).unwrap();
    db.add_collection_item(2, 0, None).unwrap();
    db.add_collection_item(3, 0, None).unwrap();
    db.add_price_record(&record(1, 1000, 1)).unwrap();
    db.add_price_record(&record(2, 300, 1)).unwrap();
    db.add_price_record(&record(3, 700, 1)).unwrap();

    let summary = collection_value(&db, true, None);
    assert_eq!(summary.total_cents, 2000);
    let formats = summary.by_format.unwrap();
    assert_eq!(formats.len(), 2);
    let vinyl = formats.iter().find(|f| f.format == "Vinyl").unwrap();
    assert_eq!(vinyl.total_cents, 1700);
    let cd = formats.iter().find(|f| f.format == "CD").unwrap();
    assert_eq!(cd.total_cents, 300);
}

#[test]
fn value_top_lists_highest_priced_first() {
    let mut db = PriceDatabase::new();
    db.add_or_update_release(&release(1, "Cheap", "Vinyl"));
    db.add_or_update_release(&release(2, "Dear", "Vinyl"));
    db.add_or_update_release(&release(3, "Mid", "Vinyl"));
    db.add_collection_item(1, 0, None).unwrap();
    db.add_collection_item(2, 0, None).unwrap();
    db.add_collection_item(3, 0, None).unwrap();
    db.add_price_record(&record(1, 100, 1)).unwrap();
    db.add_price_record(&record(2, 9000, 1)).unwrap();
    db.add_price_record(&record(3, 4000, 1)).unwrap();

    let summary = collection_value(&db, false, Some(2));
    let top = summary.top.unwrap();
    assert_eq!(top.len(), 2);
    assert_eq!(top[0].release.id, 2);
    assert_eq!(top[0].price_cents, 9000);
    assert_eq!(top[1].release.id, 3);
    assert!(summary.by_format.is_none());
}

#[test]
fn value_of_empty_collection_is_zero() {
    let db = PriceDatabase::new();
    let summary = collection_value(&db, true, Some(5));
    assert_eq!(summary.total_cents, 0);
    assert!(summary.priced.is_empty());
    assert!(summary.unpriced.is_empty());
    assert_eq!(summary.by_format.unwrap().len(), 0);
    assert_eq!(summary.top.unwrap().len(), 0);
}

#[test]
fn config_is_configured_requires_both_fields() {
    let mut cfg = discogs_tracker::Config::new();
    assert!(!cfg.is_configured());
    cfg.username = "someone".to_string();
    assert!(!cfg.is_configured());
    cfg.token = "tok".to_string();
    assert!(cfg.is_configured());
}
