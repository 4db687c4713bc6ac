//! Value structures: the shapes the remote catalog API returns, the canonical
//! release record the store keeps, and the derived analytics results.
//!
//! Monetary amounts are integer minor units (cents); timestamps are seconds
//! since the Unix epoch.

use vstd::prelude::*;

verus! {

pub struct DiscogsArtist {
    pub name: String,
    pub id: u32,
    pub resource_url: String,
}

pub struct DiscogsFormat {
    pub name: String,
    pub qty: String,
    pub descriptions: Option<Vec<String>>,
}

pub struct DiscogsLabel {
    pub name: String,
    pub catno: String,
    pub entity_type: String,
    pub entity_type_name: String,
    pub id: u32,
    pub resource_url: String,
}

pub struct DiscogsBasicInformation {
    pub id: u32,
    pub title: String,
    pub year: u32,
    pub resource_url: String,
    pub thumb: String,
    pub cover_image: String,
    pub formats: Vec<DiscogsFormat>,
    pub artists: Vec<DiscogsArtist>,
    pub labels: Vec<DiscogsLabel>,
    pub genres: Vec<String>,
    pub styles: Vec<String>,
}

pub struct DiscogsCollectionItem {
    pub id: u32,
    pub instance_id: u32,
    pub folder_id: u32,
    pub rating: u32,
    pub basic_information: DiscogsBasicInformation,
    pub date_added: String,
}

pub struct DiscogsPagination {
    pub page: u32,
    pub pages: u32,
    pub per_page: u32,
    pub items: u32,
    pub urls: DiscogsPaginationUrls,
}

pub struct DiscogsPaginationUrls {
    pub last: Option<String>,
    pub next: Option<String>,
    pub prev: Option<String>,
    pub first: Option<String>,
}

pub struct DiscogsCollectionResponse {
    pub pagination: DiscogsPagination,
    pub releases: Vec<DiscogsCollectionItem>,
}

pub struct DiscogsFolder {
    pub id: u32,
    pub user_id: u32,
    pub name: String,
    pub count: u32,
    pub created: String,
    pub updated: String,
    pub resource_url: String,
}

pub struct DiscogsFoldersResponse {
    pub folders: Vec<DiscogsFolder>,
}

pub struct DiscogsWantlistItem {
    pub id: u32,
    pub rating: u32,
    pub notes: String,
    pub basic_information: DiscogsBasicInformation,
    pub date_added: String,
}

pub struct DiscogsWantlistResponse {
    pub pagination: DiscogsPagination,
    pub wants: Vec<DiscogsWantlistItem>,
}

/// Marketplace statistics for one release. The lowest asking price is absent
/// when the server reports none.
pub struct DiscogsMarketplaceStats {
    pub lowest_price: Option<DiscogsPrice>,
    pub num_for_sale: u32,
    pub blocked_from_sale: bool,
}

/// A price as integer minor units of its currency.
pub struct DiscogsPrice {
    pub value_cents: u64,
    pub currency: String,
}

pub struct DiscogsReleaseInfo {
    pub community: Option<DiscogsCommunity>,
}

pub struct DiscogsCommunity {
    pub want: u32,
    pub have: u32,
}

/// The canonical release record the store keeps: one row per catalog id.
pub struct ReleaseInfo {
    pub id: u32,
    pub title: String,
    pub artist: String,
    pub year: u32,
    pub format: String,
    pub thumb_url: String,
    pub added_date: String,
}

/// One immutable price observation: a timestamped price/listing/want snapshot
/// for a release.
pub struct PriceRecord {
    pub id: Option<u32>,
    pub release_id: u32,
    pub price_cents: u64,
    pub currency: String,
    pub condition: String,
    pub timestamp: u64,
    pub listing_count: u32,
    pub wants_count: Option<u32>,
}

/// The result of a successful marketplace lookup, before it is recorded as an
/// observation.
pub struct MarketplacePrice {
    pub price_cents: u64,
    pub currency: String,
    pub condition: String,
    pub listing_count: u32,
    pub wants_count: u32,
}

#[derive(Clone, Copy, PartialEq, Eq, Structural, Debug)]
pub enum TrendDirection {
    Up,
    Down,
    Stable,
}

/// A derived trend for one release: its two most recent observations compared.
/// The exact percentage change is the rational `price_change * 100 /
/// previous_price`; it is kept as that pair rather than rounded.
pub struct PriceTrend {
    pub release: ReleaseInfo,
    pub current_price: u64,
    pub previous_price: u64,
    pub price_change: i128,
    pub trend: TrendDirection,
    pub price_history: Vec<PriceRecord>,
}

/// The artist a release is listed under: the first credited artist, or a
/// sentinel when the listing carries none.
pub open spec fn spec_primary_artist(b: DiscogsBasicInformation) -> Seq<char> {
    if b.artists@.len() > 0 {
        b.artists@[0].name@
    } else {
        "Unknown Artist"@
    }
}

/// The primary format of a release: the first listed format, or a sentinel.
pub open spec fn spec_primary_format(b: DiscogsBasicInformation) -> Seq<char> {
    if b.formats@.len() > 0 {
        b.formats@[0].name@
    } else {
        "Unknown Format"@
    }
}

impl ReleaseInfo {
    /// Canonicalizes a collection item: first artist, first format, missing
    /// names replaced by sentinel strings.
    pub fn from_collection_item(item: &DiscogsCollectionItem) -> (r: ReleaseInfo)
        ensures
            r.id == item.basic_information.id,
            r.title@ == item.basic_information.title@,
            r.artist@ == spec_primary_artist(item.basic_information),
            r.year == item.basic_information.year,
            r.format@ == spec_primary_format(item.basic_information),
            r.thumb_url@ == item.basic_information.thumb@,
            r.added_date@ == item.date_added@,
    {
        let basic = &item.basic_information;
        let artist = if basic.artists.len() > 0 {
            basic.artists[0].name.clone()
        } else {
            "Unknown Artist".to_owned()
        };
        let format = if basic.formats.len() > 0 {
            basic.formats[0].name.clone()
        } else {
            "Unknown Format".to_owned()
        };
        ReleaseInfo {
            id: basic.id,
            title: basic.title.clone(),
            artist,
            year: basic.year,
            format,
            thumb_url: basic.thumb.clone(),
            added_date: item.date_added.clone(),
        }
    }

    /// Canonicalizes a wantlist item the same way.
    pub fn from_wantlist_item(item: &DiscogsWantlistItem) -> (r: ReleaseInfo)
        ensures
            r.id == item.basic_information.id,
            r.title@ == item.basic_information.title@,
            r.artist@ == spec_primary_artist(item.basic_information),
            r.year == item.basic_information.year,
            r.format@ == spec_primary_format(item.basic_information),
            r.thumb_url@ == item.basic_information.thumb@,
            r.added_date@ == item.date_added@,
    {
        let basic = &item.basic_information;
        let artist = if basic.artists.len() > 0 {
            basic.artists[0].name.clone()
        } else {
            "Unknown Artist".to_owned()
        };
        let format = if basic.formats.len() > 0 {
            basic.formats[0].name.clone()
        } else {
            "Unknown Format".to_owned()
        };
        ReleaseInfo {
            id: basic.id,
            title: basic.title.clone(),
            artist,
            year: basic.year,
            format,
            thumb_url: basic.thumb.clone(),
            added_date: item.date_added.clone(),
        }
    }
}

impl Clone for ReleaseInfo {
    fn clone(&self) -> (r: Self)
        ensures
            r == *self,
    {
        ReleaseInfo {
            id: self.id,
            title: self.title.clone(),
            artist: self.artist.clone(),
            year: self.year,
            format: self.format.clone(),
            thumb_url: self.thumb_url.clone(),
            added_date: self.added_date.clone(),
        }
    }
}

impl Clone for PriceRecord {
    fn clone(&self) -> (r: Self)
        ensures
            r == *self,
    {
        PriceRecord {
            id: self.id,
            release_id: self.release_id,
            price_cents: self.price_cents,
            currency: self.currency.clone(),
            condition: self.condition.clone(),
            timestamp: self.timestamp,
            listing_count: self.listing_count,
            wants_count: self.wants_count,
        }
    }
}

impl Clone for MarketplacePrice {
    fn clone(&self) -> (r: Self)
        ensures
            r == *self,
    {
        MarketplacePrice {
            price_cents: self.price_cents,
            currency: self.currency.clone(),
            condition: self.condition.clone(),
            listing_count: self.listing_count,
            wants_count: self.wants_count,
        }
    }
}

} // verus!
