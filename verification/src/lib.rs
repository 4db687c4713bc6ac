//! Tracks the monetary value of a music collection over time: a durable,
//! append-only price-history store, a paginated rate-limited catalog client,
//! a sync orchestrator, and trend/demand analytics derived from the history.
//!
//! Prices are carried as integer minor units (cents) throughout; timestamps
//! are seconds since the Unix epoch.

pub mod analytics;
pub mod clock;
pub mod client;
pub mod config;
pub mod errors;
pub mod store;
pub mod sync;
pub mod types;
pub mod value;

pub use config::Config;
