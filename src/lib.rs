//! Extraction of real-estate listings from results pages, and a deduplicated dataset of them:
//! one features row per address, and an append-only history of observed prices.

pub mod address;
pub mod engine;
pub mod listing;
pub mod page;
pub mod stats;
pub mod store;
pub mod text;
