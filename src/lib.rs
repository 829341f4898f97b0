//! Relaying Carbon plaintext metrics to an InfluxDB write API: parsing lines
//! into samples, grouping samples into per-series records, encoding a batch of
//! records as JSON, and describing the HTTP write that carries it.

pub mod text;
pub mod carbon;
pub mod number;
pub mod record;
pub mod json;
pub mod database;
