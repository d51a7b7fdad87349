//! Usage-billing analytics: ingestion and validation of tabular usage
//! records, aggregation into summaries and per-model breakdowns, and
//! peak / efficiency / trend statistics.

pub mod csv_parser;
pub mod data_processor;
pub mod day_groups;
pub mod fields;
pub mod growth;
pub mod merging;
pub mod models;
pub mod sums;
pub mod report;
pub mod stats_calculator;
pub mod store;
pub mod text;
pub mod timestamp;
pub mod validation;
