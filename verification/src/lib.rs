//! Comparative benchmarking support for SQL parsing backends: corpus and
//! batch construction, measurement-record extraction, result aggregation,
//! compatibility counting, and chart grid layout.
pub mod aggregate;
pub mod corpus;
pub mod backends;
pub mod layout;
pub mod record;
