//! Descriptive statistics over a crime-incident export: tolerant ingest of
//! CSV rows, counts by category and by calendar day, top-K selection, and the
//! plans that chart renderers draw from.

pub mod record;
pub mod tally;
pub mod counts;
pub mod ranking;
pub mod dates;
pub mod chart;
