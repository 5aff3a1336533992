//! Streaming aggregation of advertising campaign events into per-campaign
//! totals, with two ranked top-ten selections and their report rows.

pub mod number;
pub mod record;
pub mod aggregate;
pub mod rank;
pub mod report;
pub mod pipeline;
