//! Function-level telemetry: syntax complexity joined with change history.

pub mod ast;
pub mod authors;
pub mod beginnings;
pub mod cache;
pub mod context;
pub mod coupling;
pub mod coverage;
pub mod covering;
pub mod determinism;
pub mod digest;
pub mod error;
pub mod gather;
pub mod git;
pub mod keeping;
pub mod liveness;
pub mod metrics;
pub mod order;
pub mod outcome;
pub mod path;
pub mod placing;
pub mod ranking;
pub mod registry;
pub mod report;
pub mod reruns;
pub mod score;
pub mod scoring;
pub mod shares;
pub mod spelling;
pub mod standing;
pub mod stats;
pub mod table;
pub mod text;
pub mod ways;
pub mod worker;
