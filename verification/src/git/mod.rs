//! The change history of files.

pub mod alike;
pub mod attribution;
pub mod batch;
pub mod churn;
pub mod commits;
pub mod going_on;
pub mod history;
pub mod patterns;
pub mod plan;
pub mod recorded;
pub mod renames;
pub mod tallies;
pub mod told;
