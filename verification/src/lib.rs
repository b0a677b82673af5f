//! Fleet-status scanning for a directory of repository checkouts.
//!
//! The library holds the verified core of the scanner: classifying
//! branches by their upstream state, assembling a per-repository
//! status, partitioning and sorting the collected outcomes, and
//! rendering the final report. Repository inspection itself is
//! filesystem work and lives outside the library.

pub mod branch;
pub mod laws;
pub mod order;
pub mod render;
pub mod report;
pub mod scan;
pub mod status;
