//! Finds groups of files with identical content: a filter and a walk that
//! pick the candidates, digests that fingerprint them, a store that files
//! them by size and fingerprint, and an aggregator that lists the groups of
//! copies in a fixed order with the space they waste.

pub mod digest;
pub mod filter;
pub mod order;
pub mod report;
pub mod store;
pub mod walk;
