//! Per-ASN transit-hop frequency over globally observed BGP routes.
//!
//! Given the decoded routing-table records for one origin ASN and one
//! calendar day, the library keeps the admissible AS paths, deduplicates
//! them, counts for each upstream hop ASN the number of distinct paths that
//! traverse it — the origin itself, though it closes every path, is no
//! transit hop of its own routes and is not counted — and ranks the hops by
//! descending count with the fraction of paths each covers. Fetching dump
//! files and writing output stay with the caller.
pub mod count;
pub mod csv;
pub mod driver;
pub mod paths;
pub mod pipeline;
pub mod rank;
pub mod records;
