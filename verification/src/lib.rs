//! A library for collecting company annual reports: catalogs of document
//! records are fetched into a local destination tree, aggregated into
//! per-company summaries with year ranges and warning flags, and filtered
//! by metadata tags.
//!
//! The fetch-and-aggregate pipeline is modelled over an explicit destination
//! tree ([`disk::Disk`]); the decisions it takes (skip a path that is
//! already present, drop a record whose fetch failed, never leave a partial
//! file behind) are verified here, while the surrounding network and file
//! I/O lives outside the library.

pub mod data_structures;
pub mod disk;
pub mod pipeline;
pub mod text;
