//! apkg: a universal package-metadata aggregator.
//!
//! Per-source adapters map upstream schemas (AUR JSON fields, Debian
//! control stanzas, Flatpak tab-separated listings) into one canonical
//! package record, and an in-memory store merges the records by name,
//! answers searches, computes statistics, and round-trips through a
//! textual snapshot.

pub mod adapters;
pub mod model;
pub mod snapshot;
pub mod store;
pub mod text;
