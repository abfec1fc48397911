//! Derived data for a content-addressed changeset graph: the derivation
//! engine, the mappings that remember derived values, the two-tier cache in
//! front of the changeset store, and the derivation of file history records.
//!
//! The library computes and decides; it reads no store and writes none. What
//! it holds, it holds in memory: the mappings, the cache tiers and the store
//! of changeset entries that are here serve where nothing needs to last.

pub mod types;
pub mod admin;
pub mod blobstore;
pub mod cached_mapping;
pub mod caching;
pub mod changeset_entry;
pub mod changesets;
pub mod derive_impl;
pub mod error;
pub mod filenodes;
pub mod fsnodes;
pub mod generation;
pub mod id_lazy;
pub mod mapping;
pub mod remotestore;
pub mod text;
