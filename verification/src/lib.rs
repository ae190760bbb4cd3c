//! Verified core of a contig-renaming pipeline for alignment (BAM-like) files.
//!
//! The library translates a header's sequence dictionary through a
//! name-translation table, builds the old-index-to-new-index map that keeps
//! alignment records consistent with the rewritten header, remaps or drops
//! individual records, and accounts for dropped records per contig.
//! Reading and writing the actual files is left to unverified callers, which
//! hand the library plain values.

pub mod bytes;
pub mod header;
pub mod index_map;
pub mod laws;
pub mod record;
pub mod stats;
pub mod table;
