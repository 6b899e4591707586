//! Resolution of absolute file paths from a master file table (MFT) whose
//! records store only a name and a back-reference to their parent record.
//!
//! The crate provides:
//! - a stable 64-bit file identity packed from a record number and a
//!   reuse-sequence number,
//! - two interchangeable path caches (hash-keyed and index-addressed) behind
//!   one capability trait,
//! - the ancestor-chain walk that assembles a record's absolute path, with
//!   and without memoization.

pub mod cache;
pub mod file_info;
pub mod mft;
pub mod path_spec;
