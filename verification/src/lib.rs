//! A content-addressed file deduplication engine.
//!
//! The library finds files with identical bytes and plans their replacement
//! by hard links, symbolic links or copy-on-write reflinks.  It keeps a
//! persistent path-to-digest cache between runs so unchanged files are not
//! hashed again.
//!
//! The caller (an ordinary, unverified binary) performs all filesystem work:
//! it reads file bytes, stats files for their size and identity, and executes
//! the planned link operations.  Every decision — which files to hash, how
//! cached digests are reused, how files are grouped by digest, which group
//! members are relinked and what the resulting statistics are — is made here,
//! by verified functions with explicit contracts.

pub mod applier;
pub mod cache;
pub mod codec;
pub mod digest;
pub mod error;
pub mod fileid;
pub mod finder;
pub mod globs;
pub mod logger;
pub mod strategy;
pub mod text;
