//! Core of a duplicate-file detector: files are grouped by exact byte
//! length, fingerprinted in two tiers (a cheap hash over at most the first
//! 4096 bytes, promoted to a full-content hash only when the cheap hashes
//! collide), and consolidated into records that list every location holding
//! one piece of content.
//!
//! Reading bytes from disk is left to the caller: the resolver is an explicit
//! protocol that says which hashes it needs, and every decision made on the
//! returned values is verified here.

pub mod model;
pub mod record;
pub mod fingerprint;
pub mod resolve;
pub mod bucket;
pub mod partition;
pub mod stats;
pub mod laws;
