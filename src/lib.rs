//! A filesystem snapshot store: content-addressed objects, manifests that map
//! relative paths to digests, an append-only history of snapshots, and the
//! capture, diff, revert and prune algorithms over them.
//!
//! The library works on in-memory values. The program around it walks the
//! directory tree, reads and writes files, and hands plain values in and out.
pub mod capture;
pub mod cat;
pub mod diff;
pub mod digest;
pub mod error;
pub mod filter;
pub mod history;
pub mod manifest;
pub mod module;
pub mod options;
pub mod prune;
pub mod revert;
pub mod store;
pub mod text;
