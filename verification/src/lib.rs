//! A sandboxed, quota-aware virtual filesystem.
//!
//! The crate models a single host directory tree (`Disk`), anchors a
//! `Filesystem` at one canonical root inside it, and layers per-user
//! scoping (`UserScopedFS`) on top.  Every operation takes a
//! caller-supplied relative path, resolves it lexically against the
//! root, and rejects any path whose normal form would escape the root
//! before anything else happens.

pub mod paths;
pub mod config;
pub mod data_response;
pub mod disk;
pub mod filesystem;
pub mod fs_schema;
pub mod laws;
pub mod meta_info;
pub mod resolve;
pub mod user_scope;
