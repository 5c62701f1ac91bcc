//! Route-structure resolution for a filesystem-routed web application.
//!
//! A directory layout of pages, layouts, boundaries and route handlers is
//! classified into typed segments, merged into a versioned route tree held
//! in an append-only store, matched against request paths, and assembled
//! into per-route manifests of contributing files. Every function is
//! verified against a mathematical model of the tree.

pub mod bytes;
pub mod error;
pub mod files;
pub mod segment;
pub mod store;
pub mod matcher;
pub mod graft;
pub mod loader;
pub mod snapshot;
pub mod builder;
pub mod manifest;
pub mod version;
pub mod router;
pub mod laws;
pub mod sound;
pub mod splice;
pub mod refresh;
