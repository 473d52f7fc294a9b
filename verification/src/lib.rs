//! Portable primitives for agentskills.io-style skill bundles.
//!
//! The library owns the host-independent parts of skill handling: document
//! splitting, metadata normalization, collision precedence, resource path
//! policy, bundle validation and digests, and install URL hardening. Reading a
//! resource and installing a bundle are state machines whose steps a
//! filesystem driver carries out. Touching the filesystem, YAML/JSON decoding
//! into the library's types and DNS lookups are left to the embedding host.

pub mod bundle;
pub mod discovery;
pub mod document;
pub mod install;
pub mod materialize;
pub mod model;
pub mod resource;
pub mod resource_read;
pub mod text;
