//! Container manifests: the `mounts` table, tmpfs sizes, resource references,
//! versions and the manifest-level checks, with their contracts.

pub mod chain;
pub mod chars;
pub mod counting;
pub mod decimal;
pub mod tmpfs;
pub mod resource;
pub mod version;
pub mod order;
pub mod path;
pub mod mounts;
pub mod keys;
pub mod manifest;
pub mod roundtrip;
