//! Content-addressed resource storage: identifiers derived from content,
//! append-only entry records with integrity checksums, and the storage
//! operations built on them.

pub mod checksum;
pub mod hex;
pub mod resource_id;
pub mod format;
pub mod record;
pub mod backend;
pub mod storage;
pub mod insert;
