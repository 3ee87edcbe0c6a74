//! Range-based set reconciliation.
//!
//! Two peers holding ordered key/value sets exchange a logarithmic number of
//! messages whose total size is proportional to the symmetric difference
//! between their sets. Peers compare fingerprints over key ranges and
//! subdivide ranges whose fingerprints disagree until the ranges are small
//! enough to ship their contents literally.

pub mod entry;
pub mod fingerprint;
pub mod keys;
pub mod messages;
pub mod peer;
pub mod range;
pub mod store;
