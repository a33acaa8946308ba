//! A content-addressed, reference-counted blob database with a write-deferring
//! memory overlay on top of an ordered key-value table.
//!
//! Blobs are stored under their Keccak-256 digest, each with a count of the
//! references to it. Insertions and kills are staged in memory; a commit
//! applies them to the store, a revert drops them.
//!
//! - `hash`: digests and the digest function.
//! - `kvstore`: the ordered table that the store is kept in.
//! - `codec`: the stored form of a record.
//! - `blobstore`: records in a table, keyed by digest.
//! - `overlay`: the staging area.
//! - `overlaydb`: the database itself.
//! - `model`: the maps that the contracts speak of, and what each operation
//!   makes of them.
//! - `laws`: what holds of the database in every state.
//! - `assoc`: sequences of pairs read as maps, for the proofs.

pub mod assoc;
pub mod blobstore;
pub mod codec;
pub mod hash;
pub mod kvstore;
pub mod laws;
pub mod model;
pub mod overlay;
pub mod overlaydb;
