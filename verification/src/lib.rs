//! Storage core of a content-addressed file store.
//!
//! Files are split into chunks, each chunk is addressed by a CID (a
//! self-describing SHA-256 content identifier), a Merkle DAG is built over
//! the chunk CIDs, every node of the DAG is persisted in a key-value store
//! keyed by its canonical CID string, and the original bytes are recovered
//! from a root CID by a breadth-first traversal.

pub mod constants;
pub mod dag;
pub mod hashing;
pub mod helpers;
pub mod laws;
pub mod node_codec;
pub mod p2p_codec;
pub mod reassemble;
pub mod store;
