//! Envelope recognition and reconciliation of gossiped blobs against
//! confirmed on-chain envelopes.
pub mod checkpoint;
pub mod indexer;
pub mod mempool;
pub mod parser;
pub mod store;
