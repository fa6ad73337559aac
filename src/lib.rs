//! An address-oriented index of the Bitcoin chain: a decoder from raw
//! transactions to per-transaction summaries, and a storage engine that
//! commits one block at a time, resolving each spent input through a cache
//! of earlier outputs.
pub mod codec;
pub mod model;
pub mod indexer;
pub mod sleddb;
pub mod decode;
pub mod address_indexer;
pub mod laws;
