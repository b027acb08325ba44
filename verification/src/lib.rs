//! A height-versioned, Merkle-authenticated key-value store for a blockchain
//! ledger: for every committed block height it records the block's Merkle
//! root and store, the block hash, and the per-address application state
//! ("subspaces"), so that the state at any past height can be read back.

pub mod codec;
pub mod db;
pub mod engine;
pub mod error;
pub mod ibc;
pub mod keys;
pub mod laws;
pub mod model;
pub mod order;
pub mod recover;
pub mod types;
