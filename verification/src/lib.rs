//! In-memory ledger for a locally operated, single-node blockchain simulator.
//!
//! The crate builds a protocol-consistent genesis block, appends validated
//! blocks to a strictly linear chain, tracks cumulative difficulty, reserves
//! sparse runs of future block numbers that are synthesized on demand, and
//! reverts chain history to an earlier block number.

pub mod u256;
pub mod hash;
pub mod spec_id;
pub mod block;
pub mod storage;
pub mod time;
pub mod validation;
pub mod local;
pub mod laws;
