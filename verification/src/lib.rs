//! Weighted quorum aggregation of per-chain root hashes, a bounded
//! deduplicating cache of the agreed roots, Merkle inclusion proofs against
//! those roots, and an idempotency guard that reconciles a proof-gated fast
//! settlement path with an unconditional slow one.

pub mod aggregator;
pub mod digest;
pub mod errors;
pub mod fast_transfer;
pub mod fast_transfer_msg;
pub mod hex_codec;
pub mod light_client;
pub mod light_client_msg;
pub mod merkle;
pub mod root_cache;
pub mod types;
pub mod vote_codec;
