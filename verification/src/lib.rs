//! Append-only ledger core: a committed block sequence together with the set
//! of currently unspent output hashes, grown one validated block at a time.
//!
//! The single mutating operation, [`chain::Blockchain::update_with_block`],
//! checks a candidate block in a fixed order — index continuity, proof of
//! work, chain linkage, temporal order, then double-spend-free value
//! conservation across the block's transactions — and either appends it
//! atomically or rejects it with one [`chain::BlockValidationError`], leaving
//! the ledger byte-for-byte as it was.  [`laws`] proves the chain-wide
//! accounting consequences.

pub mod block;
pub mod chain;
pub mod hashes;
pub mod laws;
pub mod pow;
