#![verifier::loop_isolation(false)]
//! Transaction fetcher for an Ethereum peer-to-peer networking layer.
//!
//! Peers announce the hashes of new pending transactions; the fetcher decides
//! from whom and when to download the transaction bodies.  It coalesces hashes
//! into size-bounded batches, enforces global and per-peer concurrency limits,
//! tracks inflight requests, and retries failed fetches a bounded number of
//! times.  Five coordinated tables (unknown hashes, buffered hashes, announced
//! sizes, active peers, inflight requests) are kept mutually consistent; the
//! consistency argument is stated in [`fetcher::TransactionFetcher::inv`] and
//! proved for every public operation.

pub mod buffer;
pub mod caches;
pub mod fetcher;
pub mod fill;
pub mod flight;
pub mod intake;
pub mod laws;
pub mod maps;
pub mod packing;
pub mod resolve;
pub mod seqs;
pub mod types;
