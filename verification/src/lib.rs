//! Sealing of certified events into a tamper-evident, strictly ordered,
//! append-only ledger.
//!
//! Every accepted event receives a unique sequence number, is bound to all
//! earlier events through a hash chain, and is written to a replicated
//! key-value store. The decisions of that pipeline live here as verified
//! functions; the conversation with the store itself is left to the caller.
//!
//! - [`crypto`]: the in-memory hash chain.
//! - [`sealing`]: the chain-extension hash and the sealed record.
//! - [`counter`]: the keys of the store and the value of the shared counter.
//! - [`store`]: the requests to the store and its replies.
//! - [`ledger`]: the seal operation, step by step.
//! - [`server`]: the answers of the service.
//! - [`model`] and [`laws`]: the store and concurrent seal operations as
//!   mathematical objects, and what is proved of them.

pub mod counter;
pub mod crypto;
pub mod laws;
pub mod ledger;
pub mod model;
pub mod sealing;
pub mod server;
pub mod store;
