//! A minimal distributed ledger: an append-only chain of blocks secured by
//! proof-of-work, a derived index of unspent transaction outputs used for
//! balances and spendable-fund selection, and the message codec and state
//! machine of the peer synchronization protocol. Every function here carries
//! a contract checked by the verifier; argument parsing, storage and sockets
//! live outside the library.

pub mod block;
pub mod blockchain;
pub mod cli;
pub mod codec;
pub mod errors;
pub mod hashing;
pub mod server;
pub mod transaction;
pub mod tx;
pub mod utxoset;

pub use errors::Error;
