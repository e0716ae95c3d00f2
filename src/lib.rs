//! A proof-of-work ledger: canonical block encoding and hashing, the nonce
//! search, the in-memory chain store, the on-disk record format and the
//! replay of stored records into a chain.

pub mod bytes;
pub mod api;
pub mod block;
pub mod chain;
pub mod flush;
pub mod record;
pub mod replay;
pub mod storage;
pub mod trusted;
