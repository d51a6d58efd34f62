//! Storage and tenancy substrate for a wallet that belongs to several
//! independent federations at once: a transactional in-memory key-value
//! store with prefix scans and a savepoint, a namespacing scheme that gives
//! the registry and every federation a disjoint keyspace inside one store,
//! deterministic per-federation secret derivation from one root mnemonic,
//! a federation registry with one-time-join semantics, and a small state
//! machine that tracks a payment operation to a terminal state.

pub mod invite;
pub mod kv;
pub mod namespace;
pub mod order;
pub mod records;
pub mod registry;
pub mod secrets;
pub mod text;
pub mod tracker;
