//! Persistence layer for a mirror-synchronisation fleet manager: worker
//! registrations and per-worker mirror sync statuses, stored through a
//! bucketed key-value engine.
pub mod msg;
pub mod codec;
pub mod error;
pub mod kv;
pub mod adapter;
pub mod factory;
pub mod laws;
