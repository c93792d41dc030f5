//! Reconciliation engine for keeping a remote set of localization terms in
//! sync with a locally edited translation file.
//!
//! The engine compares three snapshots of the same key/value set — the local
//! file, the current remote state, and an optional historical baseline — and
//! decides, per term, which remote mutation (add, update, remove) is correct.
//! It is a pure computation over in-memory data; fetching the snapshots and
//! executing the resulting actions are left to the surrounding application.

pub mod config;
pub mod layout;
pub mod local;
pub mod merge;
pub mod order;
pub mod remote;
pub mod sort;
pub mod updater;
