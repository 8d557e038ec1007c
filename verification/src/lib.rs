//! Building blocks of a reconciliation controller: resource identities,
//! a local key-value cache of resources and a de-duplicating work queue
//! of resource keys.
//!
//! Locking, waking of workers and channels live with the callers; the
//! types here hold the state that those primitives guard, with every
//! operation on it verified.

pub mod kv_store;
pub mod resource;
pub mod schedular;
