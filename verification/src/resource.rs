use vstd::prelude::*;

verus! {

/// Defines the core requirements for a system-managed object.
///
/// Any entity managed by the reconciliation engine has a deterministic
/// identity and verifiable state types.
pub trait Resource: Send + Sync + 'static {
    /// The desired state configuration (the "what").
    type Spec: Send + Sync + Clone;

    /// The current observed state of the infrastructure (the "is").
    type Status: Send + Sync + Clone;

    /// Returns a unique identifier for the resource instance.
    /// Used by the work queue and the store to prevent duplicate processing.
    fn key(&self) -> String;
}

} // verus!
