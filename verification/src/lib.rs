//! Reconciliation of a remote deployment target's live configuration
//! (ordered buildpack list, addon set) with a declared desired
//! configuration.
//!
//! The core of the crate is a pair of pure decision functions: given a
//! freshly observed current state and the immutable desired state, each
//! returns the single next corrective action, or `None` once the two
//! agree. A driver applies the action against the remote system,
//! re-observes, and repeats; the proofs here show that every decided
//! action makes progress and that the loop converges within a bound.

pub mod actions;
pub mod addons;
pub mod buildpacks;
pub mod config;
pub mod ordered;
pub mod sets;
