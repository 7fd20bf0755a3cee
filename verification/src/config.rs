//! The desired configuration of one deployment target.

use vstd::prelude::*;

verus! {

/// The declared target state that a convergence run drives the remote
/// system towards. Loaded once per deployment and never mutated while
/// the run is in progress.
pub struct Config {
    /// The desired buildpack identifiers, in order.
    pub buildpacks: Vec<String>,
    /// The identifier of the application to reconcile.
    pub app: String,
    /// The desired addon identifiers, as a set: order carries no
    /// meaning and duplicates add nothing.
    pub addons: Vec<String>,
}

} // verus!
