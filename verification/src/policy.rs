//! What a build is allowed to reach.

use vstd::prelude::*;

verus! {

/// The permissions derived for one build from the commands it runs.
#[derive(Debug, PartialEq, Eq)]
pub struct BuildPolicy {
    /// Whether the build may use the network.
    pub network: bool,
    /// A digest that names the policy.
    pub fingerprint: String,
}

impl Clone for BuildPolicy {
    fn clone(&self) -> (r: Self)
        ensures
            r == *self,
    {
        BuildPolicy { network: self.network, fingerprint: self.fingerprint.clone() }
    }
}

} // verus!
