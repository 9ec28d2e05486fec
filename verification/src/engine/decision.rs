use vstd::prelude::*;

verus! {

/// The outcome of evaluating a request against a policy.
#[derive(Debug, Clone, Copy, PartialEq, Eq, Structural)]
pub enum Decision {
    Allow,
    Deny,
    Ask,
}

} // verus!
