//! Approval of requests that a policy marks `ask`.
use crate::engine::request::NiteraRequest;
use vstd::prelude::*;

verus! {

/// A decision returned by an approval handler.
#[derive(Debug, Clone, Copy, PartialEq, Eq, Structural)]
pub enum ApprovalDecision {
    Approved,
    Denied,
}

/// Handles requests that match an `ask` policy rule. Nothing is assumed of
/// what a handler answers: the library's contracts hold for either answer.
pub trait ApprovalHandler: Send + Sync {
    fn approve(&self, request: &NiteraRequest) -> ApprovalDecision;
}

} // verus!
