//! The policy engine as a value: a prepared policy, its root directory and
//! an optional approval handler for `ask` rules.
use crate::approval::{ApprovalDecision, ApprovalHandler};
use crate::engine::decision::Decision;
use crate::engine::request::NiteraRequest;
use crate::policy::evaluate::evaluation;
use crate::policy::model::{Policy, PolicyView};
use crate::policy::parser::ParseError;
use crate::policy::prepared::PreparedPolicy;
use crate::text::{chars_eq_str, opt_chars, to_chars};
use vstd::prelude::*;

verus! {

#[verifier::external_type_specification]
#[verifier::external_body]
pub struct ExIoError(std::io::Error);

/// Errors produced while performing a policy-controlled operation.
#[derive(Debug)]
pub enum NiteraOperationError {
    /// The policy denied the request, or an approval handler did.
    Denied,
    /// The policy asks for approval and no handler is registered.
    Ask(NiteraRequest),
    /// The operation itself failed after authorization.
    Io(std::io::Error),
    /// `create` found the path already taken (after authorization).
    AlreadyExists(String),
}

/// Errors produced while loading a policy.
#[derive(Debug)]
pub enum NiteraError {
    /// The file is neither named `.nitera` nor has the `nitera` extension.
    InvalidPolicyFile,
    /// The file could not be read, or its directory not resolved.
    Io(std::io::Error),
    /// The file's contents are not a valid policy.
    Parse(ParseError),
}

/// The handler of an engine without one; never consulted, and it would
/// refuse every request if it were.
pub struct NoApproval;

impl ApprovalHandler for NoApproval {
    fn approve(&self, request: &NiteraRequest) -> (d: ApprovalDecision)
        ensures
            d == ApprovalDecision::Denied,
    {
        ApprovalDecision::Denied
    }
}

/// The operation was refused.
pub open spec fn is_denied(r: Result<(), NiteraOperationError>) -> bool {
    r matches Err(NiteraOperationError::Denied)
}

/// The request is handed back for a decision nobody was registered to make.
pub open spec fn hands_back(r: Result<(), NiteraOperationError>, request: crate::engine::request::RequestView) -> bool {
    r matches Err(NiteraOperationError::Ask(q)) && q@ == request
}

/// What authorization yields for a policy decision and, for `ask`, the
/// handler's answer (`None` when no handler is registered).
pub open spec fn authorization_outcome(
    decision: Decision,
    approval: Option<ApprovalDecision>,
    request: crate::engine::request::RequestView,
    result: Result<(), NiteraOperationError>,
) -> bool {
    match decision {
        Decision::Allow => result is Ok,
        Decision::Deny => result matches Err(NiteraOperationError::Denied),
        Decision::Ask => match approval {
            Some(ApprovalDecision::Approved) => result is Ok,
            Some(ApprovalDecision::Denied) => result matches Err(NiteraOperationError::Denied),
            None => result matches Err(NiteraOperationError::Ask(q)) && q@ == request,
        },
    }
}

/// A deny is final: whatever a handler would answer, the operation is
/// refused.
pub proof fn lemma_deny_is_final(
    approval: Option<ApprovalDecision>,
    request: crate::engine::request::RequestView,
    r: Result<(), NiteraOperationError>,
)
    requires
        authorization_outcome(Decision::Deny, approval, request, r),
    ensures
        is_denied(r),
{
}

/// A handler's answer counts only for `ask`: after `allow` or `deny` the
/// outcome is the same whatever the handler would answer, or without one.
pub proof fn lemma_handler_only_for_ask(
    decision: Decision,
    a1: Option<ApprovalDecision>,
    a2: Option<ApprovalDecision>,
    request: crate::engine::request::RequestView,
    r1: Result<(), NiteraOperationError>,
    r2: Result<(), NiteraOperationError>,
)
    requires
        decision != Decision::Ask,
        authorization_outcome(decision, a1, request, r1),
        authorization_outcome(decision, a2, request, r2),
    ensures
        r1 == r2,
{
    if decision == Decision::Allow {
        let (u1, u2) = (r1->Ok_0, r2->Ok_0);
        assert(u1 == u2);
        assert(r1 == Ok::<(), NiteraOperationError>(u1));
        assert(r2 == Ok::<(), NiteraOperationError>(u2));
    }
}

/// Turns a decision and an optional approval into the operation's outcome:
/// `allow` proceeds, `deny` is refused whatever a handler would say, and
/// `ask` follows the handler or, without one, hands the request back.
pub fn authorization(
    decision: Decision,
    approval: Option<ApprovalDecision>,
    request: &NiteraRequest,
) -> (r: Result<(), NiteraOperationError>)
    ensures
        authorization_outcome(decision, approval, request@, r),
{
    match decision {
        Decision::Allow => Ok(()),
        Decision::Deny => Err(NiteraOperationError::Denied),
        Decision::Ask => match approval {
            Some(ApprovalDecision::Approved) => Ok(()),
            Some(ApprovalDecision::Denied) => Err(NiteraOperationError::Denied),
            None => Err(NiteraOperationError::Ask(request.duplicate())),
        },
    }
}

/// A policy engine: the policy prepared against its root directory, and an
/// optional handler for requests that the policy marks `ask`.
pub struct Nitera<H = NoApproval> {
    prepared: PreparedPolicy,
    approval_handler: Option<H>,
}

impl Nitera<NoApproval> {
    /// An engine for `policy`, whose relative paths and patterns resolve
    /// against `root`, with `~` resolved against `home`; no handler yet.
    pub fn new(policy: Policy, root: &str, home: Option<&str>) -> (r: Self)
        ensures
            r.policy() == policy@,
            r.root_dir() == root@,
            !r.has_handler(),
    {
        Nitera { prepared: PreparedPolicy::new(policy, root, home), approval_handler: None }
    }
}

impl<H: ApprovalHandler> Nitera<H> {
    /// The loaded policy.
    pub closed spec fn policy(self) -> PolicyView {
        self.prepared.policy()
    }

    /// The directory relative paths and patterns resolve against.
    pub closed spec fn root_dir(self) -> Seq<char> {
        self.prepared.base()
    }

    /// Whether an approval handler is registered.
    pub closed spec fn has_handler(self) -> bool {
        self.approval_handler is Some
    }

    /// The registered approval handler (meaningful when there is one).
    pub closed spec fn handler(self) -> H {
        self.approval_handler->Some_0
    }

    /// Registers the handler consulted for `ask` decisions.
    pub fn with_approval_handler<G: ApprovalHandler>(self, handler: G) -> (r: Nitera<G>)
        ensures
            r.policy() == self.policy(),
            r.root_dir() == self.root_dir(),
            r.has_handler(),
            r.handler() == handler,
    {
        Nitera { prepared: self.prepared, approval_handler: Some(handler) }
    }

    /// Whether an approval handler is registered.
    pub fn has_approval_handler(&self) -> (b: bool)
        ensures
            b == self.has_handler(),
    {
        self.approval_handler.is_some()
    }

    /// The root directory.
    pub fn root(&self) -> (r: String)
        ensures
            r@ == self.root_dir(),
    {
        self.prepared.base_text()
    }

    /// Evaluates a request against the loaded policy, with `home` the
    /// current home directory. No handler is consulted.
    pub fn check(&self, request: &NiteraRequest, home: Option<&str>) -> (d: Decision)
        ensures
            d == evaluation(self.policy(), request@, self.root_dir(), opt_chars(home)),
    {
        self.prepared.evaluate(request, home)
    }

    /// Authorizes a request: `allow` proceeds, `deny` is refused, `ask`
    /// asks the registered handler about this very request and follows its
    /// answer or, without a handler, returns the request in
    /// `NiteraOperationError::Ask`.
    pub fn authorize(&self, request: &NiteraRequest, home: Option<&str>) -> (r: Result<
        (),
        NiteraOperationError,
    >)
        ensures
            evaluation(self.policy(), request@, self.root_dir(), opt_chars(home)) == Decision::Allow
                ==> r is Ok,
            evaluation(self.policy(), request@, self.root_dir(), opt_chars(home)) == Decision::Deny
                ==> is_denied(r),
            evaluation(self.policy(), request@, self.root_dir(), opt_chars(home)) == Decision::Ask
                && !self.has_handler() ==> hands_back(r, request@),
            evaluation(self.policy(), request@, self.root_dir(), opt_chars(home)) == Decision::Ask
                && self.has_handler() ==> (r is Ok || is_denied(r)),
            evaluation(self.policy(), request@, self.root_dir(), opt_chars(home)) == Decision::Ask
                && self.has_handler() ==> exists|d: ApprovalDecision|
                #[trigger] call_ensures(H::approve, (&self.handler(), request), d) && (r is Ok <==> d
                    == ApprovalDecision::Approved) && (r is Err <==> d == ApprovalDecision::Denied),
    {
        let decision = self.check(request, home);
        let approval = match decision {
            Decision::Ask => match &self.approval_handler {
                Some(handler) => Some(handler.approve(request)),
                None => None,
            },
            _ => None,
        };
        authorization(decision, approval, request)
    }
}

/// The text after the last `.` of a file name, when there is such a dot
/// after the first character.
pub open spec fn extension(name: Seq<char>) -> Option<Seq<char>>
    decreases name.len(),
{
    if name.len() <= 1 {
        None
    } else if name.last() == '.' {
        Some(Seq::empty())
    } else {
        match extension(name.drop_last()) {
            Some(e) => Some(e.push(name.last())),
            None => None,
        }
    }
}

/// A policy file is named `.nitera` or has the extension `nitera`.
pub open spec fn policy_file_name(name: Seq<char>) -> bool {
    name == ".nitera"@ || (name != ".."@ && extension(name) == Some("nitera"@))
}

fn extension_chars(name: &[char]) -> (r: Option<Vec<char>>)
    ensures
        match (r, extension(name@)) {
            (Some(a), Some(b)) => a@ == b,
            (None, None) => true,
            _ => false,
        },
{
    let mut i = name.len();
    proof {
        assert(name@.subrange(0, name@.len() as int) =~= name@);
        if let Some(e) = extension(name@) {
            assert(e + name@.subrange(name@.len() as int, name@.len() as int) =~= e);
        }
    }
    while i > 1 && name[i - 1] != '.'
        invariant
            i <= name@.len(),
            extension(name@) == match extension(name@.subrange(0, i as int)) {
                Some(e) => Some(e + name@.subrange(i as int, name@.len() as int)),
                None => None,
            },
        decreases i,
    {
        let ghost pre = name@.subrange(0, i as int);
        assert(pre.drop_last() =~= name@.subrange(0, i - 1));
        assert(pre.last() == name@[i - 1]);
        proof {
            if let Some(e) = extension(name@.subrange(0, i - 1)) {
                assert(e.push(name@[i - 1]) + name@.subrange(i as int, name@.len() as int)
                    =~= e + name@.subrange(i - 1, name@.len() as int));
            }
        }
        i -= 1;
    }
    if i <= 1 {
        return None;
    }
    assert(name@.subrange(0, i as int).last() == '.');
    assert(Seq::<char>::empty() + name@.subrange(i as int, name@.len() as int) =~= name@.subrange(
        i as int,
        name@.len() as int,
    ));
    Some(crate::text::copy_range(name, i, name.len()))
}

/// Whether a file name names a policy file: exactly `.nitera`, or with the
/// extension `nitera`.
pub fn is_policy_file_name(name: &str) -> (b: bool)
    ensures
        b == policy_file_name(name@),
{
    let n = to_chars(name);
    if chars_eq_str(n.as_slice(), ".nitera") {
        return true;
    }
    if chars_eq_str(n.as_slice(), "..") {
        return false;
    }
    match extension_chars(n.as_slice()) {
        Some(e) => chars_eq_str(e.as_slice(), "nitera"),
        None => false,
    }
}

/// The directory of a policy file given its parent path: `.` for a bare
/// file name, whose parent is empty or missing.
pub fn policy_directory(parent: Option<&str>) -> (r: String)
    ensures
        match parent {
            Some(p) if p@.len() > 0 => r@ == p@,
            _ => r@ == "."@,
        },
{
    match parent {
        Some(p) if !p.is_empty() => p.to_owned(),
        _ => ".".to_owned(),
    }
}

} // verus!
