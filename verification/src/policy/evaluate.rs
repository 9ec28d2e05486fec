//! The decision algorithm: deny before ask before allow, deny by default.
use super::matcher::{host_match, lemma_home_subtree_matches, pattern_matches};
use super::path::{clean_segment, glob_any, rooted};
use super::model::{
    path_texts, host_texts, FilesystemView, HostPattern, NetworkView, PathPattern, Policy,
    PolicyView, ProcessView, RulesView,
};
use crate::engine::decision::Decision;
use crate::engine::request::{NiteraRequest, Operation, Resource, RequestView, Target, TargetView};
use crate::text::{join, opt_chars, strings};
use vstd::prelude::*;

verus! {

/// The most restrictive matching action wins; no match at all denies.
pub open spec fn precedence(deny: bool, ask: bool, allow: bool) -> Decision {
    if deny {
        Decision::Deny
    } else if ask {
        Decision::Ask
    } else if allow {
        Decision::Allow
    } else {
        Decision::Deny
    }
}

/// Some pattern of the list matches `path`.
pub open spec fn any_path_match(
    patterns: Seq<Seq<char>>,
    path: Seq<char>,
    base: Seq<char>,
    home: Option<Seq<char>>,
) -> bool {
    exists|i: int| 0 <= i < patterns.len() && #[trigger] pattern_matches(patterns[i], path, base, home)
}

/// Some pattern of the list matches `host`.
pub open spec fn any_host_match(patterns: Seq<Seq<char>>, host: Seq<char>) -> bool {
    exists|i: int| 0 <= i < patterns.len() && #[trigger] host_match(patterns[i], host)
}

/// The decision over three pattern lists for one path.
pub open spec fn path_decision(
    deny: Seq<Seq<char>>,
    ask: Seq<Seq<char>>,
    allow: Seq<Seq<char>>,
    path: Seq<char>,
    base: Seq<char>,
    home: Option<Seq<char>>,
) -> Decision {
    precedence(
        any_path_match(deny, path, base, home),
        any_path_match(ask, path, base, home),
        any_path_match(allow, path, base, home),
    )
}

/// The decision for a command run in `cwd`: outside every scope it is denied,
/// whatever the command lists say; inside, commands are compared exactly.
pub open spec fn process_decision(
    p: PolicyView,
    command: Seq<char>,
    cwd: Seq<char>,
    base: Seq<char>,
    home: Option<Seq<char>>,
) -> Decision {
    if !any_path_match(p.process.scope, cwd, base, home) {
        Decision::Deny
    } else {
        precedence(
            p.process.deny.contains(command),
            p.process.ask.contains(command),
            p.process.allow.contains(command),
        )
    }
}

/// `Policy::evaluate`: what the policy decides for a request, with relative
/// paths and patterns resolved against `base` and `~` against `home`.
/// A request whose resource, operation and target do not belong together is
/// denied.
pub open spec fn evaluation(
    p: PolicyView,
    r: RequestView,
    base: Seq<char>,
    home: Option<Seq<char>>,
) -> Decision {
    let fs = p.filesystem;
    match (r.resource, r.operation, r.target) {
        (Resource::Filesystem, Operation::Read, TargetView::Path(path)) => path_decision(
            fs.deny.read,
            fs.ask.read,
            fs.allow.read,
            path,
            base,
            home,
        ),
        (Resource::Filesystem, Operation::Write, TargetView::Path(path)) => path_decision(
            fs.deny.write,
            fs.ask.write,
            fs.allow.write,
            path,
            base,
            home,
        ),
        (Resource::Filesystem, Operation::Delete, TargetView::Path(path)) => path_decision(
            fs.deny.delete,
            fs.ask.delete,
            fs.allow.delete,
            path,
            base,
            home,
        ),
        (Resource::Filesystem, Operation::Create, TargetView::Create { path, kind: _ }) =>
            path_decision(fs.deny.create, fs.ask.create, fs.allow.create, path, base, home),
        (
            Resource::Process,
            Operation::Execute,
            TargetView::Process { command, args: _, cwd },
        ) => process_decision(p, command, cwd, base, home),
        (Resource::Network, Operation::Connect, TargetView::Network { host, port: _ }) => precedence(
            any_host_match(p.network.deny, host),
            any_host_match(p.network.ask, host),
            any_host_match(p.network.allow, host),
        ),
        _ => Decision::Deny,
    }
}

/// The request's resource, operation and target belong together.
pub open spec fn consistent(r: RequestView) -> bool {
    match (r.resource, r.operation, r.target) {
        (Resource::Filesystem, Operation::Read, TargetView::Path(_)) => true,
        (Resource::Filesystem, Operation::Write, TargetView::Path(_)) => true,
        (Resource::Filesystem, Operation::Delete, TargetView::Path(_)) => true,
        (Resource::Filesystem, Operation::Create, TargetView::Create { .. }) => true,
        (Resource::Process, Operation::Execute, TargetView::Process { .. }) => true,
        (Resource::Network, Operation::Connect, TargetView::Network { .. }) => true,
        _ => false,
    }
}

/// The filesystem rules of one action; a decision names the action whose
/// outcome it is.
pub open spec fn action_rules(fs: FilesystemView, action: Decision) -> RulesView {
    match action {
        Decision::Allow => fs.allow,
        Decision::Ask => fs.ask,
        Decision::Deny => fs.deny,
    }
}

/// The list of a filesystem operation.
pub open spec fn operation_rules(rules: RulesView, op: Operation) -> Seq<Seq<char>> {
    match op {
        Operation::Read => rules.read,
        Operation::Write => rules.write,
        Operation::Delete => rules.delete,
        _ => rules.create,
    }
}

/// The commands listed under one action.
pub open spec fn action_commands(p: ProcessView, action: Decision) -> Seq<Seq<char>> {
    match action {
        Decision::Allow => p.allow,
        Decision::Ask => p.ask,
        Decision::Deny => p.deny,
    }
}

/// The host patterns listed under one action.
pub open spec fn action_hosts(n: NetworkView, action: Decision) -> Seq<Seq<char>> {
    match action {
        Decision::Allow => n.allow,
        Decision::Ask => n.ask,
        Decision::Deny => n.deny,
    }
}

/// Some rule of `action` matches a consistent request: a path pattern of
/// the operation's list, the command itself, or a host pattern. Process
/// scopes are a separate condition (`in_scope`).
pub open spec fn rule_matches(
    p: PolicyView,
    r: RequestView,
    base: Seq<char>,
    home: Option<Seq<char>>,
    action: Decision,
) -> bool {
    consistent(r) && match r.target {
        TargetView::Path(path) => any_path_match(
            operation_rules(action_rules(p.filesystem, action), r.operation),
            path,
            base,
            home,
        ),
        TargetView::Create { path, kind: _ } => any_path_match(
            operation_rules(action_rules(p.filesystem, action), r.operation),
            path,
            base,
            home,
        ),
        TargetView::Process { command, args: _, cwd: _ } => action_commands(
            p.process,
            action,
        ).contains(command),
        TargetView::Network { host, port: _ } => any_host_match(action_hosts(p.network, action), host),
    }
}

/// A command's directory lies in some scope; other requests have no scope
/// to meet.
pub open spec fn in_scope(p: PolicyView, r: RequestView, base: Seq<char>, home: Option<Seq<char>>) -> bool {
    match r.target {
        TargetView::Process { command: _, args: _, cwd } => any_path_match(p.process.scope, cwd, base, home),
        _ => true,
    }
}

/// The most restrictive matching rule wins and nothing is allowed
/// implicitly: a matching deny rule denies; a request is asked exactly when
/// an ask rule and no deny rule matches it; it is allowed exactly when an
/// allow rule and neither an ask nor a deny rule matches it. A command also
/// needs its directory inside a scope for either.
pub proof fn lemma_most_restrictive_wins(p: PolicyView, r: RequestView, base: Seq<char>, home: Option<Seq<char>>)
    ensures
        rule_matches(p, r, base, home, Decision::Deny) ==> evaluation(p, r, base, home) == Decision::Deny,
        evaluation(p, r, base, home) == Decision::Ask <==> (in_scope(p, r, base, home) && !rule_matches(
            p,
            r,
            base,
            home,
            Decision::Deny,
        ) && rule_matches(p, r, base, home, Decision::Ask)),
        evaluation(p, r, base, home) == Decision::Allow <==> (in_scope(p, r, base, home)
            && !rule_matches(p, r, base, home, Decision::Deny) && !rule_matches(
            p,
            r,
            base,
            home,
            Decision::Ask,
        ) && rule_matches(p, r, base, home, Decision::Allow)),
{
}

/// Scope is checked first: a command run outside every scope is denied,
/// even when that exact command is allowed.
pub proof fn lemma_scope_checked_first(p: PolicyView, r: RequestView, base: Seq<char>, home: Option<Seq<char>>)
    requires
        r.target is Process,
        !in_scope(p, r, base, home),
    ensures
        evaluation(p, r, base, home) == Decision::Deny,
{
}

/// A request whose resource, operation and target do not belong together
/// is denied.
pub proof fn lemma_inconsistent_denied(p: PolicyView, r: RequestView, base: Seq<char>, home: Option<Seq<char>>)
    requires
        !consistent(r),
    ensures
        evaluation(p, r, base, home) == Decision::Deny,
{
}

/// Without a home directory, filesystem and process checks fail closed.
pub proof fn lemma_fail_closed_without_home(p: PolicyView, r: RequestView, base: Seq<char>)
    requires
        !(r.target is Network),
    ensures
        evaluation(p, r, base, None) == Decision::Deny,
{
}

/// A home-relative deny rule `~/x/.../**` follows the home directory given
/// at each check: a read at or below that directory of the current home is
/// denied, however broad the allow rules.
pub proof fn lemma_home_deny_follows_home(
    p: PolicyView,
    base: Seq<char>,
    hs: Seq<Seq<char>>,
    xs: Seq<Seq<char>>,
    ys: Seq<Seq<char>>,
    i: int,
)
    requires
        forall|j: int| 0 <= j < hs.len() ==> clean_segment(#[trigger] hs[j]),
        forall|j: int| 0 <= j < xs.len() ==> clean_segment(#[trigger] xs[j]),
        forall|j: int| 0 <= j < ys.len() ==> clean_segment(#[trigger] ys[j]),
        0 <= i < p.filesystem.deny.read.len(),
        p.filesystem.deny.read[i] == seq!['~', '/'] + join(xs.push(glob_any()), seq!['/']),
    ensures
        evaluation(
            p,
            RequestView {
                resource: Resource::Filesystem,
                operation: Operation::Read,
                target: TargetView::Path(rooted(hs + xs + ys)),
            },
            base,
            Some(rooted(hs)),
        ) == Decision::Deny,
{
    lemma_home_subtree_matches(hs, xs, ys, base);
    assert(pattern_matches(p.filesystem.deny.read[i], rooted(hs + xs + ys), base, Some(rooted(hs))));
}

/// Some pattern in `patterns` matches `path`.
pub fn any_path_matches(patterns: &[PathPattern], path: &str, base: &str, home: Option<&str>) -> (r:
    bool)
    ensures
        r == any_path_match(path_texts(patterns@), path@, base@, opt_chars(home)),
{
    let mut i: usize = 0;
    while i < patterns.len()
        invariant
            i <= patterns@.len(),
            forall|j: int|
                0 <= j < i ==> !#[trigger] pattern_matches(
                    path_texts(patterns@)[j],
                    path@,
                    base@,
                    opt_chars(home),
                ),
        decreases patterns.len() - i,
    {
        if patterns[i].matches_from(path, base, home) {
            assert(pattern_matches(path_texts(patterns@)[i as int], path@, base@, opt_chars(home)));
            return true;
        }
        i += 1;
    }
    false
}

/// Some pattern in `patterns` matches `host`.
pub fn any_host_matches(patterns: &[HostPattern], host: &str) -> (r: bool)
    ensures
        r == any_host_match(host_texts(patterns@), host@),
{
    let mut i: usize = 0;
    while i < patterns.len()
        invariant
            i <= patterns@.len(),
            forall|j: int| 0 <= j < i ==> !#[trigger] host_match(host_texts(patterns@)[j], host@),
        decreases patterns.len() - i,
    {
        if patterns[i].matches(host) {
            assert(host_match(host_texts(patterns@)[i as int], host@));
            return true;
        }
        i += 1;
    }
    false
}

/// `list` holds `item`.
pub fn contains_string(list: &[String], item: &String) -> (r: bool)
    ensures
        r == strings(list@).contains(item@),
{
    let mut i: usize = 0;
    while i < list.len()
        invariant
            i <= list@.len(),
            forall|j: int| 0 <= j < i ==> strings(list@)[j] != item@,
        decreases list.len() - i,
    {
        if list[i] == *item {
            assert(strings(list@)[i as int] == item@);
            return true;
        }
        i += 1;
    }
    false
}

/// The decision of the command lists alone.
pub fn command_decision(policy: &Policy, command: &String) -> (d: Decision)
    ensures
        d == precedence(
            policy.process@.deny.contains(command@),
            policy.process@.ask.contains(command@),
            policy.process@.allow.contains(command@),
        ),
{
    if contains_string(policy.process.deny.as_slice(), command) {
        Decision::Deny
    } else if contains_string(policy.process.ask.as_slice(), command) {
        Decision::Ask
    } else if contains_string(policy.process.allow.as_slice(), command) {
        Decision::Allow
    } else {
        Decision::Deny
    }
}

impl Policy {
    fn evaluate_path(
        path: &str,
        base: &str,
        home: Option<&str>,
        deny: &[PathPattern],
        ask: &[PathPattern],
        allow: &[PathPattern],
    ) -> (d: Decision)
        ensures
            d == path_decision(
                path_texts(deny@),
                path_texts(ask@),
                path_texts(allow@),
                path@,
                base@,
                opt_chars(home),
            ),
    {
        if any_path_matches(deny, path, base, home) {
            return Decision::Deny;
        }
        if any_path_matches(ask, path, base, home) {
            return Decision::Ask;
        }
        if any_path_matches(allow, path, base, home) {
            return Decision::Allow;
        }
        Decision::Deny
    }

    fn evaluate_host(host: &str, deny: &[HostPattern], ask: &[HostPattern], allow: &[HostPattern]) -> (d:
        Decision)
        ensures
            d == precedence(
                any_host_match(host_texts(deny@), host@),
                any_host_match(host_texts(ask@), host@),
                any_host_match(host_texts(allow@), host@),
            ),
    {
        if any_host_matches(deny, host) {
            return Decision::Deny;
        }
        if any_host_matches(ask, host) {
            return Decision::Ask;
        }
        if any_host_matches(allow, host) {
            return Decision::Allow;
        }
        Decision::Deny
    }

    /// Evaluates a request: relative paths and patterns are resolved against
    /// `base` and `~` against `home` (without a home directory no path
    /// pattern matches). `deny` wins over `ask`, `ask` over `allow`, and an
    /// unmatched request is denied.
    pub fn evaluate(&self, request: &NiteraRequest, base: &str, home: Option<&str>) -> (d: Decision)
        ensures
            d == evaluation(self@, request@, base@, opt_chars(home)),
    {
        let fs = &self.filesystem;
        match (&request.resource, &request.operation, &request.target) {
            (Resource::Filesystem, Operation::Read, Target::Path(path)) => Self::evaluate_path(
                path.as_str(),
                base,
                home,
                fs.deny.read.as_slice(),
                fs.ask.read.as_slice(),
                fs.allow.read.as_slice(),
            ),
            (Resource::Filesystem, Operation::Write, Target::Path(path)) => Self::evaluate_path(
                path.as_str(),
                base,
                home,
                fs.deny.write.as_slice(),
                fs.ask.write.as_slice(),
                fs.allow.write.as_slice(),
            ),
            (Resource::Filesystem, Operation::Delete, Target::Path(path)) => Self::evaluate_path(
                path.as_str(),
                base,
                home,
                fs.deny.delete.as_slice(),
                fs.ask.delete.as_slice(),
                fs.allow.delete.as_slice(),
            ),
            (Resource::Filesystem, Operation::Create, Target::Create { path, kind: _ }) =>
                Self::evaluate_path(
                path.as_str(),
                base,
                home,
                fs.deny.create.as_slice(),
                fs.ask.create.as_slice(),
                fs.allow.create.as_slice(),
            ),
            (Resource::Process, Operation::Execute, Target::Process { command, args: _, cwd }) => {
                if !any_path_matches(self.process.scope.as_slice(), cwd.as_str(), base, home) {
                    return Decision::Deny;
                }
                command_decision(self, command)
            },
            (Resource::Network, Operation::Connect, Target::Network { host, port: _ }) =>
                Self::evaluate_host(
                host.as_str(),
                self.network.deny.as_slice(),
                self.network.ask.as_slice(),
                self.network.allow.as_slice(),
            ),
            _ => Decision::Deny,
        }
    }
}

} // verus!
