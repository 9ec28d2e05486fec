//! The policy as data: pattern lists per action and per kind.
use crate::text::strings;
use vstd::prelude::*;

verus! {

/// A filesystem path pattern; `*` stands for one segment, `**` for any depth.
#[derive(Debug, Clone, PartialEq, Eq)]
pub struct PathPattern(pub String);

/// A host pattern: `*`, `*.suffix`, or an exact host.
#[derive(Debug, Clone, PartialEq, Eq)]
pub struct HostPattern(pub String);

#[derive(Debug, Clone, PartialEq, Eq)]
pub struct FilesystemRules {
    pub read: Vec<PathPattern>,
    pub write: Vec<PathPattern>,
    pub delete: Vec<PathPattern>,
    pub create: Vec<PathPattern>,
}

#[derive(Debug, Clone, PartialEq, Eq)]
pub struct FilesystemPolicy {
    pub allow: FilesystemRules,
    pub ask: FilesystemRules,
    pub deny: FilesystemRules,
}

#[derive(Debug, Clone, PartialEq, Eq)]
pub struct ProcessPolicy {
    pub allow: Vec<String>,
    pub ask: Vec<String>,
    pub deny: Vec<String>,
    pub scope: Vec<PathPattern>,
}

#[derive(Debug, Clone, PartialEq, Eq)]
pub struct NetworkPolicy {
    pub allow: Vec<HostPattern>,
    pub ask: Vec<HostPattern>,
    pub deny: Vec<HostPattern>,
}

#[derive(Debug, Clone, PartialEq, Eq)]
pub struct Policy {
    pub filesystem: FilesystemPolicy,
    pub process: ProcessPolicy,
    pub network: NetworkPolicy,
}

/// The texts of a list of path patterns.
pub open spec fn path_texts(v: Seq<PathPattern>) -> Seq<Seq<char>> {
    v.map_values(|p: PathPattern| p.0@)
}

/// The texts of a list of host patterns.
pub open spec fn host_texts(v: Seq<HostPattern>) -> Seq<Seq<char>> {
    v.map_values(|p: HostPattern| p.0@)
}

#[verifier::ext_equal]
pub struct RulesView {
    pub read: Seq<Seq<char>>,
    pub write: Seq<Seq<char>>,
    pub delete: Seq<Seq<char>>,
    pub create: Seq<Seq<char>>,
}

#[verifier::ext_equal]
pub struct FilesystemView {
    pub allow: RulesView,
    pub ask: RulesView,
    pub deny: RulesView,
}

#[verifier::ext_equal]
pub struct ProcessView {
    pub allow: Seq<Seq<char>>,
    pub ask: Seq<Seq<char>>,
    pub deny: Seq<Seq<char>>,
    pub scope: Seq<Seq<char>>,
}

#[verifier::ext_equal]
pub struct NetworkView {
    pub allow: Seq<Seq<char>>,
    pub ask: Seq<Seq<char>>,
    pub deny: Seq<Seq<char>>,
}

/// The abstract value of a policy: every list as a sequence of texts.
#[verifier::ext_equal]
pub struct PolicyView {
    pub filesystem: FilesystemView,
    pub process: ProcessView,
    pub network: NetworkView,
}

impl View for FilesystemRules {
    type V = RulesView;

    open spec fn view(&self) -> RulesView {
        RulesView {
            read: path_texts(self.read@),
            write: path_texts(self.write@),
            delete: path_texts(self.delete@),
            create: path_texts(self.create@),
        }
    }
}

impl View for FilesystemPolicy {
    type V = FilesystemView;

    open spec fn view(&self) -> FilesystemView {
        FilesystemView { allow: self.allow@, ask: self.ask@, deny: self.deny@ }
    }
}

impl View for ProcessPolicy {
    type V = ProcessView;

    open spec fn view(&self) -> ProcessView {
        ProcessView {
            allow: strings(self.allow@),
            ask: strings(self.ask@),
            deny: strings(self.deny@),
            scope: path_texts(self.scope@),
        }
    }
}

impl View for NetworkPolicy {
    type V = NetworkView;

    open spec fn view(&self) -> NetworkView {
        NetworkView {
            allow: host_texts(self.allow@),
            ask: host_texts(self.ask@),
            deny: host_texts(self.deny@),
        }
    }
}

impl View for Policy {
    type V = PolicyView;

    open spec fn view(&self) -> PolicyView {
        PolicyView {
            filesystem: self.filesystem@,
            process: self.process@,
            network: self.network@,
        }
    }
}

pub open spec fn empty_rules() -> RulesView {
    RulesView {
        read: Seq::empty(),
        write: Seq::empty(),
        delete: Seq::empty(),
        create: Seq::empty(),
    }
}

/// Each list of `a` followed by the same list of `b`.
pub open spec fn rules_concat(a: RulesView, b: RulesView) -> RulesView {
    RulesView {
        read: a.read + b.read,
        write: a.write + b.write,
        delete: a.delete + b.delete,
        create: a.create + b.create,
    }
}

/// Every list of policy `a` followed by the same list of policy `b`.
pub open spec fn policy_concat(a: PolicyView, b: PolicyView) -> PolicyView {
    PolicyView {
        filesystem: FilesystemView {
            allow: rules_concat(a.filesystem.allow, b.filesystem.allow),
            ask: rules_concat(a.filesystem.ask, b.filesystem.ask),
            deny: rules_concat(a.filesystem.deny, b.filesystem.deny),
        },
        process: ProcessView {
            allow: a.process.allow + b.process.allow,
            ask: a.process.ask + b.process.ask,
            deny: a.process.deny + b.process.deny,
            scope: a.process.scope + b.process.scope,
        },
        network: NetworkView {
            allow: a.network.allow + b.network.allow,
            ask: a.network.ask + b.network.ask,
            deny: a.network.deny + b.network.deny,
        },
    }
}

/// The view of the empty policy, which denies everything.
pub open spec fn empty_policy() -> PolicyView {
    PolicyView {
        filesystem: FilesystemView {
            allow: empty_rules(),
            ask: empty_rules(),
            deny: empty_rules(),
        },
        process: ProcessView {
            allow: Seq::empty(),
            ask: Seq::empty(),
            deny: Seq::empty(),
            scope: Seq::empty(),
        },
        network: NetworkView { allow: Seq::empty(), ask: Seq::empty(), deny: Seq::empty() },
    }
}

impl Default for FilesystemRules {
    fn default() -> (r: Self)
        ensures
            r@ == empty_rules(),
    {
        let r = FilesystemRules {
            read: Vec::new(),
            write: Vec::new(),
            delete: Vec::new(),
            create: Vec::new(),
        };
        assert(r@ =~= empty_rules());
        r
    }
}

impl Default for FilesystemPolicy {
    fn default() -> (r: Self)
        ensures
            r@ == empty_policy().filesystem,
    {
        FilesystemPolicy {
            allow: FilesystemRules::default(),
            ask: FilesystemRules::default(),
            deny: FilesystemRules::default(),
        }
    }
}

impl Default for ProcessPolicy {
    fn default() -> (r: Self)
        ensures
            r@ == empty_policy().process,
    {
        let r = ProcessPolicy {
            allow: Vec::new(),
            ask: Vec::new(),
            deny: Vec::new(),
            scope: Vec::new(),
        };
        assert(r@ =~= empty_policy().process);
        r
    }
}

impl Default for NetworkPolicy {
    fn default() -> (r: Self)
        ensures
            r@ == empty_policy().network,
    {
        let r = NetworkPolicy { allow: Vec::new(), ask: Vec::new(), deny: Vec::new() };
        assert(r@ =~= empty_policy().network);
        r
    }
}

impl Default for Policy {
    fn default() -> (r: Self)
        ensures
            r@ == empty_policy(),
    {
        Policy {
            filesystem: FilesystemPolicy::default(),
            process: ProcessPolicy::default(),
            network: NetworkPolicy::default(),
        }
    }
}

} // verus!
