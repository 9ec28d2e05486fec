//! Requests: which resource is touched, how, and on what target.
use crate::text::{join, push_all, string_from_chars, strings, to_chars};
use vstd::prelude::*;

verus! {

#[derive(Debug, Clone, Copy, PartialEq, Eq, Structural)]
pub enum Resource {
    Filesystem,
    Process,
    Network,
}

#[derive(Debug, Clone, Copy, PartialEq, Eq, Structural)]
pub enum Operation {
    Read,
    Write,
    Delete,
    Create,
    Execute,
    Connect,
}

/// What a `create` request makes: a file or one directory level.
#[derive(Debug, Clone, Copy, PartialEq, Eq, Structural)]
pub enum CreateKind {
    File,
    Directory,
}

/// The object of a request. Paths are held as text.
#[derive(Debug, Clone, PartialEq, Eq)]
pub enum Target {
    Path(String),
    Create { path: String, kind: CreateKind },
    Process { command: String, args: Vec<String>, cwd: String },
    Network { host: String, port: u16 },
}

#[derive(Debug, Clone, PartialEq, Eq)]
pub struct NiteraRequest {
    pub resource: Resource,
    pub operation: Operation,
    pub target: Target,
}

/// The abstract value of a target: its text as character sequences.
pub enum TargetView {
    Path(Seq<char>),
    Create { path: Seq<char>, kind: CreateKind },
    Process { command: Seq<char>, args: Seq<Seq<char>>, cwd: Seq<char> },
    Network { host: Seq<char>, port: u16 },
}

impl View for Target {
    type V = TargetView;

    open spec fn view(&self) -> TargetView {
        match self {
            Target::Path(p) => TargetView::Path(p@),
            Target::Create { path, kind } => TargetView::Create { path: path@, kind: *kind },
            Target::Process { command, args, cwd } => TargetView::Process {
                command: command@,
                args: strings(args@),
                cwd: cwd@,
            },
            Target::Network { host, port } => TargetView::Network { host: host@, port: *port },
        }
    }
}

/// The abstract value of a request.
pub struct RequestView {
    pub resource: Resource,
    pub operation: Operation,
    pub target: TargetView,
}

impl View for NiteraRequest {
    type V = RequestView;

    open spec fn view(&self) -> RequestView {
        RequestView { resource: self.resource, operation: self.operation, target: self.target@ }
    }
}

/// Decimal digits of `n`, most significant first.
pub open spec fn decimal(n: nat) -> Seq<char>
    decreases n,
{
    if n < 10 {
        seq![digit_char(n)]
    } else {
        decimal(n / 10).push(digit_char(n % 10))
    }
}

pub open spec fn digit_char(d: nat) -> char {
    if d == 0 { '0' }
    else if d == 1 { '1' }
    else if d == 2 { '2' }
    else if d == 3 { '3' }
    else if d == 4 { '4' }
    else if d == 5 { '5' }
    else if d == 6 { '6' }
    else if d == 7 { '7' }
    else if d == 8 { '8' }
    else { '9' }
}

/// The human-readable label of a request whose operation and target agree;
/// `None` for a mismatched combination.
pub open spec fn label(r: RequestView) -> Option<Seq<char>> {
    match (r.operation, r.target) {
        (Operation::Read, TargetView::Path(p)) => Some("read "@ + p),
        (Operation::Write, TargetView::Path(p)) => Some("write "@ + p),
        (Operation::Delete, TargetView::Path(p)) => Some("delete "@ + p),
        (Operation::Create, TargetView::Create { path, kind }) => match kind {
            CreateKind::File => Some("Create file "@ + path),
            CreateKind::Directory => Some("Create directory "@ + path),
        },
        (Operation::Execute, TargetView::Process { command, args, cwd }) => if args.len() == 0 {
            Some("run `"@ + command + "` in "@ + cwd)
        } else {
            Some("run `"@ + command + " "@ + join(args, " "@) + "` in "@ + cwd)
        },
        (Operation::Connect, TargetView::Network { host, port }) => Some(
            "connect to "@ + host + ":"@ + decimal(port as nat),
        ),
        _ => None,
    }
}

fn digit(d: usize) -> (c: char)
    requires
        d < 10,
    ensures
        c == digit_char(d as nat),
{
    if d == 0 { '0' }
    else if d == 1 { '1' }
    else if d == 2 { '2' }
    else if d == 3 { '3' }
    else if d == 4 { '4' }
    else if d == 5 { '5' }
    else if d == 6 { '6' }
    else if d == 7 { '7' }
    else if d == 8 { '8' }
    else { '9' }
}

/// The decimal digits of `n`.
pub fn usize_decimal_chars(n: usize) -> (out: Vec<char>)
    ensures
        out@ == decimal(n as nat),
    decreases n,
{
    if n < 10 {
        let mut v = Vec::new();
        v.push(digit(n));
        v
    } else {
        let mut v = usize_decimal_chars(n / 10);
        v.push(digit(n % 10));
        v
    }
}

/// Copies a list of strings.
pub fn copy_strings(v: &[String]) -> (out: Vec<String>)
    ensures
        out@ == v@,
{
    let mut out: Vec<String> = Vec::new();
    let mut i: usize = 0;
    while i < v.len()
        invariant
            i <= v@.len(),
            out@ == v@.subrange(0, i as int),
        decreases v.len() - i,
    {
        out.push(v[i].clone());
        i += 1;
    }
    assert(v@.subrange(0, v@.len() as int) == v@);
    out
}

/// Owned copies of string slices.
fn owned_strings(v: &[&str]) -> (out: Vec<String>)
    ensures
        strings(out@) == v@.map_values(|s: &str| s@),
{
    let mut out: Vec<String> = Vec::new();
    let mut i: usize = 0;
    while i < v.len()
        invariant
            i <= v@.len(),
            strings(out@) =~= v@.subrange(0, i as int).map_values(|s: &str| s@),
        decreases v.len() - i,
    {
        let ghost prev = strings(out@);
        out.push(v[i].to_owned());
        assert(strings(out@) =~= prev.push(v@[i as int]@));
        assert(v@.subrange(0, i + 1).map_values(|s: &str| s@) =~= v@.subrange(0, i as int).map_values(|s: &str| s@).push(v@[i as int]@));
        i += 1;
    }
    assert(v@.subrange(0, v@.len() as int) == v@);
    out
}

fn join_chars(items: &[String], sep: &str) -> (out: Vec<char>)
    ensures
        out@ == join(strings(items@), sep@),
{
    let sepc = to_chars(sep);
    let mut out: Vec<char> = Vec::new();
    let mut i: usize = 0;
    while i < items.len()
        invariant
            i <= items@.len(),
            sepc@ == sep@,
            out@ == join(strings(items@.subrange(0, i as int)), sep@),
        decreases items.len() - i,
    {
        let ghost prev = strings(items@.subrange(0, i as int));
        let piece = to_chars(items[i].as_str());
        if i > 0 {
            push_all(&mut out, sepc.as_slice());
        }
        push_all(&mut out, piece.as_slice());
        proof {
            let next = strings(items@.subrange(0, i + 1));
            assert(next.drop_last() =~= prev);
            assert(next.last() == items@[i as int]@);
            if i == 0 {
                assert(next.len() == 1);
                assert(out@ =~= next[0]);
            }
        }
        i += 1;
    }
    assert(items@.subrange(0, items@.len() as int) == items@);
    out
}

impl NiteraRequest {
    /// A filesystem request on `path`.
    pub fn filesystem(operation: Operation, path: &str) -> (r: Self)
        ensures
            r.resource == Resource::Filesystem,
            r.operation == operation,
            r.target@ == TargetView::Path(path@),
    {
        NiteraRequest {
            resource: Resource::Filesystem,
            operation,
            target: Target::Path(path.to_owned()),
        }
    }

    /// A request to create a file or a directory at `path`.
    pub fn create(path: &str, kind: CreateKind) -> (r: Self)
        ensures
            r.resource == Resource::Filesystem,
            r.operation == Operation::Create,
            r.target@ == (TargetView::Create { path: path@, kind }),
    {
        NiteraRequest {
            resource: Resource::Filesystem,
            operation: Operation::Create,
            target: Target::Create { path: path.to_owned(), kind },
        }
    }

    /// A request to run `command` with `args` in the working directory `cwd`.
    pub fn process(command: &str, args: &[&str], cwd: &str) -> (r: Self)
        ensures
            r.resource == Resource::Process,
            r.operation == Operation::Execute,
            r.target@ == (TargetView::Process {
                command: command@,
                args: args@.map_values(|s: &str| s@),
                cwd: cwd@,
            }),
    {
        NiteraRequest {
            resource: Resource::Process,
            operation: Operation::Execute,
            target: Target::Process {
                command: command.to_owned(),
                args: owned_strings(args),
                cwd: cwd.to_owned(),
            },
        }
    }

    /// A request to connect to `host` on `port`.
    pub fn network(host: &str, port: u16) -> (r: Self)
        ensures
            r.resource == Resource::Network,
            r.operation == Operation::Connect,
            r.target@ == (TargetView::Network { host: host@, port }),
    {
        NiteraRequest {
            resource: Resource::Network,
            operation: Operation::Connect,
            target: Target::Network { host: host.to_owned(), port },
        }
    }

    /// A field-by-field copy of the request.
    pub fn duplicate(&self) -> (r: Self)
        ensures
            r@ == self@,
    {
        let target = match &self.target {
            Target::Path(p) => Target::Path(p.clone()),
            Target::Create { path, kind } => Target::Create { path: path.clone(), kind: *kind },
            Target::Process { command, args, cwd } => Target::Process {
                command: command.clone(),
                args: copy_strings(args.as_slice()),
                cwd: cwd.clone(),
            },
            Target::Network { host, port } => Target::Network { host: host.clone(), port: *port },
        };
        NiteraRequest { resource: self.resource, operation: self.operation, target }
    }

    /// The text shown to an approval handler, e.g. `read /tmp/a.txt` or
    /// ``run `cargo test` in /home/user/project``.
    pub fn describe(&self) -> (s: String)
        ensures
            label(self@) matches Some(l) ==> s@ == l,
    {
        let mut out: Vec<char>;
        match (&self.operation, &self.target) {
            (Operation::Read, Target::Path(p)) => {
                out = to_chars("read ");
                push_all(&mut out, to_chars(p.as_str()).as_slice());
            },
            (Operation::Write, Target::Path(p)) => {
                out = to_chars("write ");
                push_all(&mut out, to_chars(p.as_str()).as_slice());
            },
            (Operation::Delete, Target::Path(p)) => {
                out = to_chars("delete ");
                push_all(&mut out, to_chars(p.as_str()).as_slice());
            },
            (Operation::Create, Target::Create { path, kind }) => {
                match kind {
                    CreateKind::File => {
                        out = to_chars("Create file ");
                    },
                    CreateKind::Directory => {
                        out = to_chars("Create directory ");
                    },
                }
                push_all(&mut out, to_chars(path.as_str()).as_slice());
            },
            (Operation::Execute, Target::Process { command, args, cwd }) => {
                out = to_chars("run `");
                push_all(&mut out, to_chars(command.as_str()).as_slice());
                if args.len() > 0 {
                    push_all(&mut out, to_chars(" ").as_slice());
                    push_all(&mut out, join_chars(args.as_slice(), " ").as_slice());
                }
                push_all(&mut out, to_chars("` in ").as_slice());
                push_all(&mut out, to_chars(cwd.as_str()).as_slice());
            },
            (Operation::Connect, Target::Network { host, port }) => {
                out = to_chars("connect to ");
                push_all(&mut out, to_chars(host.as_str()).as_slice());
                push_all(&mut out, to_chars(":").as_slice());
                push_all(&mut out, usize_decimal_chars(*port as usize).as_slice());
            },
            _ => {
                return debug_description(&self.operation, &self.target);
            },
        }
        string_from_chars(out.as_slice())
    }
}

/// `format!("{:?} on {:?}", ..)` with the derived `Debug` of the operation and
/// the target, for a request whose operation and target do not belong
/// together. Nothing is claimed of the text.
#[verifier::external_body]
fn debug_description(operation: &Operation, target: &Target) -> String {
    format!("{:?} on {:?}", operation, target)
}

} // verus!
