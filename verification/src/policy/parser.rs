//! The `.nitera` policy format, read line by line.
use super::model::{
    empty_policy, host_texts, path_texts, policy_concat, rules_concat, FilesystemRules,
    HostPattern, PathPattern, Policy, PolicyView, RulesView,
};
use crate::text::{
    after_token, chars_eq_str, copy_range, is_whitespace, lemma_split_len, pieces, push_all,
    split, split_chars, string_from_chars, strings, take_token, to_chars, trim, trim_chars,
    trim_start, is_ws, free_of, lemma_split_append_sep,
};
use vstd::prelude::*;

verus! {

/// A policy that could not be parsed: the 1-based line and what is wrong.
#[derive(Debug, Clone, PartialEq, Eq)]
pub struct ParseError {
    pub line: usize,
    pub message: String,
}

impl ParseError {
    fn new(line: usize, message: &[char]) -> (e: Self)
        ensures
            e.line == line,
            e.message@ == message@,
    {
        ParseError { line, message: string_from_chars(message) }
    }

    /// `line {line}: {message}`, the text its `Display` shows.
    pub fn describe(&self) -> (s: String)
        ensures
            s@ == "line "@ + crate::engine::request::decimal(self.line as nat) + ": "@
                + self.message@,
    {
        let mut out = to_chars("line ");
        push_all(&mut out, crate::engine::request::usize_decimal_chars(self.line).as_slice());
        push_all(&mut out, to_chars(": ").as_slice());
        push_all(&mut out, to_chars(self.message.as_str()).as_slice());
        string_from_chars(out.as_slice())
    }
}

/// The section a rule line belongs to.
#[derive(Debug, Clone, Copy, PartialEq, Eq, Structural)]
pub enum Section {
    Filesystem,
    Process,
    Network,
}

/// A line with its comment removed and surrounding whitespace trimmed.
pub open spec fn line_text(raw: Seq<char>) -> Seq<char> {
    trim(split(raw, '#')[0])
}

/// A line of the form `[...]`.
pub open spec fn is_header(line: Seq<char>) -> bool {
    line.len() > 0 && line[0] == '[' && line.last() == ']'
}

pub open spec fn header_section(line: Seq<char>) -> Option<Section> {
    if line == "[filesystem]"@ {
        Some(Section::Filesystem)
    } else if line == "[process]"@ {
        Some(Section::Process)
    } else if line == "[network]"@ {
        Some(Section::Network)
    } else {
        None
    }
}

/// A rule line split into action, kind and values: the first two
/// whitespace-separated fields (runs of whitespace count as one separator)
/// and the trimmed rest of the line.
pub open spec fn rule_parts(line: Seq<char>) -> Result<(Seq<char>, Seq<char>, Seq<char>), Seq<char>> {
    let action = take_token(line);
    let rest = trim_start(after_token(line));
    if action.len() == 0 {
        Err("missing action"@)
    } else if rest.len() == 0 {
        Err("missing rule"@)
    } else {
        Ok((action, take_token(rest), trim(after_token(rest))))
    }
}

/// The trimmed, non-empty pieces of a comma-separated list.
pub open spec fn kept_values(parts: Seq<Seq<char>>) -> Seq<Seq<char>>
    decreases parts.len(),
{
    if parts.len() == 0 {
        Seq::empty()
    } else {
        let kept = kept_values(parts.drop_last());
        let t = trim(parts.last());
        if t.len() == 0 {
            kept
        } else {
            kept.push(t)
        }
    }
}

/// The values of a rule; at least one is required, else `missing`.
pub open spec fn rule_values(values: Seq<char>, missing: Seq<char>) -> Result<Seq<Seq<char>>, Seq<char>> {
    let v = kept_values(split(values, ','));
    if v.len() == 0 {
        Err(missing)
    } else {
        Ok(v)
    }
}

/// `allow`, `ask`, `deny` as 0, 1, 2.
pub open spec fn action_index(action: Seq<char>) -> Option<int> {
    if action == "allow"@ {
        Some(0)
    } else if action == "ask"@ {
        Some(1)
    } else if action == "deny"@ {
        Some(2)
    } else {
        None
    }
}

/// `read`, `write`, `delete`, `create` as 0, 1, 2, 3.
pub open spec fn kind_index(kind: Seq<char>) -> Option<int> {
    if kind == "read"@ {
        Some(0)
    } else if kind == "write"@ {
        Some(1)
    } else if kind == "delete"@ {
        Some(2)
    } else if kind == "create"@ {
        Some(3)
    } else {
        None
    }
}

pub open spec fn extend_kind(r: RulesView, kind: int, vals: Seq<Seq<char>>) -> RulesView {
    if kind == 0 {
        RulesView { read: r.read + vals, ..r }
    } else if kind == 1 {
        RulesView { write: r.write + vals, ..r }
    } else if kind == 2 {
        RulesView { delete: r.delete + vals, ..r }
    } else {
        RulesView { create: r.create + vals, ..r }
    }
}

/// A `[filesystem]` rule: `<allow|ask|deny> <read|write|delete|create> <paths>`.
pub open spec fn filesystem_rule(
    p: PolicyView,
    action: Seq<char>,
    kind: Seq<char>,
    values: Seq<char>,
) -> Result<PolicyView, Seq<char>> {
    match action_index(action) {
        None => Err("unknown action: "@ + action),
        Some(a) => match rule_values(values, "missing filesystem path"@) {
            Err(m) => Err(m),
            Ok(vals) => match kind_index(kind) {
                None => Err("unknown filesystem operation: "@ + kind),
                Some(k) => {
                    let fs = p.filesystem;
                    let fs2 = if a == 0 {
                        super::model::FilesystemView { allow: extend_kind(fs.allow, k, vals), ..fs }
                    } else if a == 1 {
                        super::model::FilesystemView { ask: extend_kind(fs.ask, k, vals), ..fs }
                    } else {
                        super::model::FilesystemView { deny: extend_kind(fs.deny, k, vals), ..fs }
                    };
                    Ok(PolicyView { filesystem: fs2, ..p })
                },
            },
        },
    }
}

/// A `[process]` rule: `allow scope <paths>` or
/// `<allow|ask|deny> command <names>`.
pub open spec fn process_rule(
    p: PolicyView,
    action: Seq<char>,
    kind: Seq<char>,
    values: Seq<char>,
) -> Result<PolicyView, Seq<char>> {
    let pr = p.process;
    if kind == "scope"@ {
        if action != "allow"@ {
            Err("scope can only use allow"@)
        } else {
            match rule_values(values, "missing process scope"@) {
                Err(m) => Err(m),
                Ok(vals) => Ok(
                    PolicyView {
                        process: super::model::ProcessView { scope: pr.scope + vals, ..pr },
                        ..p
                    },
                ),
            }
        }
    } else if kind == "command"@ {
        match rule_values(values, "missing process command"@) {
            Err(m) => Err(m),
            Ok(vals) => match action_index(action) {
                None => Err("unknown process action: "@ + action),
                Some(a) => {
                    let pr2 = if a == 0 {
                        super::model::ProcessView { allow: pr.allow + vals, ..pr }
                    } else if a == 1 {
                        super::model::ProcessView { ask: pr.ask + vals, ..pr }
                    } else {
                        super::model::ProcessView { deny: pr.deny + vals, ..pr }
                    };
                    Ok(PolicyView { process: pr2, ..p })
                },
            },
        }
    } else {
        Err("unknown process rule: "@ + kind)
    }
}

/// A `[network]` rule: `<allow|ask|deny> host <patterns>`. An unknown kind
/// is reported with the action's text.
pub open spec fn network_rule(
    p: PolicyView,
    action: Seq<char>,
    kind: Seq<char>,
    values: Seq<char>,
) -> Result<PolicyView, Seq<char>> {
    let n = p.network;
    if kind == "host"@ {
        match rule_values(values, "missing network host"@) {
            Err(m) => Err(m),
            Ok(vals) => match action_index(action) {
                None => Err("unknown network action: "@ + action),
                Some(a) => {
                    let n2 = if a == 0 {
                        super::model::NetworkView { allow: n.allow + vals, ..n }
                    } else if a == 1 {
                        super::model::NetworkView { ask: n.ask + vals, ..n }
                    } else {
                        super::model::NetworkView { deny: n.deny + vals, ..n }
                    };
                    Ok(PolicyView { network: n2, ..p })
                },
            },
        }
    } else {
        Err("unknown network rule: "@ + action)
    }
}

/// One cleaned line applied to the policy built so far.
pub open spec fn apply_line(p: PolicyView, section: Option<Section>, line: Seq<char>) -> Result<
    (PolicyView, Option<Section>),
    Seq<char>,
> {
    if line.len() == 0 {
        Ok((p, section))
    } else if is_header(line) {
        match header_section(line) {
            Some(s) => Ok((p, Some(s))),
            None => Err("unknown section: "@ + line),
        }
    } else {
        match section {
            None => Err("rule found before a section"@),
            Some(sec) => match rule_parts(line) {
                Err(m) => Err(m),
                Ok((action, kind, values)) => {
                    let r = match sec {
                        Section::Filesystem => filesystem_rule(p, action, kind, values),
                        Section::Process => process_rule(p, action, kind, values),
                        Section::Network => network_rule(p, action, kind, values),
                    };
                    match r {
                        Ok(p2) => Ok((p2, section)),
                        Err(m) => Err(m),
                    }
                },
            },
        }
    }
}

/// The policy after the given lines, or the first error with its 1-based
/// line number.
pub open spec fn parse_lines(lines: Seq<Seq<char>>) -> Result<(PolicyView, Option<Section>), (int, Seq<char>)>
    decreases lines.len(),
{
    if lines.len() == 0 {
        Ok((empty_policy(), None))
    } else {
        match parse_lines(lines.drop_last()) {
            Err(e) => Err(e),
            Ok((p, s)) => match apply_line(p, s, line_text(lines.last())) {
                Ok(r) => Ok(r),
                Err(m) => Err((lines.len() as int, m)),
            },
        }
    }
}

/// What `parse` yields for an input: the policy, or the first failing line
/// and its message.
pub open spec fn parsed(input: Seq<char>) -> Result<PolicyView, (int, Seq<char>)> {
    match parse_lines(split(input, '\n')) {
        Ok((p, _)) => Ok(p),
        Err(e) => Err(e),
    }
}

/// The first failing line decides: once a prefix of the lines fails, no
/// later line changes the error.
pub proof fn lemma_first_error_stays(lines: Seq<Seq<char>>, k: int)
    requires
        0 <= k <= lines.len(),
        parse_lines(lines.subrange(0, k)) is Err,
    ensures
        parse_lines(lines) == parse_lines(lines.subrange(0, k)),
    decreases lines.len() - k,
{
    if k == lines.len() {
        assert(lines.subrange(0, k) =~= lines);
    } else {
        assert(lines.drop_last().subrange(0, k) =~= lines.subrange(0, k));
        lemma_first_error_stays(lines.drop_last(), k);
    }
}

proof fn lemma_concat_empty(p: PolicyView)
    ensures
        policy_concat(p, empty_policy()) == p,
{
    assert(policy_concat(p, empty_policy()) =~= p);
}

proof fn lemma_extend_concat(a: RulesView, b: RulesView, k: int, vals: Seq<Seq<char>>)
    ensures
        extend_kind(rules_concat(a, b), k, vals) == rules_concat(a, extend_kind(b, k, vals)),
{
    assert(extend_kind(rules_concat(a, b), k, vals) =~= rules_concat(a, extend_kind(b, k, vals)));
}

/// A rule applies to a policy whose lists are preceded by those of `p1` as
/// it does without them: it fails the same way or extends the same lists.
proof fn lemma_rule_concat(p1: PolicyView, q: PolicyView, sec: Section, action: Seq<char>, kind: Seq<char>, values: Seq<char>)
    ensures
        ({
            let r = match sec {
                Section::Filesystem => filesystem_rule(q, action, kind, values),
                Section::Process => process_rule(q, action, kind, values),
                Section::Network => network_rule(q, action, kind, values),
            };
            let full = match sec {
                Section::Filesystem => filesystem_rule(policy_concat(p1, q), action, kind, values),
                Section::Process => process_rule(policy_concat(p1, q), action, kind, values),
                Section::Network => network_rule(policy_concat(p1, q), action, kind, values),
            };
            match r {
                Ok(q2) => full == Ok::<PolicyView, Seq<char>>(policy_concat(p1, q2)),
                Err(m) => full == Err::<PolicyView, Seq<char>>(m),
            }
        }),
{
    let c = policy_concat(p1, q);
    match sec {
        Section::Filesystem => {
            if let (Some(a), Ok(vals), Some(k)) = (
                action_index(action),
                rule_values(values, "missing filesystem path"@),
                kind_index(kind),
            ) {
                lemma_extend_concat(p1.filesystem.allow, q.filesystem.allow, k, vals);
                lemma_extend_concat(p1.filesystem.ask, q.filesystem.ask, k, vals);
                lemma_extend_concat(p1.filesystem.deny, q.filesystem.deny, k, vals);
                let q2 = filesystem_rule(q, action, kind, values)->Ok_0;
                assert(filesystem_rule(c, action, kind, values)->Ok_0 =~= policy_concat(p1, q2));
            }
        },
        Section::Process => {
            if process_rule(q, action, kind, values) is Ok {
                let q2 = process_rule(q, action, kind, values)->Ok_0;
                let vs = if kind == "scope"@ {
                    rule_values(values, "missing process scope"@)->Ok_0
                } else {
                    rule_values(values, "missing process command"@)->Ok_0
                };
                assert((p1.process.scope + q.process.scope) + vs =~= p1.process.scope + (q.process.scope + vs));
                assert((p1.process.allow + q.process.allow) + vs =~= p1.process.allow + (q.process.allow + vs));
                assert((p1.process.ask + q.process.ask) + vs =~= p1.process.ask + (q.process.ask + vs));
                assert((p1.process.deny + q.process.deny) + vs =~= p1.process.deny + (q.process.deny + vs));
                assert(process_rule(c, action, kind, values)->Ok_0 =~= policy_concat(p1, q2));
            }
        },
        Section::Network => {
            if network_rule(q, action, kind, values) is Ok {
                let q2 = network_rule(q, action, kind, values)->Ok_0;
                let vs = rule_values(values, "missing network host"@)->Ok_0;
                assert((p1.network.allow + q.network.allow) + vs =~= p1.network.allow + (q.network.allow + vs));
                assert((p1.network.ask + q.network.ask) + vs =~= p1.network.ask + (q.network.ask + vs));
                assert((p1.network.deny + q.network.deny) + vs =~= p1.network.deny + (q.network.deny + vs));
                assert(network_rule(c, action, kind, values)->Ok_0 =~= policy_concat(p1, q2));
            }
        },
    }
}

/// One line applied after the lines of another policy text: where it
/// succeeds on its own it succeeds there too, with the earlier lists kept in
/// front. Until the line's own text has named a section, the other text's
/// section may differ; a line that needs one fails on its own anyway.
proof fn lemma_apply_concat(
    p1: PolicyView,
    q: PolicyView,
    s: Option<Section>,
    s_full: Option<Section>,
    t: Seq<char>,
)
    requires
        apply_line(q, s, t) is Ok,
        s is Some ==> s_full == s,
    ensures
        apply_line(policy_concat(p1, q), s_full, t) is Ok,
        apply_line(policy_concat(p1, q), s_full, t)->Ok_0.0 == policy_concat(
            p1,
            apply_line(q, s, t)->Ok_0.0,
        ),
        apply_line(q, s, t)->Ok_0.1 is Some ==> apply_line(policy_concat(p1, q), s_full, t)->Ok_0.1
            == apply_line(q, s, t)->Ok_0.1,
{
    if t.len() > 0 && !is_header(t) {
        let sec = s->Some_0;
        if let Ok((action, kind, values)) = rule_parts(t) {
            lemma_rule_concat(p1, q, sec, action, kind, values);
        }
    }
}

proof fn lemma_concat_prefix(a: Seq<Seq<char>>, b: Seq<Seq<char>>, p1: PolicyView, k: int)
    requires
        parse_lines(a) is Ok,
        parse_lines(a)->Ok_0.0 == p1,
        parse_lines(b) is Ok,
        0 <= k <= b.len(),
    ensures
        parse_lines(b.take(k)) is Ok,
        parse_lines(a + b.take(k)) is Ok,
        parse_lines(a + b.take(k))->Ok_0.0 == policy_concat(p1, parse_lines(b.take(k))->Ok_0.0),
        parse_lines(b.take(k))->Ok_0.1 is Some ==> parse_lines(a + b.take(k))->Ok_0.1
            == parse_lines(b.take(k))->Ok_0.1,
    decreases k,
{
    if k == 0 {
        assert(a + b.take(0) =~= a);
        assert(b.take(0) =~= Seq::<Seq<char>>::empty());
        lemma_concat_empty(p1);
    } else {
        let j = k - 1;
        lemma_concat_prefix(a, b, p1, j);
        let bk = b.take(k);
        assert(bk.drop_last() =~= b.take(j));
        assert(bk.last() == b[j]);
        assert(b.subrange(0, k) =~= bk);
        if parse_lines(bk) is Err {
            lemma_first_error_stays(b, k);
        }
        let full = a + bk;
        assert(full.drop_last() =~= a + b.take(j));
        assert(full.last() == b[j]);
        let q = parse_lines(b.take(j))->Ok_0;
        let f = parse_lines(a + b.take(j))->Ok_0;
        lemma_apply_concat(p1, q.0, q.1, f.1, line_text(b[j]));
    }
}

/// Parsing two policy texts joined by a line break yields, in every list,
/// the entries of the first text followed by those of the second.
pub proof fn lemma_parse_concat(s1: Seq<char>, s2: Seq<char>, p1: PolicyView, p2: PolicyView)
    requires
        parsed(s1) == Ok::<PolicyView, (int, Seq<char>)>(p1),
        parsed(s2) == Ok::<PolicyView, (int, Seq<char>)>(p2),
    ensures
        parsed(s1 + seq!['\n'] + s2) == Ok::<PolicyView, (int, Seq<char>)>(policy_concat(p1, p2)),
{
    let a = split(s1, '\n');
    let b = split(s2, '\n');
    crate::text::lemma_split_concat(s1, s2, '\n');
    lemma_concat_prefix(a, b, p1, b.len() as int);
    assert(b.take(b.len() as int) =~= b);
}

/// Line lists with the same cleaned texts parse alike.
proof fn lemma_same_texts_same_parse(l1: Seq<Seq<char>>, l2: Seq<Seq<char>>)
    requires
        l1.len() == l2.len(),
        forall|i: int| 0 <= i < l1.len() ==> line_text(#[trigger] l1[i]) == line_text(l2[i]),
    ensures
        parse_lines(l1) == parse_lines(l2),
    decreases l1.len(),
{
    if l1.len() > 0 {
        let a = l1.drop_last();
        let b = l2.drop_last();
        assert forall|i: int| 0 <= i < a.len() implies line_text(#[trigger] a[i]) == line_text(b[i]) by {
            assert(a[i] == l1[i]);
            assert(b[i] == l2[i]);
        }
        lemma_same_texts_same_parse(a, b);
        assert(line_text(l1.last()) == line_text(l2.last()));
    }
}

/// `#` starts a comment that runs to the end of its line: a line with a
/// trailing comment, anywhere in the input, parses as the line without it.
pub proof fn lemma_trailing_comment_ignored(
    before: Seq<char>,
    line: Seq<char>,
    comment: Seq<char>,
    after: Seq<char>,
)
    requires
        free_of(line, '\n'),
        free_of(line, '#'),
        free_of(comment, '\n'),
    ensures
        parsed(before + seq!['\n'] + line + seq!['#'] + comment + seq!['\n'] + after) == parsed(
            before + seq!['\n'] + line + seq!['\n'] + after,
        ),
        parsed(before + seq!['\n'] + line + seq!['#'] + comment) == parsed(
            before + seq!['\n'] + line,
        ),
{
    let x = line + seq!['#'] + comment;
    assert(free_of(x, '\n'));
    crate::text::lemma_split_concat(line, comment, '#');
    crate::text::lemma_split_free(line, '#');
    assert(line_text(x) == line_text(line));
    crate::text::lemma_split_free(x, '\n');
    crate::text::lemma_split_free(line, '\n');
    let sa = split(before, '\n');
    let sb = split(after, '\n');
    crate::text::lemma_split_concat(x, after, '\n');
    crate::text::lemma_split_concat(line, after, '\n');
    crate::text::lemma_split_concat(before, x + seq!['\n'] + after, '\n');
    crate::text::lemma_split_concat(before, line + seq!['\n'] + after, '\n');
    assert(before + seq!['\n'] + line + seq!['#'] + comment + seq!['\n'] + after =~= before
        + seq!['\n'] + (x + seq!['\n'] + after));
    assert(before + seq!['\n'] + line + seq!['\n'] + after =~= before + seq!['\n'] + (line
        + seq!['\n'] + after));
    let l1 = sa + (seq![x] + sb);
    let l2 = sa + (seq![line] + sb);
    assert forall|i: int| 0 <= i < l1.len() implies line_text(#[trigger] l1[i]) == line_text(l2[i]) by {
        if i != sa.len() {
            assert(l1[i] == l2[i]);
        }
    }
    lemma_same_texts_same_parse(l1, l2);
    crate::text::lemma_split_append_sep(before, x, '\n');
    crate::text::lemma_split_append_sep(before, line, '\n');
    assert(before + seq!['\n'] + line + seq!['#'] + comment =~= before + seq!['\n'] + x);
    let m1 = sa.push(x);
    let m2 = sa.push(line);
    assert forall|i: int| 0 <= i < m1.len() implies line_text(#[trigger] m1[i]) == line_text(m2[i]) by {
        if i < sa.len() {
            assert(m1[i] == m2[i]);
        }
    }
    lemma_same_texts_same_parse(m1, m2);
}

/// The values of a rule are its comma-separated entries, each trimmed of
/// surrounding whitespace and otherwise kept whole (inner spaces included).
pub proof fn lemma_values_kept_whole(vs: Seq<Seq<char>>, missing: Seq<char>)
    requires
        vs.len() > 0,
        forall|i: int| 0 <= i < vs.len() ==> free_of(#[trigger] vs[i], ','),
        forall|i: int| 0 <= i < vs.len() ==> trim(#[trigger] vs[i]).len() > 0,
    ensures
        rule_values(crate::text::join(vs, seq![',']), missing) == Ok::<Seq<Seq<char>>, Seq<char>>(
            vs.map_values(|v: Seq<char>| trim(v)),
        ),
{
    crate::text::lemma_split_join(vs, ',');
    lemma_kept_all(vs);
}

proof fn lemma_kept_all(vs: Seq<Seq<char>>)
    requires
        forall|i: int| 0 <= i < vs.len() ==> trim(#[trigger] vs[i]).len() > 0,
    ensures
        kept_values(vs) == vs.map_values(|v: Seq<char>| trim(v)),
    decreases vs.len(),
{
    if vs.len() > 0 {
        let v0 = vs.drop_last();
        assert forall|i: int| 0 <= i < v0.len() implies trim(#[trigger] v0[i]).len() > 0 by {
            assert(v0[i] == vs[i]);
        }
        lemma_kept_all(v0);
        assert(trim(vs[vs.len() - 1]).len() > 0);
        assert(vs.map_values(|v: Seq<char>| trim(v)) =~= v0.map_values(|v: Seq<char>| trim(v)).push(
            trim(vs.last()),
        ));
    } else {
        assert(vs.map_values(|v: Seq<char>| trim(v)) =~= Seq::<Seq<char>>::empty());
    }
}

/// Blank and comment lines change nothing: appending one to an input
/// leaves what it parses to, policy or error, as it was.
pub proof fn lemma_comment_line_ignored(input: Seq<char>, line: Seq<char>)
    requires
        free_of(line, '\n'),
        line_text(line).len() == 0,
    ensures
        parsed(input + seq!['\n'] + line) == parsed(input),
{
    lemma_split_append_sep(input, line, '\n');
    let lines = split(input, '\n');
    let all = lines.push(line);
    assert(all.drop_last() =~= lines);
    assert(all.last() == line);
}

fn token_end(s: &[char], from: usize) -> (i: usize)
    requires
        from <= s@.len(),
    ensures
        from <= i <= s@.len(),
        take_token(s@.subrange(from as int, s@.len() as int)) == s@.subrange(from as int, i as int),
        after_token(s@.subrange(from as int, s@.len() as int)) == s@.subrange(i as int, s@.len() as int),
    decreases s@.len() - from,
{
    let ghost t = s@.subrange(from as int, s@.len() as int);
    if from == s.len() || is_whitespace(s[from]) {
        assert(s@.subrange(from as int, from as int) =~= Seq::<char>::empty());
        from
    } else {
        let i = token_end(s, from + 1);
        assert(t.drop_first() =~= s@.subrange(from + 1, s@.len() as int));
        assert(seq![t[0]] + s@.subrange(from + 1, i as int) =~= s@.subrange(from as int, i as int));
        i
    }
}

fn ws_end(s: &[char], from: usize) -> (i: usize)
    requires
        from <= s@.len(),
    ensures
        from <= i <= s@.len(),
        trim_start(s@.subrange(from as int, s@.len() as int)) == s@.subrange(i as int, s@.len() as int),
    decreases s@.len() - from,
{
    let ghost t = s@.subrange(from as int, s@.len() as int);
    if from < s.len() && is_whitespace(s[from]) {
        let i = ws_end(s, from + 1);
        assert(t.drop_first() =~= s@.subrange(from + 1, s@.len() as int));
        i
    } else {
        from
    }
}

/// Splits a rule line into its three fields.
fn parse_rule(line: &[char]) -> (r: Result<(Vec<char>, Vec<char>, Vec<char>), Vec<char>>)
    ensures
        match (r, rule_parts(line@)) {
            (Ok((a, k, v)), Ok((sa, sk, sv))) => a@ == sa && k@ == sk && v@ == sv,
            (Err(m), Err(sm)) => m@ == sm,
            _ => false,
        },
{
    assert(line@.subrange(0, line@.len() as int) =~= line@);
    let a_end = token_end(line, 0);
    let k_start = ws_end(line, a_end);
    let ghost rest = line@.subrange(k_start as int, line@.len() as int);
    if a_end == 0 {
        return Err(to_chars("missing action"));
    }
    if k_start == line.len() {
        return Err(to_chars("missing rule"));
    }
    let k_end = token_end(line, k_start);
    let action = copy_range(line, 0, a_end);
    let kind = copy_range(line, k_start, k_end);
    let tail = copy_range(line, k_end, line.len());
    let values = trim_chars(tail.as_slice());
    Ok((action, kind, values))
}

/// Splits on `,`, trims every value and drops empty ones; `missing` when
/// nothing is left.
fn parse_values(values: &[char], missing: &str) -> (r: Result<Vec<Vec<char>>, Vec<char>>)
    ensures
        match (r, rule_values(values@, missing@)) {
            (Ok(v), Ok(sv)) => pieces(v@) == sv,
            (Err(m), Err(sm)) => m@ == sm,
            _ => false,
        },
{
    let parts = split_chars(values, ',');
    let mut kept: Vec<Vec<char>> = Vec::new();
    let mut i: usize = 0;
    while i < parts.len()
        invariant
            i <= parts@.len(),
            pieces(parts@) == split(values@, ','),
            pieces(kept@) == kept_values(pieces(parts@).subrange(0, i as int)),
        decreases parts.len() - i,
    {
        let ghost prev = pieces(kept@);
        let ghost next = pieces(parts@).subrange(0, i + 1);
        assert(next.drop_last() =~= pieces(parts@).subrange(0, i as int));
        assert(next.last() == parts@[i as int]@);
        let t = trim_chars(parts[i].as_slice());
        if t.len() > 0 {
            kept.push(t);
            assert(pieces(kept@) =~= prev.push(trim(parts@[i as int]@)));
        }
        i += 1;
    }
    assert(pieces(parts@).subrange(0, parts@.len() as int) =~= pieces(parts@));
    if kept.len() == 0 {
        return Err(to_chars(missing));
    }
    Ok(kept)
}

fn message_with(prefix: &str, detail: &[char]) -> (m: Vec<char>)
    ensures
        m@ == prefix@ + detail@,
{
    let mut m = to_chars(prefix);
    push_all(&mut m, detail);
    m
}

fn action_of(action: &[char]) -> (r: Option<u8>)
    ensures
        match action_index(action@) {
            Some(a) => r == Some(a as u8),
            None => r is None,
        },
{
    if chars_eq_str(action, "allow") {
        Some(0)
    } else if chars_eq_str(action, "ask") {
        Some(1)
    } else if chars_eq_str(action, "deny") {
        Some(2)
    } else {
        None
    }
}

fn kind_of(kind: &[char]) -> (r: Option<u8>)
    ensures
        match kind_index(kind@) {
            Some(k) => r == Some(k as u8),
            None => r is None,
        },
{
    if chars_eq_str(kind, "read") {
        Some(0)
    } else if chars_eq_str(kind, "write") {
        Some(1)
    } else if chars_eq_str(kind, "delete") {
        Some(2)
    } else if chars_eq_str(kind, "create") {
        Some(3)
    } else {
        None
    }
}

fn push_paths(list: &mut Vec<PathPattern>, vals: &Vec<Vec<char>>)
    ensures
        path_texts(final(list)@) == path_texts(old(list)@) + pieces(vals@),
{
    let mut i: usize = 0;
    while i < vals.len()
        invariant
            i <= vals@.len(),
            path_texts(list@) == path_texts(old(list)@) + pieces(vals@).subrange(0, i as int),
        decreases vals.len() - i,
    {
        let ghost prev = path_texts(list@);
        list.push(PathPattern(string_from_chars(vals[i].as_slice())));
        assert(path_texts(list@) =~= prev.push(vals@[i as int]@));
        assert(pieces(vals@).subrange(0, i + 1) =~= pieces(vals@).subrange(0, i as int).push(
            vals@[i as int]@,
        ));
        i += 1;
    }
    assert(pieces(vals@).subrange(0, vals@.len() as int) =~= pieces(vals@));
}

fn push_hosts(list: &mut Vec<HostPattern>, vals: &Vec<Vec<char>>)
    ensures
        host_texts(final(list)@) == host_texts(old(list)@) + pieces(vals@),
{
    let mut i: usize = 0;
    while i < vals.len()
        invariant
            i <= vals@.len(),
            host_texts(list@) == host_texts(old(list)@) + pieces(vals@).subrange(0, i as int),
        decreases vals.len() - i,
    {
        let ghost prev = host_texts(list@);
        list.push(HostPattern(string_from_chars(vals[i].as_slice())));
        assert(host_texts(list@) =~= prev.push(vals@[i as int]@));
        assert(pieces(vals@).subrange(0, i + 1) =~= pieces(vals@).subrange(0, i as int).push(
            vals@[i as int]@,
        ));
        i += 1;
    }
    assert(pieces(vals@).subrange(0, vals@.len() as int) =~= pieces(vals@));
}

fn push_names(list: &mut Vec<String>, vals: &Vec<Vec<char>>)
    ensures
        strings(final(list)@) == strings(old(list)@) + pieces(vals@),
{
    let mut i: usize = 0;
    while i < vals.len()
        invariant
            i <= vals@.len(),
            strings(list@) == strings(old(list)@) + pieces(vals@).subrange(0, i as int),
        decreases vals.len() - i,
    {
        let ghost prev = strings(list@);
        list.push(string_from_chars(vals[i].as_slice()));
        assert(strings(list@) =~= prev.push(vals@[i as int]@));
        assert(pieces(vals@).subrange(0, i + 1) =~= pieces(vals@).subrange(0, i as int).push(
            vals@[i as int]@,
        ));
        i += 1;
    }
    assert(pieces(vals@).subrange(0, vals@.len() as int) =~= pieces(vals@));
}

fn extend_rules(rules: &mut FilesystemRules, kind: u8, vals: &Vec<Vec<char>>)
    requires
        kind < 4,
    ensures
        final(rules)@ == extend_kind(old(rules)@, kind as int, pieces(vals@)),
{
    if kind == 0 {
        push_paths(&mut rules.read, vals);
    } else if kind == 1 {
        push_paths(&mut rules.write, vals);
    } else if kind == 2 {
        push_paths(&mut rules.delete, vals);
    } else {
        push_paths(&mut rules.create, vals);
    }
}

fn parse_filesystem_rule(
    action: &[char],
    kind: &[char],
    values: &[char],
    policy: &mut Policy,
) -> (r: Result<(), Vec<char>>)
    ensures
        match (r, filesystem_rule(old(policy)@, action@, kind@, values@)) {
            (Ok(_), Ok(p)) => final(policy)@ == p,
            (Err(m), Err(sm)) => m@ == sm && final(policy)@ == old(policy)@,
            _ => false,
        },
{
    let a = match action_of(action) {
        Some(a) => a,
        None => {
            return Err(message_with("unknown action: ", action));
        },
    };
    let vals = match parse_values(values, "missing filesystem path") {
        Ok(v) => v,
        Err(m) => {
            return Err(m);
        },
    };
    let k = match kind_of(kind) {
        Some(k) => k,
        None => {
            return Err(message_with("unknown filesystem operation: ", kind));
        },
    };
    if a == 0 {
        extend_rules(&mut policy.filesystem.allow, k, &vals);
    } else if a == 1 {
        extend_rules(&mut policy.filesystem.ask, k, &vals);
    } else {
        extend_rules(&mut policy.filesystem.deny, k, &vals);
    }
    Ok(())
}

fn parse_process_rule(
    action: &[char],
    kind: &[char],
    values: &[char],
    policy: &mut Policy,
) -> (r: Result<(), Vec<char>>)
    ensures
        match (r, process_rule(old(policy)@, action@, kind@, values@)) {
            (Ok(_), Ok(p)) => final(policy)@ == p,
            (Err(m), Err(sm)) => m@ == sm && final(policy)@ == old(policy)@,
            _ => false,
        },
{
    if chars_eq_str(kind, "scope") {
        if !chars_eq_str(action, "allow") {
            return Err(to_chars("scope can only use allow"));
        }
        let scopes = match parse_values(values, "missing process scope") {
            Ok(v) => v,
            Err(m) => {
                return Err(m);
            },
        };
        push_paths(&mut policy.process.scope, &scopes);
        Ok(())
    } else if chars_eq_str(kind, "command") {
        let commands = match parse_values(values, "missing process command") {
            Ok(v) => v,
            Err(m) => {
                return Err(m);
            },
        };
        match action_of(action) {
            Some(0) => push_names(&mut policy.process.allow, &commands),
            Some(1) => push_names(&mut policy.process.ask, &commands),
            Some(_) => push_names(&mut policy.process.deny, &commands),
            None => {
                return Err(message_with("unknown process action: ", action));
            },
        }
        Ok(())
    } else {
        Err(message_with("unknown process rule: ", kind))
    }
}

fn parse_network_rule(
    action: &[char],
    kind: &[char],
    values: &[char],
    policy: &mut Policy,
) -> (r: Result<(), Vec<char>>)
    ensures
        match (r, network_rule(old(policy)@, action@, kind@, values@)) {
            (Ok(_), Ok(p)) => final(policy)@ == p,
            (Err(m), Err(sm)) => m@ == sm && final(policy)@ == old(policy)@,
            _ => false,
        },
{
    if chars_eq_str(kind, "host") {
        let hosts = match parse_values(values, "missing network host") {
            Ok(v) => v,
            Err(m) => {
                return Err(m);
            },
        };
        match action_of(action) {
            Some(0) => push_hosts(&mut policy.network.allow, &hosts),
            Some(1) => push_hosts(&mut policy.network.ask, &hosts),
            Some(_) => push_hosts(&mut policy.network.deny, &hosts),
            None => {
                return Err(message_with("unknown network action: ", action));
            },
        }
        Ok(())
    } else {
        Err(message_with("unknown network rule: ", action))
    }
}

fn header_of(line: &[char]) -> (r: Option<Section>)
    ensures
        r == header_section(line@),
{
    if chars_eq_str(line, "[filesystem]") {
        Some(Section::Filesystem)
    } else if chars_eq_str(line, "[process]") {
        Some(Section::Process)
    } else if chars_eq_str(line, "[network]") {
        Some(Section::Network)
    } else {
        None
    }
}

/// Applies one cleaned line.
fn parse_line(line: &[char], policy: &mut Policy, section: &mut Option<Section>) -> (r: Result<
    (),
    Vec<char>,
>)
    ensures
        match (r, apply_line(old(policy)@, *old(section), line@)) {
            (Ok(_), Ok((p, s))) => final(policy)@ == p && *final(section) == s,
            (Err(m), Err(sm)) => m@ == sm && final(policy)@ == old(policy)@,
            _ => false,
        },
{
    if line.len() == 0 {
        return Ok(());
    }
    if line[0] == '[' && line[line.len() - 1] == ']' {
        match header_of(line) {
            Some(s) => {
                *section = Some(s);
                return Ok(());
            },
            None => {
                return Err(message_with("unknown section: ", line));
            },
        }
    }
    let sec = match *section {
        Some(s) => s,
        None => {
            return Err(to_chars("rule found before a section"));
        },
    };
    let (action, kind, values) = match parse_rule(line) {
        Ok(parts) => parts,
        Err(m) => {
            return Err(m);
        },
    };
    match sec {
        Section::Filesystem => parse_filesystem_rule(
            action.as_slice(),
            kind.as_slice(),
            values.as_slice(),
            policy,
        ),
        Section::Process => parse_process_rule(
            action.as_slice(),
            kind.as_slice(),
            values.as_slice(),
            policy,
        ),
        Section::Network => parse_network_rule(
            action.as_slice(),
            kind.as_slice(),
            values.as_slice(),
            policy,
        ),
    }
}

/// Parses the text of a `.nitera` policy. Comments run from `#` to the end
/// of a line; blank lines are skipped; `[filesystem]`, `[process]` and
/// `[network]` open sections; every other line is a rule of the current
/// section. The first offending line is reported with its 1-based number.
pub fn parse(input: &str) -> (r: Result<Policy, ParseError>)
    ensures
        match (r, parsed(input@)) {
            (Ok(p), Ok(v)) => p@ == v,
            (Err(e), Err((line, message))) => e.line == line && e.message@ == message,
            _ => false,
        },
{
    let text = to_chars(input);
    let lines = split_chars(text.as_slice(), '\n');
    let mut policy = Policy::default();
    let mut section: Option<Section> = None;
    let mut i: usize = 0;
    assert(pieces(lines@).subrange(0, 0) =~= Seq::<Seq<char>>::empty());
    while i < lines.len()
        invariant
            i <= lines@.len(),
            pieces(lines@) == split(input@, '\n'),
            parse_lines(pieces(lines@).subrange(0, i as int)) == Ok::<
                (PolicyView, Option<Section>),
                (int, Seq<char>),
            >((policy@, section)),
        decreases lines.len() - i,
    {
        let ghost next = pieces(lines@).subrange(0, i + 1);
        assert(next.drop_last() =~= pieces(lines@).subrange(0, i as int));
        assert(next.last() == lines@[i as int]@);
        let raw = &lines[i];
        let uncommented = split_chars(raw.as_slice(), '#');
        proof {
            lemma_split_len(raw@, '#');
            assert(pieces(uncommented@)[0] == uncommented@[0]@);
        }
        let line = trim_chars(uncommented[0].as_slice());
        match parse_line(line.as_slice(), &mut policy, &mut section) {
            Ok(()) => {},
            Err(m) => {
                proof {
                    lemma_first_error_stays(pieces(lines@), i + 1);
                }
                return Err(ParseError::new(i + 1, m.as_slice()));
            },
        }
        i += 1;
    }
    assert(pieces(lines@).subrange(0, lines@.len() as int) =~= pieces(lines@));
    Ok(policy)
}

} // verus!
