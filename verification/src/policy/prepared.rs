//! Load-time preparation of path rules. Each pattern is normalized once and
//! cut into a literal prefix and a glob tail; large selective rule sets are
//! sorted by prefix so that a check only looks at candidates whose prefix is
//! a leading part of the path.
use super::matcher::{
    glob, glob_one, is_literal, lemma_glob_any, lemma_glob_any_alone, lemma_glob_concat,
    lemma_glob_double_any, lemma_glob_last, lemma_glob_literal, segment_matches, segments,
};
use super::evaluate::{
    any_path_match, command_decision, evaluation, path_decision, precedence, process_decision,
};
use super::matcher::pattern_matches;
use super::model::{path_texts, PathPattern, Policy, PolicyView};
use super::path::{resolved, resolved_chars};
use crate::engine::decision::Decision;
use crate::engine::request::{NiteraRequest, Operation, Resource, Target, TargetView};
use super::path::{glob_any, is_abs, pattern_components, pattern_components_chars, rooted, rooted_chars};
use crate::text::{
    chars_eq, copy_range, free_of, join, lex_less, lex_lt, lemma_lex_asymmetric,
    lemma_lex_irreflexive, lemma_lex_total, lemma_lex_transitive, lemma_push_contains,
    lemma_front_contains, lemma_join_concat, lemma_join_split, lemma_split_concat,
    lemma_split_join, lemma_split_len, opt_chars, pieces, split, split_chars, to_chars,
};
use vstd::prelude::*;
use vstd::seq_lib::to_multiset_insert;
use vstd::utf8::encode_utf8;

verus! {

/// What follows the literal prefix of a prepared pattern.
pub enum TailView {
    /// The path must equal the prefix.
    Exact,
    /// Any path at or below the prefix.
    Subtree,
    /// The remaining segments must match these glob segments.
    Glob(Seq<Seq<char>>),
    /// The pattern could not be normalized and matches nothing.
    Never,
}

/// The abstract value of a prepared pattern.
pub struct PreparedView {
    pub prefix: Seq<char>,
    pub tail: TailView,
}

enum Tail {
    Exact,
    Subtree,
    Glob(Vec<Vec<char>>),
    Never,
}

/// A path pattern normalized once against a base directory.
pub struct PreparedPath {
    prefix: Vec<char>,
    tail: Tail,
}

impl View for PreparedPath {
    type V = PreparedView;

    closed spec fn view(&self) -> PreparedView {
        PreparedView {
            prefix: self.prefix@,
            tail: match self.tail {
                Tail::Exact => TailView::Exact,
                Tail::Subtree => TailView::Subtree,
                Tail::Glob(parts) => TailView::Glob(pieces(parts@)),
                Tail::Never => TailView::Never,
            },
        }
    }
}

/// The index of the first `*` or `**` segment, or the length when there is
/// none.
pub open spec fn first_wildcard(cs: Seq<Seq<char>>) -> int
    decreases cs.len(),
{
    if cs.len() == 0 {
        0
    } else if !is_literal(cs[0]) {
        0
    } else {
        1 + first_wildcard(cs.drop_first())
    }
}

/// Adjacent `**` segments merged into one.
pub open spec fn merge_any(s: Seq<Seq<char>>) -> Seq<Seq<char>>
    decreases s.len(),
{
    if s.len() == 0 {
        Seq::empty()
    } else {
        let m = merge_any(s.drop_last());
        if s.last() == glob_any() && m.len() > 0 && m.last() == glob_any() {
            m
        } else {
            m.push(s.last())
        }
    }
}

/// The prepared form of a pattern: the literal components before the first
/// wildcard become the prefix text, the rest the glob tail.
pub open spec fn prepared_view(pattern: Seq<char>, base: Seq<char>, home: Option<Seq<char>>) -> PreparedView {
    match home {
        None => PreparedView { prefix: Seq::empty(), tail: TailView::Never },
        Some(h) => {
            let cs = pattern_components(pattern, base, h);
            let g = first_wildcard(cs);
            if g == cs.len() {
                PreparedView { prefix: rooted(cs), tail: TailView::Exact }
            } else {
                let prefix = if g == 0 {
                    Seq::<char>::empty()
                } else {
                    rooted(cs.take(g))
                };
                let rest = merge_any(cs.skip(g));
                if rest == seq![glob_any()] {
                    PreparedView { prefix, tail: TailView::Subtree }
                } else {
                    PreparedView { prefix, tail: TailView::Glob(rest) }
                }
            }
        },
    }
}

/// `path` starts with `prefix` and the prefix ends at a component boundary.
pub open spec fn at_boundary(path: Seq<char>, prefix: Seq<char>) -> bool {
    &&& prefix.len() <= path.len()
    &&& path.subrange(0, prefix.len() as int) == prefix
    &&& (path.len() == prefix.len() || path[prefix.len() as int] == '/')
}

/// The segments of `path` after `prefix`; none when nothing follows.
pub open spec fn rest_segments(path: Seq<char>, prefix: Seq<char>) -> Seq<Seq<char>> {
    if path.len() == prefix.len() {
        Seq::empty()
    } else {
        split(path.subrange(prefix.len() as int + 1, path.len() as int), '/')
    }
}

/// Whether a prepared pattern accepts a resolved path.
pub open spec fn accepts(v: PreparedView, path: Seq<char>) -> bool {
    match v.tail {
        TailView::Never => false,
        TailView::Exact => path == v.prefix,
        TailView::Subtree => at_boundary(path, v.prefix),
        TailView::Glob(s) => at_boundary(path, v.prefix) && glob(s, rest_segments(path, v.prefix)),
    }
}

/// Whether the segment matcher accepts a resolved path: pattern and path are
/// both split on `/` and compared segment by segment.
pub open spec fn matches_resolved(
    pattern: Seq<char>,
    base: Seq<char>,
    home: Option<Seq<char>>,
    path: Seq<char>,
) -> bool {
    match home {
        None => false,
        Some(h) => glob(split(rooted(pattern_components(pattern, base, h)), '/'), split(path, '/')),
    }
}

/// a prepared pattern accepts exactly the resolved paths that the
/// segment matcher accepts for the unprepared pattern, on every path.
pub proof fn lemma_prepared_agrees(pattern: Seq<char>, base: Seq<char>, home: Option<Seq<char>>, p: Seq<char>)
    ensures
        accepts(prepared_view(pattern, base, home), p) == matches_resolved(pattern, base, home, p),
{
    if let Some(h) = home {
        let cs = pattern_components(pattern, base, h);
        lemma_components_clean(pattern, base, h);
        lemma_first_wildcard(cs);
        lemma_rooted_segments(cs);
        let x = segments(rooted(cs));
        let e = Seq::<char>::empty();
        assert(is_literal(e)) by {
            assert(glob_one().len() == 1);
            assert(glob_any().len() == 2);
        }
        crate::text::lemma_split_leading(join(cs, seq!['/']), '/');
        assert(rooted(cs) =~= seq!['/'] + join(cs, seq!['/']));
        assert(rooted(cs).drop_first() =~= join(cs, seq!['/']));
        let v = prepared_view(pattern, base, home);
        let g = first_wildcard(cs);
        if is_abs(p) {
            lemma_prepared_agrees_rooted(pattern, base, home, p);
            crate::text::lemma_split_leading(p.drop_first(), '/');
            assert(p =~= seq!['/'] + p.drop_first());
            lemma_glob_lead(e, x, segments(p));
        } else if p.len() == 0 {
            assert(split(p, '/') =~= seq![e]);
            assert(seq![e] =~= seq![e] + Seq::<Seq<char>>::empty());
            lemma_glob_lead(e, x, Seq::<Seq<char>>::empty());
            if g == cs.len() {
                assert(x.len() > 0);
                assert(is_literal(x[0])) by {
                    if cs.len() == 0 {
                        assert(x[0] =~= e);
                    }
                }
            } else if g > 0 {
                assert(is_literal(cs[0]));
                assert(rooted(cs.take(g)).len() > 0);
            } else {
                assert(at_boundary(p, e)) by {
                    assert(p.subrange(0, 0) =~= e);
                }
                assert(rest_segments(p, e) =~= Seq::<Seq<char>>::empty());
                assert(cs.skip(0) =~= cs);
                lemma_merge_any(cs, Seq::<Seq<char>>::empty());
                if merge_any(cs) == seq![glob_any()] {
                    lemma_glob_any_alone(Seq::<Seq<char>>::empty());
                }
            }
        } else {
            crate::text::lemma_split_first_nonempty(p, '/');
            lemma_split_len(p, '/');
            let q = split(p, '/');
            assert((seq![e] + x)[0] == e);
            assert(!segment_matches(e, q[0]));
            if g == cs.len() {
                assert(rooted(cs)[0] == '/');
            } else if g > 0 {
                assert(rooted(cs.take(g))[0] == '/');
                if at_boundary(p, rooted(cs.take(g))) {
                    assert(p.subrange(0, rooted(cs.take(g)).len() as int)[0] == p[0]);
                }
            }
        }
    }
}

/// Normalized pattern components are non-empty and hold no `/`.
pub proof fn lemma_components_clean(pattern: Seq<char>, base: Seq<char>, home: Seq<char>)
    ensures
        forall|i: int|
            0 <= i < pattern_components(pattern, base, home).len() ==> {
                let c = #[trigger] pattern_components(pattern, base, home)[i];
                c.len() > 0 && free_of(c, '/')
            },
{
    let segs = split(super::path::anchored(pattern, base, home), '/');
    crate::text::lemma_split_pieces_free(super::path::anchored(pattern, base, home), '/');
    lemma_pattern_dots_clean(segs);
}

proof fn lemma_pattern_dots_clean(segs: Seq<Seq<char>>)
    requires
        forall|i: int| 0 <= i < segs.len() ==> free_of(#[trigger] segs[i], '/'),
    ensures
        forall|i: int|
            0 <= i < super::path::resolve_pattern_dots(segs).len() ==> {
                let c = #[trigger] super::path::resolve_pattern_dots(segs)[i];
                c.len() > 0 && free_of(c, '/')
            },
    decreases segs.len(),
{
    if segs.len() > 0 {
        let s0 = segs.drop_last();
        assert forall|i: int| 0 <= i < s0.len() implies free_of(#[trigger] s0[i], '/') by {
            assert(s0[i] == segs[i]);
        }
        lemma_pattern_dots_clean(s0);
        assert(free_of(segs[segs.len() - 1], '/'));
        let kept = super::path::resolve_pattern_dots(s0);
        let r = super::path::resolve_pattern_dots(segs);
        assert forall|i: int| 0 <= i < r.len() implies {
            let c = #[trigger] r[i];
            c.len() > 0 && free_of(c, '/')
        } by {
            if i < kept.len() {
                assert(r[i] == kept[i]);
            } else {
                assert(r[i] == segs.last());
            }
        }
    }
}

proof fn lemma_first_wildcard(cs: Seq<Seq<char>>)
    ensures
        0 <= first_wildcard(cs) <= cs.len(),
        forall|i: int| 0 <= i < first_wildcard(cs) ==> is_literal(#[trigger] cs[i]),
        first_wildcard(cs) < cs.len() ==> !is_literal(cs[first_wildcard(cs)]),
    decreases cs.len(),
{
    if cs.len() > 0 && is_literal(cs[0]) {
        lemma_first_wildcard(cs.drop_first());
        assert forall|i: int| 0 <= i < first_wildcard(cs) implies is_literal(#[trigger] cs[i]) by {
            if i > 0 {
                assert(cs[i] == cs.drop_first()[i - 1]);
            }
        }
    }
}

/// Merging adjacent `**` does not change what a pattern matches.
pub proof fn lemma_merge_any(s: Seq<Seq<char>>, q: Seq<Seq<char>>)
    ensures
        glob(merge_any(s), q) == glob(s, q),
        s.len() > 0 ==> merge_any(s).len() > 0 && merge_any(s)[0] == s[0],
    decreases s.len(),
{
    if s.len() > 0 {
        let s0 = s.drop_last();
        let x = s.last();
        let m = merge_any(s0);
        lemma_merge_any(s0, q);
        assert(s =~= s0 + seq![x]);
        if x == glob_any() && m.len() > 0 && m.last() == glob_any() {
            // m + [**] matches like m: m already ends in **.
            assert forall|r: Seq<Seq<char>>| #[trigger] glob(m, r) == glob(s0, r) by {
                lemma_merge_any(s0, r);
            }
            let m0 = m.drop_last();
            assert(m =~= m0 + seq![glob_any()] + Seq::<Seq<char>>::empty());
            lemma_glob_double_any(m0, Seq::<Seq<char>>::empty(), q);
            assert(m0 + seq![glob_any(), glob_any()] + Seq::<Seq<char>>::empty() =~= m + seq![x]);
            lemma_glob_concat(m, seq![x], q);
            lemma_glob_concat(s0, seq![x], q);
            if glob(m + seq![x], q) {
                let k = choose|k: int|
                    0 <= k <= q.len() && #[trigger] glob(m, q.take(k)) && glob(seq![x], q.skip(k));
                assert(glob(s0, q.take(k)));
            }
            if glob(s0 + seq![x], q) {
                let k = choose|k: int|
                    0 <= k <= q.len() && #[trigger] glob(s0, q.take(k)) && glob(seq![x], q.skip(k));
                assert(glob(m, q.take(k)));
            }
            if s0.len() > 0 {
                assert(m[0] == s0[0]);
                assert(s[0] == s0[0]);
            }
        } else {
            assert forall|r: Seq<Seq<char>>| #[trigger] glob(m, r) == glob(s0, r) by {
                lemma_merge_any(s0, r);
            }
            lemma_glob_concat(m, seq![x], q);
            lemma_glob_concat(s0, seq![x], q);
            assert(m.push(x) =~= m + seq![x]);
            if glob(m + seq![x], q) {
                let k = choose|k: int|
                    0 <= k <= q.len() && #[trigger] glob(m, q.take(k)) && glob(seq![x], q.skip(k));
                assert(glob(s0, q.take(k)));
            }
            if glob(s0 + seq![x], q) {
                let k = choose|k: int|
                    0 <= k <= q.len() && #[trigger] glob(s0, q.take(k)) && glob(seq![x], q.skip(k));
                assert(glob(m, q.take(k)));
            }
            if s0.len() > 0 {
                assert(m[0] == s0[0]);
            }
        }
    }
}

/// The segments of the rooted path of clean components are those components;
/// the root alone has the single empty segment.
pub proof fn lemma_rooted_segments(cs: Seq<Seq<char>>)
    requires
        forall|i: int| 0 <= i < cs.len() ==> free_of(#[trigger] cs[i], '/'),
    ensures
        segments(rooted(cs)) == (if cs.len() == 0 {
            seq![Seq::<char>::empty()]
        } else {
            cs
        }),
{
    assert(rooted(cs).drop_first() =~= join(cs, seq!['/']));
    if cs.len() == 0 {
        assert(split(Seq::<char>::empty(), '/') =~= seq![Seq::<char>::empty()]);
    } else {
        lemma_split_join(cs, '/');
    }
}

/// Matching a rooted path against a literal prefix of components: the path
/// starts with the prefix at a boundary exactly when its segments start with
/// the components, and the segments after the prefix are the rest.
#[verifier::spinoff_prover]
#[verifier::rlimit(40)]
proof fn lemma_prefix_boundary(l: Seq<Seq<char>>, p: Seq<char>)
    requires
        l.len() > 0,
        forall|i: int| 0 <= i < l.len() ==> free_of(#[trigger] l[i], '/'),
        is_abs(p),
    ensures
        at_boundary(p, rooted(l)) <==> (segments(p).len() >= l.len() && segments(p).take(
            l.len() as int,
        ) == l),
        at_boundary(p, rooted(l)) ==> rest_segments(p, rooted(l)) == segments(p).skip(
            l.len() as int,
        ),
{
    let t = p.drop_first();
    let q = split(t, '/');
    let pre = rooted(l);
    let jl = join(l, seq!['/']);
    assert(p =~= seq!['/'] + t);
    crate::text::lemma_split_pieces_free(t, '/');
    lemma_split_join(l, '/');
    lemma_join_split(t, '/');
    if at_boundary(p, pre) {
        assert(pre.len() == jl.len() + 1);
        if p.len() == pre.len() {
            assert(p =~= pre);
            assert(t =~= jl);
            assert(q == l);
            assert(q.take(l.len() as int) =~= l);
            assert(q.skip(l.len() as int) =~= Seq::<Seq<char>>::empty());
        } else {
            let r = p.subrange(pre.len() as int + 1, p.len() as int);
            assert(p =~= p.subrange(0, pre.len() as int) + seq![p[pre.len() as int]] + r);
            assert(p =~= pre + seq!['/'] + r);
            assert(t =~= jl + seq!['/'] + r);
            lemma_split_concat(jl, r, '/');
            assert(q =~= l + split(r, '/'));
            assert(q.take(l.len() as int) =~= l);
            assert(q.skip(l.len() as int) =~= split(r, '/'));
        }
    }
    if q.len() >= l.len() && q.take(l.len() as int) == l {
        if q.len() == l.len() {
            assert(q =~= l);
            assert(t == jl);
            assert(p =~= pre);
            assert(p.subrange(0, pre.len() as int) =~= pre);
        } else {
            let q2 = q.skip(l.len() as int);
            assert(q =~= l + q2);
            lemma_join_concat(l, q2, seq!['/']);
            assert(t == jl + seq!['/'] + join(q2, seq!['/']));
            assert(p =~= pre + seq!['/'] + join(q2, seq!['/']));
            assert(p.subrange(0, pre.len() as int) =~= pre);
            assert(p[pre.len() as int] == '/');
        }
    }
}

/// A shared leading segment that is not a wildcard can be dropped.
proof fn lemma_glob_lead(e: Seq<char>, x: Seq<Seq<char>>, y: Seq<Seq<char>>)
    requires
        is_literal(e),
    ensures
        glob(seq![e] + x, seq![e] + y) == glob(x, y),
{
    assert((seq![e] + x)[0] == e);
    assert((seq![e] + x).drop_first() =~= x);
    assert((seq![e] + y)[0] == e);
    assert((seq![e] + y).drop_first() =~= y);
}

/// On rooted paths, the prepared form agrees with glob matching of the
/// segments after the root.
proof fn lemma_prepared_agrees_rooted(pattern: Seq<char>, base: Seq<char>, home: Option<Seq<char>>, p: Seq<char>)
    requires
        is_abs(p),
    ensures
        accepts(prepared_view(pattern, base, home), p) == match home {
            None => false,
            Some(h) => glob(segments(rooted(pattern_components(pattern, base, h))), segments(p)),
        },
{
    if let Some(h) = home {
        let cs = pattern_components(pattern, base, h);
        lemma_components_clean(pattern, base, h);
        lemma_first_wildcard(cs);
        let g = first_wildcard(cs);
        let q = segments(p);
        lemma_rooted_segments(cs);
        assert forall|i: int| 0 <= i < cs.len() implies free_of(#[trigger] cs[i], '/') by {}
        if g == cs.len() {
            // No wildcard: both sides compare the path with the pattern.
            let x = if cs.len() == 0 { seq![Seq::<char>::empty()] } else { cs };
            assert forall|i: int| 0 <= i < x.len() implies is_literal(#[trigger] x[i]) by {
                if cs.len() == 0 {
                    assert(x[i] =~= Seq::<char>::empty());
                }
            }
            lemma_glob_literal(x, q);
            lemma_join_split(p.drop_first(), '/');
            assert(p =~= seq!['/'] + p.drop_first());
            if q == x {
                if cs.len() == 0 {
                    assert(join(x, seq!['/']) =~= Seq::<char>::empty());
                }
                assert(p.drop_first() == join(cs, seq!['/']));
            }
            if p == rooted(cs) {
                assert(p.drop_first() =~= join(cs, seq!['/']));
            }
        } else {
            let l = cs.take(g);
            let s = cs.skip(g);
            assert(cs =~= l + s);
            assert forall|i: int| 0 <= i < l.len() implies is_literal(#[trigger] l[i]) by {
                assert(l[i] == cs[i]);
            }
            assert forall|i: int| 0 <= i < l.len() implies free_of(#[trigger] l[i], '/') by {
                assert(l[i] == cs[i]);
            }
            lemma_glob_concat(l, s, q);
            lemma_merge_any(s, q.skip(g));
            // glob(l + s, q) <==> q starts with l and s matches the rest
            assert(glob(cs, q) <==> (q.len() >= g && q.take(g) == l && glob(s, q.skip(g)))) by {
                if glob(l + s, q) {
                    let k = choose|k: int|
                        0 <= k <= q.len() && #[trigger] glob(l, q.take(k)) && glob(s, q.skip(k));
                    lemma_glob_literal(l, q.take(k));
                    assert(k == g);
                }
                if q.len() >= g && q.take(g) == l && glob(s, q.skip(g)) {
                    lemma_glob_literal(l, q.take(g));
                    assert(glob(l, q.take(g)));
                }
            }
            let rest = merge_any(s);
            if rest == seq![glob_any()] {
                lemma_glob_any_alone(q.skip(g));
            }
            if g == 0 {
                assert(q.take(0) =~= l);
                assert(q.skip(0) =~= q);
                assert(at_boundary(p, Seq::<char>::empty())) by {
                    assert(p.subrange(0, 0) =~= Seq::<char>::empty());
                }
                assert(rest_segments(p, Seq::<char>::empty()) == q) by {
                    assert(p.subrange(1, p.len() as int) =~= p.drop_first());
                }
            } else {
                lemma_prefix_boundary(l, p);
            }
        }
    }
}

fn is_star(c: &[char]) -> (b: bool)
    ensures
        b == (c@ == glob_one()),
{
    let b = c.len() == 1 && c[0] == '*';
    proof {
        if c@.len() == 1 && c@[0] == '*' {
            assert(c@ =~= glob_one());
        }
    }
    b
}

fn is_double_star(c: &[char]) -> (b: bool)
    ensures
        b == (c@ == glob_any()),
{
    let b = c.len() == 2 && c[0] == '*' && c[1] == '*';
    proof {
        if c@.len() == 2 && c@[0] == '*' && c@[1] == '*' {
            assert(c@ =~= glob_any());
        }
    }
    b
}

fn segment_ok(p: &[char], s: &[char]) -> (b: bool)
    ensures
        b == segment_matches(p@, s@),
{
    is_star(p) || chars_eq(p, s)
}

/// Glob matching of `pat[pl..ph]` against `path[ql..qh]`. Segments after
/// the last `**` are anchored at the end of the path and checked first;
/// then `**` tries each possible number of segments in turn.
fn match_parts(
    pat: &Vec<Vec<char>>,
    pl0: usize,
    ph0: usize,
    path: &Vec<Vec<char>>,
    ql0: usize,
    qh0: usize,
) -> (r: bool)
    requires
        pl0 <= ph0 <= pat@.len(),
        ql0 <= qh0 <= path@.len(),
    ensures
        r == glob(
            pieces(pat@).subrange(pl0 as int, ph0 as int),
            pieces(path@).subrange(ql0 as int, qh0 as int),
        ),
    decreases ph0 - pl0,
{
    let ghost target = glob(
        pieces(pat@).subrange(pl0 as int, ph0 as int),
        pieces(path@).subrange(ql0 as int, qh0 as int),
    );
    let mut ph = ph0;
    let mut qh = qh0;
    while ph > pl0 && !is_double_star(pat[ph - 1].as_slice())
        invariant
            pl0 <= ph <= ph0 <= pat@.len(),
            ql0 <= qh <= qh0 <= path@.len(),
            target == glob(
                pieces(pat@).subrange(pl0 as int, ph0 as int),
                pieces(path@).subrange(ql0 as int, qh0 as int),
            ),
            glob(
                pieces(pat@).subrange(pl0 as int, ph as int),
                pieces(path@).subrange(ql0 as int, qh as int),
            ) == target,
        decreases ph,
    {
        let ghost ps = pieces(pat@).subrange(pl0 as int, ph as int);
        let ghost qs = pieces(path@).subrange(ql0 as int, qh as int);
        proof {
            assert(ps =~= ps.drop_last() + seq![ps.last()]);
            assert(ps.last() == pat@[ph - 1]@);
            lemma_glob_last(ps.drop_last(), ps.last(), qs);
            assert(ps.drop_last() =~= pieces(pat@).subrange(pl0 as int, ph - 1));
        }
        if qh == ql0 {
            return false;
        }
        proof {
            assert(qs.last() == path@[qh - 1]@);
            assert(qs.drop_last() =~= pieces(path@).subrange(ql0 as int, qh - 1));
        }
        if !segment_ok(pat[ph - 1].as_slice(), path[qh - 1].as_slice()) {
            return false;
        }
        ph -= 1;
        qh -= 1;
    }
    let mut pl = pl0;
    let mut ql = ql0;
    while pl < ph
        invariant
            pl0 <= pl <= ph <= ph0 <= pat@.len(),
            ql0 <= ql <= qh <= qh0 <= path@.len(),
            target == glob(
                pieces(pat@).subrange(pl0 as int, ph0 as int),
                pieces(path@).subrange(ql0 as int, qh0 as int),
            ),
            glob(
                pieces(pat@).subrange(pl as int, ph as int),
                pieces(path@).subrange(ql as int, qh as int),
            ) == target,
        decreases ph - pl,
    {
        let ghost ps = pieces(pat@).subrange(pl as int, ph as int);
        let ghost qs = pieces(path@).subrange(ql as int, qh as int);
        assert(ps[0] == pat@[pl as int]@);
        assert(ps.drop_first() =~= pieces(pat@).subrange(pl + 1, ph as int));
        if is_double_star(pat[pl].as_slice()) {
            proof {
                assert(ps =~= seq![glob_any()] + ps.drop_first());
            }
            if pl + 1 == ph {
                proof {
                    assert(ps =~= seq![glob_any()]);
                    lemma_glob_any_alone(qs);
                }
                return true;
            }
            let next = pl + 1;
            let mut k = ql;
            loop
                invariant
                    ql <= k <= qh <= path@.len(),
                    next == pl + 1,
                    pl0 < next <= ph <= ph0 <= pat@.len(),
                    ps == pieces(pat@).subrange(pl as int, ph as int),
                    qs == pieces(path@).subrange(ql as int, qh as int),
                    ps == seq![glob_any()] + ps.drop_first(),
                    ps.drop_first() == pieces(pat@).subrange(next as int, ph as int),
                    glob(ps, qs) == target,
                    target == glob(
                        pieces(pat@).subrange(pl0 as int, ph0 as int),
                        pieces(path@).subrange(ql0 as int, qh0 as int),
                    ),
                    forall|j: int|
                        0 <= j < k - ql ==> !#[trigger] glob(ps.drop_first(), qs.skip(j)),
                decreases qh - k,
            {
                assert(qs.skip(k - ql) =~= pieces(path@).subrange(k as int, qh as int));
                if match_parts(pat, next, ph, path, k, qh) {
                    proof {
                        assert(glob(ps.drop_first(), qs.skip(k - ql)));
                        lemma_glob_any(ps.drop_first(), qs);
                    }
                    return true;
                }
                if k == qh {
                    proof {
                        lemma_glob_any(ps.drop_first(), qs);
                    }
                    return false;
                }
                k += 1;
            }
        }
        if ql == qh {
            return false;
        }
        assert(qs[0] == path@[ql as int]@);
        assert(qs.drop_first() =~= pieces(path@).subrange(ql + 1, qh as int));
        if !segment_ok(pat[pl].as_slice(), path[ql].as_slice()) {
            return false;
        }
        pl += 1;
        ql += 1;
    }
    assert(pieces(pat@).subrange(pl as int, ph as int).len() == 0);
    ql == qh
}

/// The components before index `g` rendered as a prefix text.
fn prefix_text(cs: &Vec<Vec<char>>, g: usize) -> (out: Vec<char>)
    requires
        g <= cs@.len(),
    ensures
        out@ == (if g == 0 { Seq::<char>::empty() } else { rooted(pieces(cs@).take(g as int)) }),
{
    if g == 0 {
        return Vec::new();
    }
    let mut lits: Vec<Vec<char>> = Vec::new();
    let mut i: usize = 0;
    while i < g
        invariant
            i <= g <= cs@.len(),
            pieces(lits@) == pieces(cs@).take(i as int),
        decreases g - i,
    {
        let ghost prev = pieces(lits@);
        lits.push(copy_range(cs[i].as_slice(), 0, cs[i].len()));
        assert(cs@[i as int]@.subrange(0, cs@[i as int]@.len() as int) =~= cs@[i as int]@);
        assert(pieces(lits@) =~= prev.push(cs@[i as int]@));
        assert(pieces(lits@) =~= pieces(cs@).take(i + 1));
        i += 1;
    }
    rooted_chars(&lits)
}

/// The segments from `g` on with adjacent `**` merged.
fn merged_tail(cs: &Vec<Vec<char>>, g: usize) -> (out: Vec<Vec<char>>)
    requires
        g <= cs@.len(),
    ensures
        pieces(out@) == merge_any(pieces(cs@).skip(g as int)),
{
    let mut out: Vec<Vec<char>> = Vec::new();
    let mut i = g;
    assert(pieces(cs@).skip(g as int).take(0) =~= Seq::<Seq<char>>::empty());
    while i < cs.len()
        invariant
            g <= i <= cs@.len(),
            pieces(out@) == merge_any(pieces(cs@).skip(g as int).take(i - g)),
        decreases cs.len() - i,
    {
        let ghost prev = pieces(out@);
        let ghost s = pieces(cs@).skip(g as int);
        assert(s.take(i - g + 1).drop_last() =~= s.take(i - g));
        assert(s.take(i - g + 1).last() == cs@[i as int]@);
        let skip = is_double_star(cs[i].as_slice()) && out.len() > 0 && is_double_star(
            out[out.len() - 1].as_slice(),
        );
        if !skip {
            out.push(copy_range(cs[i].as_slice(), 0, cs[i].len()));
            assert(cs@[i as int]@.subrange(0, cs@[i as int]@.len() as int) =~= cs@[i as int]@);
            assert(pieces(out@) =~= prev.push(cs@[i as int]@));
        }
        i += 1;
    }
    assert(pieces(cs@).skip(g as int).take(cs@.len() - g) =~= pieces(cs@).skip(g as int));
    out
}

impl PreparedPath {
    fn from_chars(pattern: &[char], base: &[char], home: Option<&Vec<char>>) -> (r: Self)
        ensures
            r@ == prepared_view(
                pattern@,
                base@,
                match home {
                    Some(h) => Some(h@),
                    None => None,
                },
            ),
    {
        let h = match home {
            None => {
                return PreparedPath { prefix: Vec::new(), tail: Tail::Never };
            },
            Some(h) => h,
        };
        let cs = pattern_components_chars(pattern, base, h.as_slice());
        let ghost scs = pattern_components(pattern@, base@, h@);
        proof {
            lemma_first_wildcard(scs);
        }
        let mut g: usize = 0;
        while g < cs.len() && !is_star(cs[g].as_slice()) && !is_double_star(cs[g].as_slice())
            invariant
                g <= cs@.len(),
                pieces(cs@) == scs,
                0 <= first_wildcard(scs) <= scs.len(),
                forall|i: int| 0 <= i < first_wildcard(scs) ==> is_literal(#[trigger] scs[i]),
                first_wildcard(scs) < scs.len() ==> !is_literal(scs[first_wildcard(scs)]),
                forall|i: int| 0 <= i < g ==> is_literal(#[trigger] scs[i]),
            decreases cs.len() - g,
        {
            assert(scs[g as int] == cs@[g as int]@);
            g += 1;
        }
        proof {
            if g < cs@.len() {
                assert(scs[g as int] == cs@[g as int]@);
                assert(!is_literal(scs[g as int]));
            }
            if first_wildcard(scs) < g {
                assert(is_literal(scs[first_wildcard(scs)]));
            }
            assert(g == first_wildcard(scs));
        }
        if g == cs.len() {
            return PreparedPath { prefix: rooted_chars(&cs), tail: Tail::Exact };
        }
        let prefix = prefix_text(&cs, g);
        let rest = merged_tail(&cs, g);
        if rest.len() == 1 && is_double_star(rest[0].as_slice()) {
            proof {
                assert(pieces(rest@) =~= seq![glob_any()]);
            }
            PreparedPath { prefix, tail: Tail::Subtree }
        } else {
            proof {
                if pieces(rest@) == seq![glob_any()] {
                    assert(rest@.len() == pieces(rest@).len());
                    assert(rest@.len() == 1);
                    assert(pieces(rest@)[0] == rest@[0]@);
                    assert(false);
                }
            }
            PreparedPath { prefix, tail: Tail::Glob(rest) }
        }
    }

    /// Normalizes `pattern` against `base` (and `~` against `home`) once, and
    /// splits it into a literal prefix and a glob tail.
    pub fn new(pattern: &PathPattern, base: &str, home: Option<&str>) -> (r: Self)
        ensures
            r@ == prepared_view(pattern.0@, base@, opt_chars(home)),
    {
        let p = to_chars(pattern.0.as_str());
        let b = to_chars(base);
        match home {
            None => PreparedPath::from_chars(p.as_slice(), b.as_slice(), None),
            Some(h) => {
                let hc = to_chars(h);
                PreparedPath::from_chars(p.as_slice(), b.as_slice(), Some(&hc))
            },
        }
    }

    /// `path` starts with the prefix at a component boundary.
    fn boundary(&self, path: &[char]) -> (b: bool)
        ensures
            b == at_boundary(path@, self@.prefix),
    {
        let n = self.prefix.len();
        if n > path.len() {
            return false;
        }
        // Rules often share a long directory prefix: comparing its last
        // character first rejects most mismatches early.
        if n > 0 && path[n - 1] != self.prefix[n - 1] {
            assert(path@.subrange(0, n as int)[n - 1] != self@.prefix[n - 1]);
            return false;
        }
        let mut i: usize = 0;
        while i < n
            invariant
                n == self@.prefix.len(),
                n <= path@.len(),
                i <= n,
                forall|j: int| 0 <= j < i ==> path@[j] == self@.prefix[j],
            decreases n - i,
        {
            if path[i] != self.prefix[i] {
                assert(path@.subrange(0, n as int)[i as int] != self@.prefix[i as int]);
                return false;
            }
            i += 1;
        }
        assert(path@.subrange(0, n as int) =~= self@.prefix);
        n == path.len() || path[n] == '/'
    }

    /// Whether this prepared pattern accepts the resolved path `path`.
    pub fn matches_chars(&self, path: &[char]) -> (r: bool)
        ensures
            r == accepts(self@, path@),
    {
        match &self.tail {
            Tail::Never => false,
            Tail::Exact => chars_eq(path, self.prefix.as_slice()),
            Tail::Subtree => self.boundary(path),
            Tail::Glob(parts) => {
                if !self.boundary(path) {
                    return false;
                }
                let n = self.prefix.len();
                let rest: Vec<Vec<char>> = if n == path.len() {
                    Vec::new()
                } else {
                    let tail = copy_range(path, n + 1, path.len());
                    split_chars(tail.as_slice(), '/')
                };
                proof {
                    assert(pieces(rest@) =~= rest_segments(path@, self@.prefix));
                    assert(pieces(parts@).subrange(0, parts@.len() as int) =~= pieces(parts@));
                    assert(pieces(rest@).subrange(0, rest@.len() as int) =~= pieces(rest@));
                }
                match_parts(parts, 0, parts.len(), &rest, 0, rest.len())
            },
        }
    }

    /// Whether this prepared pattern accepts the resolved path `path`.
    pub fn matches(&self, path: &str) -> (r: bool)
        ensures
            r == accepts(self@, path@),
    {
        let p = to_chars(path);
        self.matches_chars(p.as_slice())
    }
}

/// Some prepared pattern of the list accepts `path`.
pub open spec fn any_accepts(vs: Seq<PreparedView>, path: Seq<char>) -> bool {
    exists|i: int| 0 <= i < vs.len() && #[trigger] accepts(vs[i], path)
}

/// The prefix texts of prepared patterns.
pub open spec fn prefixes(vs: Seq<PreparedView>) -> Seq<Seq<char>> {
    vs.map_values(|v: PreparedView| v.prefix)
}

/// The prefix lengths of prepared patterns.
pub open spec fn prefix_lengths(vs: Seq<PreparedView>) -> Seq<int> {
    vs.map_values(|v: PreparedView| v.prefix.len() as int)
}

/// The length in UTF-8 bytes of a prefix, as `str::len` gives it.
pub open spec fn byte_length(t: Seq<char>) -> int {
    (encode_utf8(t).len() as usize) as int
}

/// The prefix lengths of prepared patterns in UTF-8 bytes.
pub open spec fn prefix_byte_lengths(vs: Seq<PreparedView>) -> Seq<int> {
    vs.map_values(|v: PreparedView| byte_length(v.prefix))
}

/// The UTF-8 length of a prefix.
fn prefix_byte_length(t: &[char]) -> (n: usize)
    ensures
        n as int == byte_length(t@),
{
    let s = crate::text::string_from_chars(t);
    s.as_str().len()
}

/// Below this many rules a scan is cheaper than the index.
pub const MIN_RULES: usize = 64;

/// With fewer distinct prefixes the index selects too little.
pub const MIN_PREFIXES: usize = 8;

/// Bound on the number of prefix lookups per check.
pub const MAX_PREFIX_LENGTHS: usize = 16;

/// A rule list gets a prefix index when it is large, has enough distinct
/// prefixes, and few distinct prefix lengths, counted in UTF-8 bytes.
pub open spec fn index_worthwhile(vs: Seq<PreparedView>) -> bool {
    &&& vs.len() >= MIN_RULES
    &&& prefixes(vs).to_set().len() >= MIN_PREFIXES
    &&& prefix_byte_lengths(vs).to_set().len() <= MAX_PREFIX_LENGTHS
}

/// Prefixes are in non-decreasing order from index `lo` on.
pub open spec fn sorted_from(vs: Seq<PreparedView>, lo: int) -> bool {
    forall|i: int, j: int| lo <= i < j < vs.len() ==> !lex_lt(vs[j].prefix, vs[i].prefix)
}

/// Every pattern after the first has its prefix length listed.
pub open spec fn lengths_cover(vs: Seq<PreparedView>, lens: Seq<usize>) -> bool {
    forall|j: int|
        1 <= j < vs.len() ==> exists|k: int| 0 <= k < lens.len() && lens[k] == (#[trigger] vs[j]).prefix.len()
}

pub open spec fn views(v: Seq<PreparedPath>) -> Seq<PreparedView> {
    v.map_values(|p: PreparedPath| p@)
}

/// The first index in `lo..hi` whose prefix does not order before `key`;
/// the prefixes there are sorted.
fn lower_bound(v: &Vec<PreparedPath>, lo: usize, hi: usize, key: &[char]) -> (k: usize)
    requires
        lo <= hi <= v@.len(),
        sorted_from(views(v@), lo as int),
    ensures
        lo <= k <= hi,
        forall|i: int| lo <= i < k ==> lex_lt(views(v@)[i].prefix, key@),
        forall|i: int| k <= i < hi ==> !lex_lt(views(v@)[i].prefix, key@),
{
    let ghost vs = views(v@);
    let mut a = lo;
    let mut b = hi;
    while a < b
        invariant
            lo <= a <= b <= hi <= v@.len(),
            vs == views(v@),
            sorted_from(vs, lo as int),
            forall|i: int| lo <= i < a ==> lex_lt(vs[i].prefix, key@),
            forall|i: int| b <= i < hi ==> !lex_lt(vs[i].prefix, key@),
        decreases b - a,
    {
        let mid = a + (b - a) / 2;
        assert(vs[mid as int] == v@[mid as int]@);
        if lex_less(v[mid].prefix.as_slice(), key) {
            proof {
                assert forall|i: int| lo <= i < mid + 1 implies lex_lt(vs[i].prefix, key@) by {
                    if i < mid {
                        assert(!lex_lt(vs[mid as int].prefix, vs[i].prefix));
                        lemma_lex_total(vs[i].prefix, vs[mid as int].prefix);
                        lemma_lex_transitive(vs[i].prefix, vs[mid as int].prefix, key@);
                    }
                }
            }
            a = mid + 1;
        } else {
            proof {
                assert forall|i: int| mid <= i < hi implies !lex_lt(vs[i].prefix, key@) by {
                    if mid < i && i < b {
                        assert(!lex_lt(vs[i].prefix, vs[mid as int].prefix));
                        lemma_lex_total(vs[i].prefix, vs[mid as int].prefix);
                        lemma_lex_transitive(vs[mid as int].prefix, vs[i].prefix, key@);
                    }
                }
            }
            b = mid;
        }
    }
    a
}

/// `lens` is strictly increasing.
pub open spec fn strictly_increasing(lens: Seq<usize>) -> bool {
    forall|i: int, j: int| 0 <= i < j < lens.len() ==> lens[i] < lens[j]
}

pub open spec fn as_ints(lens: Seq<usize>) -> Seq<int> {
    lens.map_values(|u: usize| u as int)
}

fn contains_text(list: &Vec<Vec<char>>, t: &[char]) -> (r: bool)
    ensures
        r == pieces(list@).contains(t@),
{
    let mut i: usize = 0;
    while i < list.len()
        invariant
            i <= list@.len(),
            forall|j: int| 0 <= j < i ==> pieces(list@)[j] != t@,
        decreases list.len() - i,
    {
        if chars_eq(list[i].as_slice(), t) {
            assert(pieces(list@)[i as int] == t@);
            return true;
        }
        i += 1;
    }
    false
}

/// Adds `x` to a strictly increasing list unless it is already there.
fn insert_length(lens: &mut Vec<usize>, x: usize)
    requires
        strictly_increasing(old(lens)@),
    ensures
        strictly_increasing(final(lens)@),
        forall|y: int| as_ints(final(lens)@).contains(y) <==> (as_ints(old(lens)@).contains(y) || y == x),
{
    let ghost o = lens@;
    let mut k: usize = 0;
    while k < lens.len() && lens[k] < x
        invariant
            k <= lens@.len(),
            lens@ == o,
            strictly_increasing(o),
            forall|i: int| 0 <= i < k ==> o[i] < x,
        decreases lens.len() - k,
    {
        k += 1;
    }
    if k < lens.len() && lens[k] == x {
        assert(as_ints(o)[k as int] == x);
        return;
    }
    lens.insert(k, x);
    proof {
        let nl = lens@;
        assert(nl == o.insert(k as int, x));
        assert forall|i: int, j: int| 0 <= i < j < nl.len() implies nl[i] < nl[j] by {
            if j < k {
            } else if i < k && j == k {
            } else if i < k && j > k {
                assert(nl[j] == o[j - 1]);
                assert(o[k as int] >= x);
                if j - 1 > k {
                    assert(o[k as int] < o[j - 1]);
                }
            } else if i == k {
                assert(nl[j] == o[j - 1]);
                if j - 1 > k {
                    assert(o[k as int] < o[j - 1]);
                }
            } else {
                assert(nl[i] == o[i - 1]);
                assert(nl[j] == o[j - 1]);
            }
        }
        assert forall|y: int| as_ints(nl).contains(y) <==> (as_ints(o).contains(y) || y == x) by {
            if as_ints(nl).contains(y) {
                let i = choose|i: int| 0 <= i < as_ints(nl).len() && as_ints(nl)[i] == y;
                if i < k {
                    assert(as_ints(o)[i] == y);
                } else if i > k {
                    assert(as_ints(o)[i - 1] == y);
                }
            }
            if as_ints(o).contains(y) {
                let i = choose|i: int| 0 <= i < as_ints(o).len() && as_ints(o)[i] == y;
                if i < k {
                    assert(as_ints(nl)[i] == y);
                } else {
                    assert(as_ints(nl)[i + 1] == y);
                }
            }
            if y == x {
                assert(as_ints(nl)[k as int] == y);
            }
        }
    }
}

/// Whether a prepared pattern has the prefix `t`.
pub open spec fn has_prefix(t: Seq<char>) -> spec_fn(PreparedView) -> bool {
    |v: PreparedView| v.prefix == t
}

/// The patterns of `vs` whose prefix is `t`, in their order in `vs`.
pub open spec fn with_prefix(vs: Seq<PreparedView>, t: Seq<char>) -> Seq<PreparedView> {
    vs.filter(has_prefix(t))
}

/// Inserting `x` before every pattern whose prefix does not order before
/// its own puts it first among the patterns that share its prefix.
proof fn lemma_insert_with_prefix(ov: Seq<PreparedView>, k: int, x: PreparedView, t: Seq<char>)
    requires
        0 <= k <= ov.len(),
        forall|i: int| 0 <= i < k ==> lex_lt(ov[i].prefix, x.prefix),
    ensures
        with_prefix(ov.insert(k, x), t) == with_prefix(seq![x] + ov, t),
{
    let pr = has_prefix(t);
    let a = ov.take(k);
    let b = ov.skip(k);
    assert(ov.insert(k, x) =~= a + (seq![x] + b));
    assert(ov =~= a + b);
    Seq::filter_distributes_over_add(a, seq![x] + b, pr);
    Seq::filter_distributes_over_add(a, b, pr);
    b.lemma_filter_prepend(x, pr);
    ov.lemma_filter_prepend(x, pr);
    if t == x.prefix {
        if a.filter(pr).len() > 0 {
            let f = a.filter(pr)[0];
            a.lemma_filter_pred(pr, 0);
            assert(a.filter(pr).contains(f));
            a.lemma_filter_contains_rev(pr, f);
            let j = choose|j: int| 0 <= j < a.len() && a[j] == f;
            assert(lex_lt(ov[j].prefix, x.prefix));
            lemma_lex_irreflexive(x.prefix);
            assert(false);
        }
        assert(a.filter(pr) =~= Seq::<PreparedView>::empty());
        assert(seq![x] + (a.filter(pr) + b.filter(pr)) =~= a.filter(pr) + (seq![x] + b.filter(pr)));
    } else {
        assert(Seq::<PreparedView>::empty() + (a.filter(pr) + b.filter(pr)) =~= a.filter(pr) + (
        Seq::<PreparedView>::empty() + b.filter(pr)));
    }
}

/// Inserting at the position found by `lower_bound` keeps the order.
proof fn lemma_insert_sorted(vs: Seq<PreparedView>, k: int, x: PreparedView)
    requires
        0 <= k <= vs.len(),
        sorted_from(vs, 0),
        forall|i: int| 0 <= i < k ==> lex_lt(vs[i].prefix, x.prefix),
        forall|i: int| k <= i < vs.len() ==> !lex_lt(vs[i].prefix, x.prefix),
    ensures
        sorted_from(vs.insert(k, x), 0),
        forall|v: PreparedView| vs.insert(k, x).contains(v) <==> (vs.contains(v) || v == x),
{
    let w = vs.insert(k, x);
    assert forall|i: int, j: int| 0 <= i < j < w.len() implies !lex_lt(w[j].prefix, w[i].prefix) by {
        if j < k {
        } else if i < k && j == k {
            lemma_lex_asymmetric(vs[i].prefix, x.prefix);
        } else if i < k && j > k {
            assert(w[j] == vs[j - 1]);
        } else if i == k {
            assert(w[j] == vs[j - 1]);
        } else {
            assert(w[i] == vs[i - 1]);
            assert(w[j] == vs[j - 1]);
        }
    }
    assert forall|v: PreparedView| w.contains(v) <==> (vs.contains(v) || v == x) by {
        if w.contains(v) {
            let i = choose|i: int| 0 <= i < w.len() && w[i] == v;
            if i < k {
                assert(vs[i] == v);
            } else if i > k {
                assert(vs[i - 1] == v);
            }
        }
        if vs.contains(v) {
            let i = choose|i: int| 0 <= i < vs.len() && vs[i] == v;
            if i < k {
                assert(w[i] == v);
            } else {
                assert(w[i + 1] == v);
            }
        }
        if v == x {
            assert(w[k] == v);
        }
    }
}

/// Prepared patterns of one action. Large selective lists carry a prefix
/// index: the first rule stays in place and the others are sorted by prefix.
pub struct PathSet {
    patterns: Vec<PreparedPath>,
    prefix_lengths: Vec<usize>,
}

impl View for PathSet {
    type V = Seq<PreparedView>;

    closed spec fn view(&self) -> Seq<PreparedView> {
        views(self.patterns@)
    }
}

impl PathSet {
    #[verifier::type_invariant]
    closed spec fn well_formed(self) -> bool {
        let vs = views(self.patterns@);
        let lens = self.prefix_lengths@;
        lens.len() > 0 ==> {
            &&& vs.len() > 0
            &&& forall|i: int, j: int| 0 <= i < j < lens.len() ==> lens[i] < lens[j]
            &&& lengths_cover(vs, lens)
            &&& sorted_from(vs, 1)
        }
    }

    /// Whether checks use the prefix index rather than a scan.
    pub closed spec fn indexed(self) -> bool {
        self.prefix_lengths@.len() > 0
    }

    /// The prefix lengths the index looks up, in increasing order; none
    /// for a scan.
    pub closed spec fn index_lengths(self) -> Seq<int> {
        as_ints(self.prefix_lengths@)
    }

    /// A set that is checked by scanning every pattern.
    pub fn scan(patterns: Vec<PreparedPath>) -> (r: Self)
        ensures
            r@ == views(patterns@),
            !r.indexed(),
            r.index_lengths().len() == 0,
    {
        PathSet { patterns, prefix_lengths: Vec::new() }
    }

    /// Prepares the check of a pattern list: a scan for small or broad
    /// lists, otherwise a prefix index over the patterns after the first,
    /// which are sorted by prefix.
    pub fn new(input: Vec<PreparedPath>) -> (r: Self)
        ensures
            r@.len() == input@.len(),
            forall|v: PreparedView| r@.contains(v) <==> views(input@).contains(v),
            r.indexed() == index_worthwhile(views(input@)),
            r@.to_multiset() == views(input@).to_multiset(),
            !r.indexed() ==> r@ == views(input@) && r.index_lengths().len() == 0,
            r.indexed() ==> r@[0] == views(input@)[0] && sorted_from(r@, 1),
            r.indexed() ==> forall|t: Seq<char>|
                #[trigger] with_prefix(r@.drop_first(), t) == with_prefix(views(input@).drop_first(), t),
            r.indexed() ==> (forall|i: int, j: int|
                0 <= i < j < r.index_lengths().len() ==> r.index_lengths()[i] < r.index_lengths()[j]),
            r.indexed() ==> forall|y: int|
                r.index_lengths().contains(y) <==> prefix_lengths(views(input@)).contains(y),
    {
        let n = input.len();
        let ghost orig = views(input@);
        if n < MIN_RULES {
            return PathSet::scan(input);
        }
        let mut distinct: Vec<Vec<char>> = Vec::new();
        let mut lens: Vec<usize> = Vec::new();
        let mut byte_lens: Vec<usize> = Vec::new();
        let mut i: usize = 0;
        while i < n
            invariant
                i <= n,
                n == input@.len(),
                orig == views(input@),
                pieces(distinct@).no_duplicates(),
                forall|t: Seq<char>|
                    pieces(distinct@).contains(t) <==> prefixes(orig.take(i as int)).contains(t),
                strictly_increasing(lens@),
                forall|y: int|
                    as_ints(lens@).contains(y) <==> prefix_lengths(orig.take(i as int)).contains(y),
                strictly_increasing(byte_lens@),
                forall|y: int|
                    as_ints(byte_lens@).contains(y) <==> prefix_byte_lengths(orig.take(i as int)).contains(y),
            decreases n - i,
        {
            let pre = &input[i].prefix;
            assert(orig[i as int].prefix == pre@);
            let ghost before = pieces(distinct@);
            assert(prefixes(orig.take(i + 1)) =~= prefixes(orig.take(i as int)).push(pre@));
            assert(prefix_lengths(orig.take(i + 1)) =~= prefix_lengths(orig.take(i as int)).push(
                pre@.len() as int,
            ));
            assert(prefix_byte_lengths(orig.take(i + 1)) =~= prefix_byte_lengths(orig.take(i as int)).push(
                byte_length(pre@),
            ));
            proof {
                lemma_push_contains(prefixes(orig.take(i as int)), pre@);
                lemma_push_contains(prefix_lengths(orig.take(i as int)), pre@.len() as int);
                lemma_push_contains(prefix_byte_lengths(orig.take(i as int)), byte_length(pre@));
            }
            if !contains_text(&distinct, pre.as_slice()) {
                distinct.push(copy_range(pre.as_slice(), 0, pre.len()));
                assert(pre@.subrange(0, pre@.len() as int) =~= pre@);
                assert(pieces(distinct@) =~= before.push(pre@));
                proof {
                    lemma_push_contains(before, pre@);
                    assert forall|a: int, b: int|
                        0 <= a < pieces(distinct@).len() && 0 <= b < pieces(distinct@).len() && a
                            != b implies pieces(distinct@)[a] != pieces(distinct@)[b] by {
                        if a == before.len() as int {
                            assert(pieces(distinct@)[a] == pre@);
                            assert(before[b] == pieces(distinct@)[b]);
                            assert(before.contains(before[b]));
                        } else if b == before.len() as int {
                            assert(pieces(distinct@)[b] == pre@);
                            assert(before[a] == pieces(distinct@)[a]);
                            assert(before.contains(before[a]));
                        } else {
                            assert(before[a] == pieces(distinct@)[a]);
                            assert(before[b] == pieces(distinct@)[b]);
                        }
                    }
                }
            }
            insert_length(&mut lens, pre.len());
            insert_length(&mut byte_lens, prefix_byte_length(pre.as_slice()));
            i += 1;
        }
        proof {
            assert(orig.take(n as int) =~= orig);
            let d = pieces(distinct@);
            d.unique_seq_to_set();
            assert(d.to_set() =~= prefixes(orig).to_set());
            let li = as_ints(lens@);
            assert(li.no_duplicates()) by {
                assert forall|a: int, b: int| 0 <= a < li.len() && 0 <= b < li.len() && a != b
                    implies li[a] != li[b] by {
                    if a < b {
                        assert(lens@[a] < lens@[b]);
                    } else {
                        assert(lens@[b] < lens@[a]);
                    }
                }
            }
            li.unique_seq_to_set();
            assert(li.to_set() =~= prefix_lengths(orig).to_set());
            assert(forall|y: int| li.contains(y) <==> prefix_lengths(orig).contains(y));
            let bi = as_ints(byte_lens@);
            assert(bi.no_duplicates()) by {
                assert forall|a: int, b: int| 0 <= a < bi.len() && 0 <= b < bi.len() && a != b
                    implies bi[a] != bi[b] by {
                    if a < b {
                        assert(byte_lens@[a] < byte_lens@[b]);
                    } else {
                        assert(byte_lens@[b] < byte_lens@[a]);
                    }
                }
            }
            bi.unique_seq_to_set();
            assert(bi.to_set() =~= prefix_byte_lengths(orig).to_set());
        }
        if distinct.len() < MIN_PREFIXES || byte_lens.len() > MAX_PREFIX_LENGTHS {
            return PathSet::scan(input);
        }
        proof {
            assert(prefix_lengths(orig).contains(orig[0].prefix.len() as int)) by {
                assert(prefix_lengths(orig)[0] == orig[0].prefix.len() as int);
            }
            assert(as_ints(lens@).contains(orig[0].prefix.len() as int));
            assert(lens@.len() > 0);
        }
        // Keep the first rule in place; sort the others by prefix, keeping
        // the order of rules that share a prefix.
        let mut rest = input;
        let mut out: Vec<PreparedPath> = Vec::new();
        assert(views(out@) =~= orig.subrange(n as int, n as int));
        while rest.len() > 1
            invariant
                1 <= rest@.len() <= n,
                n == orig.len(),
                views(rest@) == orig.take(rest@.len() as int),
                out@.len() + rest@.len() == n,
                sorted_from(views(out@), 0),
                strictly_increasing(lens@),
                index_worthwhile(orig),
                lens@.len() > 0,
                forall|y: int| as_ints(lens@).contains(y) <==> prefix_lengths(orig).contains(y),
                forall|v: PreparedView|
                    views(out@).contains(v) <==> orig.subrange(rest@.len() as int, n as int).contains(v),
                views(out@).to_multiset() == orig.subrange(rest@.len() as int, n as int).to_multiset(),
                forall|t: Seq<char>|
                    #[trigger] with_prefix(views(out@), t) == with_prefix(
                        orig.subrange(rest@.len() as int, n as int),
                        t,
                    ),
            decreases rest@.len(),
        {
            let ghost before = views(rest@);
            let ghost old_len = rest@.len();
            let ghost old_rest = rest@;
            let x = rest.pop().unwrap();
            assert(x == old_rest[old_len - 1]);
            assert(before[old_len - 1] == x@);
            assert(before[old_len - 1] == orig[old_len - 1]);
            assert(x@ == orig[rest@.len() as int]);
            assert(views(rest@) =~= orig.take(rest@.len() as int));
            let k = lower_bound(&out, 0, out.len(), x.prefix.as_slice());
            let ghost ov = views(out@);
            proof {
                lemma_insert_sorted(ov, k as int, x@);
            }
            out.insert(k, x);
            proof {
                assert(views(out@) =~= ov.insert(k as int, x@));
                let m = rest@.len() as int;
                lemma_front_contains(orig, m, n as int);
                assert forall|v: PreparedView|
                    views(out@).contains(v) <==> orig.subrange(m, n as int).contains(v) by {
                    assert(ov.insert(k as int, x@).contains(v) <==> (ov.contains(v) || v == x@));
                    assert(ov.contains(v) <==> orig.subrange(m + 1, n as int).contains(v));
                }
                let tail = orig.subrange(m + 1, n as int);
                assert(orig.subrange(m, n as int) =~= tail.insert(0, x@));
                assert(orig.subrange(m, n as int) =~= seq![x@] + tail);
                to_multiset_insert(ov, k as int, x@);
                to_multiset_insert(tail, 0, x@);
                assert forall|t: Seq<char>|
                    #[trigger] with_prefix(views(out@), t) == with_prefix(orig.subrange(m, n as int), t) by {
                    lemma_insert_with_prefix(ov, k as int, x@, t);
                    ov.lemma_filter_prepend(x@, has_prefix(t));
                    tail.lemma_filter_prepend(x@, has_prefix(t));
                    assert(with_prefix(ov, t) == with_prefix(tail, t));
                }
            }
        }
        let first = rest.pop().unwrap();
        assert(first@ == orig[0]);
        let ghost ov = views(out@);
        out.insert(0, first);
        proof {
            let vs = views(out@);
            assert(vs =~= ov.insert(0, first@));
            assert(orig.subrange(1, n as int) =~= orig.drop_first());
            assert(vs.drop_first() =~= ov);
            assert(orig =~= orig.drop_first().insert(0, orig[0]));
            to_multiset_insert(ov, 0, first@);
            to_multiset_insert(orig.drop_first(), 0, orig[0]);
            assert forall|t: Seq<char>|
                #[trigger] with_prefix(vs.drop_first(), t) == with_prefix(orig.drop_first(), t) by {
                assert(with_prefix(ov, t) == with_prefix(orig.subrange(1, n as int), t));
            }
            assert forall|i: int, j: int| 1 <= i < j < vs.len() implies !lex_lt(vs[j].prefix, vs[i].prefix) by {
                assert(vs[i] == ov[i - 1]);
                assert(vs[j] == ov[j - 1]);
            }
            assert forall|v: PreparedView| vs.contains(v) <==> orig.contains(v) by {
                if vs.contains(v) {
                    let i = choose|i: int| 0 <= i < vs.len() && vs[i] == v;
                    if i > 0 {
                        assert(ov[i - 1] == v);
                        assert(ov.contains(v));
                        let j = choose|j: int| 0 <= j < n - 1 && #[trigger] orig.subrange(1, n as int)[j] == v;
                        assert(orig[j + 1] == v);
                    } else {
                        assert(orig[0] == v);
                    }
                }
                if orig.contains(v) {
                    let i = choose|i: int| 0 <= i < orig.len() && orig[i] == v;
                    if i == 0 {
                        assert(vs[0] == v);
                    } else {
                        assert(orig.subrange(1, n as int)[i - 1] == v);
                        assert(ov.contains(v));
                        let j = choose|j: int| 0 <= j < ov.len() && ov[j] == v;
                        assert(vs[j + 1] == v);
                    }
                }
            }
            assert forall|j: int| 1 <= j < vs.len() implies exists|k: int|
                0 <= k < lens@.len() && lens@[k] == (#[trigger] vs[j]).prefix.len() by {
                assert(vs.contains(vs[j]));
                let i = choose|i: int| 0 <= i < orig.len() && orig[i] == vs[j];
                assert(orig.take(n as int) =~= orig);
                assert(prefix_lengths(orig)[i] == vs[j].prefix.len() as int);
                assert(prefix_lengths(orig).contains(vs[j].prefix.len() as int));
                let k = choose|k: int| 0 <= k < as_ints(lens@).len() && as_ints(lens@)[k] == vs[j].prefix.len() as int;
                assert(lens@[k] == vs[j].prefix.len());
            }
        }
        let r = PathSet { patterns: out, prefix_lengths: lens };
        assert(r.indexed());
        assert(r@[0] == orig[0]);
        r
    }

    /// Whether the set holds no pattern.
    pub fn is_empty(&self) -> (b: bool)
        ensures
            b == (self@.len() == 0),
    {
        self.patterns.len() == 0
    }

    /// Whether some pattern of the set accepts the resolved path `path`.
    pub fn matches_chars(&self, path: &[char]) -> (r: bool)
        ensures
            r == any_accepts(self@, path@),
    {
        if self.patterns.len() == 0 {
            return false;
        }
        if self.prefix_lengths.len() == 0 {
            let mut i: usize = 0;
            while i < self.patterns.len()
                invariant
                    i <= self.patterns@.len(),
                    forall|j: int| 0 <= j < i ==> !#[trigger] accepts(views(self.patterns@)[j], path@),
                decreases self.patterns.len() - i,
            {
                if self.patterns[i].matches_chars(path) {
                    assert(accepts(views(self.patterns@)[i as int], path@));
                    return true;
                }
                i += 1;
            }
            false
        } else {
            if self.patterns[0].matches_chars(path) {
                assert(accepts(views(self.patterns@)[0], path@));
                return true;
            }
            let r = self.matches_indexed(path);
            proof {
                if any_accepts(self@, path@) {
                    let j = choose|j: int| 0 <= j < self@.len() && #[trigger] accepts(self@[j], path@);
                    assert(j != 0);
                }
            }
            r
        }
    }

    /// Whether some pattern after the first accepts `path`, looking only at
    /// patterns whose prefix is a leading part of the path ending at a
    /// component boundary. The index skips no accepting pattern: the result
    /// is exactly whether one of them accepts the path.
    pub fn matches_indexed(&self, path: &[char]) -> (r: bool)
        requires
            self.indexed(),
        ensures
            r == exists|j: int| 1 <= j < self@.len() && #[trigger] accepts(self@[j], path@),
    {
        proof {
            use_type_invariant(self);
        }
        let n = self.patterns.len();
        let ghost vs = views(self.patterns@);
        assert(vs == self@);
        let lens = &self.prefix_lengths;
        assert(self.well_formed());
        assert(lens@.len() > 0);
        assert(lengths_cover(vs, lens@));
        let mut idx: usize = 0;
        while idx < lens.len()
            invariant
                idx <= lens@.len(),
                n == vs.len(),
                vs == views(self.patterns@),
                lens@ == self.prefix_lengths@,
                n > 0,
                forall|i: int, j: int| 0 <= i < j < lens@.len() ==> lens@[i] < lens@[j],
                sorted_from(vs, 1),
                vs == self@,
                lengths_cover(vs, lens@),
                forall|j: int|
                    1 <= j < n && (exists|k: int| 0 <= k < idx && lens@[k] == (#[trigger] vs[j]).prefix.len())
                        ==> !accepts(vs[j], path@),
            decreases lens.len() - idx,
        {
            let length = lens[idx];
            if length > path.len() {
                proof {
                    assert forall|j: int| 1 <= j < n && #[trigger] accepts(vs[j], path@) implies false by {
                        assert(vs[j].prefix.len() <= path@.len()) by {
                            if vs[j].tail is Exact {
                                assert(path@ == vs[j].prefix);
                            }
                        }
                        let k = choose|k: int| 0 <= k < lens@.len() && lens@[k] == vs[j].prefix.len();
                        if k >= idx {
                            if k > idx {
                                assert(lens@[idx as int] < lens@[k]);
                            }
                        }
                    }
                }
                return false;
            }
            let boundary = length == path.len() || path[length] == '/';
            if boundary {
                let prefix = copy_range(path, 0, length);
                let first = lower_bound(&self.patterns, 1, n, prefix.as_slice());
                let mut j = first;
                while j < n && chars_eq(self.patterns[j].prefix.as_slice(), prefix.as_slice())
                    invariant
                        first <= j <= n,
                        1 <= first,
                        n == vs.len(),
                        vs == views(self.patterns@),
                        vs == self@,
                        sorted_from(vs, 1),
                        forall|i: int| 1 <= i < first ==> lex_lt(vs[i].prefix, prefix@),
                        forall|i: int| first <= i < n ==> !lex_lt(vs[i].prefix, prefix@),
                        forall|i: int| first <= i < j ==> vs[i].prefix == prefix@ && !accepts(#[trigger] vs[i], path@),
                    decreases n - j,
                {
                    if self.patterns[j].matches_chars(path) {
                        assert(accepts(vs[j as int], path@));
                        return true;
                    }
                    j += 1;
                }
                proof {
                    // Every pattern with this prefix sits in first..j.
                    assert forall|i: int| 1 <= i < n && vs[i].prefix == prefix@ implies first <= i < j by {
                        if i < first {
                            lemma_lex_irreflexive(prefix@);
                        }
                        if i >= j {
                            assert(j < n);
                            assert(vs[j as int].prefix != prefix@);
                            // prefix@ <= vs[j] <= vs[i] == prefix@
                            assert(!lex_lt(vs[j as int].prefix, prefix@));
                            if j < i {
                                assert(!lex_lt(vs[i].prefix, vs[j as int].prefix));
                            }
                            lemma_lex_total(vs[j as int].prefix, prefix@);
                            lemma_lex_asymmetric(prefix@, vs[j as int].prefix);
                        }
                    }
                }
            }
            proof {
                assert forall|j2: int|
                    1 <= j2 < n && (exists|k: int| 0 <= k < idx + 1 && lens@[k] == (#[trigger] vs[j2]).prefix.len())
                    implies !accepts(vs[j2], path@) by {
                    let k = choose|k: int| 0 <= k < idx + 1 && lens@[k] == vs[j2].prefix.len();
                    if k == idx && accepts(vs[j2], path@) {
                        assert(vs[j2].prefix.len() == length);
                        if vs[j2].tail is Exact {
                            assert(path@ == vs[j2].prefix);
                        }
                        assert(at_boundary(path@, vs[j2].prefix) || path@ == vs[j2].prefix);
                        if path@ == vs[j2].prefix {
                            assert(path@.subrange(0, length as int) =~= path@);
                        }
                        assert(vs[j2].prefix == path@.subrange(0, length as int));
                    }
                }
            }
            idx += 1;
        }
        proof {
            assert forall|j: int| 1 <= j < n implies !#[trigger] accepts(vs[j], path@) by {
                let k = choose|k: int| 0 <= k < lens@.len() && lens@[k] == vs[j].prefix.len();
            }
        }
        false
    }

    /// Whether some pattern of the set accepts the resolved path `path`.
    pub fn matches(&self, path: &str) -> (r: bool)
        ensures
            r == any_accepts(self@, path@),
    {
        let p = crate::text::to_chars(path);
        self.matches_chars(p.as_slice())
    }

    /// Whether checks on this set use the prefix index.
    pub fn uses_index(&self) -> (b: bool)
        ensures
            b == self.indexed(),
    {
        self.prefix_lengths.len() > 0
    }
}

} // verus!

verus! {

/// The prepared forms of a list of pattern texts.
pub open spec fn prepared_list(texts: Seq<Seq<char>>, base: Seq<char>, home: Option<Seq<char>>) -> Seq<
    PreparedView,
> {
    texts.map_values(|t: Seq<char>| prepared_view(t, base, home))
}

/// `s` holds the prepared forms of `texts`, in some order.
pub open spec fn represents(
    s: Seq<PreparedView>,
    texts: Seq<Seq<char>>,
    base: Seq<char>,
    home: Option<Seq<char>>,
) -> bool {
    &&& s.len() == texts.len()
    &&& forall|v: PreparedView| s.contains(v) <==> prepared_list(texts, base, home).contains(v)
}

/// a prepared list accepts a resolved path exactly when some pattern of
/// the unprepared list matches it.
pub proof fn lemma_represents(
    s: Seq<PreparedView>,
    texts: Seq<Seq<char>>,
    base: Seq<char>,
    home: Option<Seq<char>>,
    p: Seq<char>,
)
    requires
        represents(s, texts, base, home),
    ensures
        any_accepts(s, p) == exists|i: int|
            0 <= i < texts.len() && #[trigger] matches_resolved(texts[i], base, home, p),
{
    let pl = prepared_list(texts, base, home);
    if any_accepts(s, p) {
        let j = choose|j: int| 0 <= j < s.len() && #[trigger] accepts(s[j], p);
        assert(s.contains(s[j]));
        assert(pl.contains(s[j]));
        let i = choose|i: int| 0 <= i < pl.len() && pl[i] == s[j];
        assert(pl[i] == prepared_view(texts[i], base, home));
        lemma_prepared_agrees(texts[i], base, home, p);
        assert(matches_resolved(texts[i], base, home, p));
    }
    if exists|i: int| 0 <= i < texts.len() && #[trigger] matches_resolved(texts[i], base, home, p) {
        let i = choose|i: int| 0 <= i < texts.len() && #[trigger] matches_resolved(texts[i], base, home, p);
        lemma_prepared_agrees(texts[i], base, home, p);
        assert(pl[i] == prepared_view(texts[i], base, home));
        assert(pl.contains(pl[i]));
        assert(s.contains(pl[i]));
        let j = choose|j: int| 0 <= j < s.len() && s[j] == pl[i];
        assert(accepts(s[j], p));
    }
}

/// Prepares every pattern of a list against `base` and `home`.
pub fn prepare_chars(patterns: &[PathPattern], base: &[char], home: Option<&Vec<char>>) -> (r: PathSet)
    ensures
        represents(r@, path_texts(patterns@), base@, match home {
            Some(h) => Some(h@),
            None => None,
        }),
        r.indexed() == index_worthwhile(prepared_list(path_texts(patterns@), base@, match home {
            Some(h) => Some(h@),
            None => None,
        })),
{
    let ghost hv = match home {
        Some(h) => Some(h@),
        None => None,
    };
    let ghost target = prepared_list(path_texts(patterns@), base@, hv);
    let mut out: Vec<PreparedPath> = Vec::new();
    let mut i: usize = 0;
    while i < patterns.len()
        invariant
            i <= patterns@.len(),
            target == prepared_list(path_texts(patterns@), base@, hv),
            hv == (match home {
                Some(h) => Some(h@),
                None => None,
            }),
            views(out@) == target.take(i as int),
        decreases patterns.len() - i,
    {
        let pp = PreparedPath::from_chars(
            crate::text::to_chars(patterns[i].0.as_str()).as_slice(),
            base,
            home,
        );
        let ghost prev = views(out@);
        out.push(pp);
        assert(views(out@) =~= prev.push(pp@));
        assert(target.take(i + 1) =~= target.take(i as int).push(target[i as int]));
        i += 1;
    }
    assert(target.take(patterns@.len() as int) =~= target);
    let r = PathSet::new(out);
    proof {
        assert(views(out@) == target);
    }
    r
}

/// Prepares every pattern of a list against `base`, resolving `~` against
/// `home`.
pub fn prepare(patterns: &[PathPattern], base: &str, home: Option<&str>) -> (r: PathSet)
    ensures
        represents(r@, path_texts(patterns@), base@, opt_chars(home)),
        r.indexed() == index_worthwhile(prepared_list(path_texts(patterns@), base@, opt_chars(home))),
{
    let b = crate::text::to_chars(base);
    match home {
        None => prepare_chars(patterns, b.as_slice(), None),
        Some(h) => {
            let hc = crate::text::to_chars(h);
            prepare_chars(patterns, b.as_slice(), Some(&hc))
        },
    }
}

/// The prepared deny, ask and allow lists of one filesystem operation.
struct PathRules {
    deny: PathSet,
    ask: PathSet,
    allow: PathSet,
}

impl PathRules {
    fn new(
        deny: &[PathPattern],
        ask: &[PathPattern],
        allow: &[PathPattern],
        base: &[char],
        home: Option<&Vec<char>>,
    ) -> (r: Self)
        ensures
            represents(r.deny@, path_texts(deny@), base@, match home {
                Some(h) => Some(h@),
                None => None,
            }),
            represents(r.ask@, path_texts(ask@), base@, match home {
                Some(h) => Some(h@),
                None => None,
            }),
            represents(r.allow@, path_texts(allow@), base@, match home {
                Some(h) => Some(h@),
                None => None,
            }),
    {
        PathRules {
            deny: prepare_chars(deny, base, home),
            ask: prepare_chars(ask, base, home),
            allow: prepare_chars(allow, base, home),
        }
    }

    fn evaluate(&self, path: &[char]) -> (d: Decision)
        ensures
            d == precedence(
                any_accepts(self.deny@, path@),
                any_accepts(self.ask@, path@),
                any_accepts(self.allow@, path@),
            ),
    {
        if self.deny.matches_chars(path) {
            Decision::Deny
        } else if self.ask.matches_chars(path) {
            Decision::Ask
        } else if self.allow.matches_chars(path) {
            Decision::Allow
        } else {
            Decision::Deny
        }
    }
}

pub open spec fn opt_string(o: Option<String>) -> Option<Seq<char>> {
    match o {
        Some(s) => Some(s@),
        None => None,
    }
}

/// A policy with its path rules prepared once against a base directory and
/// the home directory current at that time.
pub struct PreparedPolicy {
    source: Policy,
    base: String,
    home: Option<String>,
    read: PathRules,
    write: PathRules,
    delete: PathRules,
    create: PathRules,
    scope: PathSet,
}

spec fn rules_represent(
    r: PathRules,
    deny: Seq<Seq<char>>,
    ask: Seq<Seq<char>>,
    allow: Seq<Seq<char>>,
    base: Seq<char>,
    home: Option<Seq<char>>,
) -> bool {
    &&& represents(r.deny@, deny, base, home)
    &&& represents(r.ask@, ask, base, home)
    &&& represents(r.allow@, allow, base, home)
}

impl PreparedPolicy {
    #[verifier::type_invariant]
    spec fn prepared_from_source(self) -> bool {
        let fs = self.source@.filesystem;
        let b = self.base@;
        let h = opt_string(self.home);
        &&& rules_represent(self.read, fs.deny.read, fs.ask.read, fs.allow.read, b, h)
        &&& rules_represent(self.write, fs.deny.write, fs.ask.write, fs.allow.write, b, h)
        &&& rules_represent(self.delete, fs.deny.delete, fs.ask.delete, fs.allow.delete, b, h)
        &&& rules_represent(self.create, fs.deny.create, fs.ask.create, fs.allow.create, b, h)
        &&& represents(self.scope@, self.source@.process.scope, b, h)
    }

    /// The policy the rules were prepared from.
    pub closed spec fn policy(self) -> PolicyView {
        self.source@
    }

    /// The directory relative paths and patterns are resolved against.
    pub closed spec fn base(self) -> Seq<char> {
        self.base@
    }

    /// The home directory the rules were prepared with.
    pub closed spec fn prepared_home(self) -> Option<Seq<char>> {
        opt_string(self.home)
    }

    /// The prepared process scopes.
    pub fn scope(&self) -> (r: &PathSet)
        ensures
            represents(r@, self.policy().process.scope, self.base(), self.prepared_home()),
    {
        proof {
            use_type_invariant(self);
        }
        &self.scope
    }

    /// The prepared deny, ask and allow sets of `read` rules.
    pub fn read_sets(&self) -> (r: (&PathSet, &PathSet, &PathSet))
        ensures
            represents(r.0@, self.policy().filesystem.deny.read, self.base(), self.prepared_home()),
            represents(r.1@, self.policy().filesystem.ask.read, self.base(), self.prepared_home()),
            represents(r.2@, self.policy().filesystem.allow.read, self.base(), self.prepared_home()),
    {
        proof {
            use_type_invariant(self);
        }
        (&self.read.deny, &self.read.ask, &self.read.allow)
    }

    /// The base directory's text.
    pub fn base_text(&self) -> (r: String)
        ensures
            r@ == self.base(),
    {
        self.base.clone()
    }

    /// Prepares the path rules of `source` against `base`, with `~` resolved
    /// against `home`.
    pub fn new(source: Policy, base: &str, home: Option<&str>) -> (r: Self)
        ensures
            r.policy() == source@,
            r.base() == base@,
            r.prepared_home() == opt_chars(home),
    {
        let b = crate::text::to_chars(base);
        let hc: Option<Vec<char>> = match home {
            Some(h) => Some(crate::text::to_chars(h)),
            None => None,
        };
        let hr: Option<&Vec<char>> = match &hc {
            Some(h) => Some(h),
            None => None,
        };
        let fs = &source.filesystem;
        let read = PathRules::new(
            fs.deny.read.as_slice(),
            fs.ask.read.as_slice(),
            fs.allow.read.as_slice(),
            b.as_slice(),
            hr,
        );
        let write = PathRules::new(
            fs.deny.write.as_slice(),
            fs.ask.write.as_slice(),
            fs.allow.write.as_slice(),
            b.as_slice(),
            hr,
        );
        let delete = PathRules::new(
            fs.deny.delete.as_slice(),
            fs.ask.delete.as_slice(),
            fs.allow.delete.as_slice(),
            b.as_slice(),
            hr,
        );
        let create = PathRules::new(
            fs.deny.create.as_slice(),
            fs.ask.create.as_slice(),
            fs.allow.create.as_slice(),
            b.as_slice(),
            hr,
        );
        let scope = prepare_chars(source.process.scope.as_slice(), b.as_slice(), hr);
        let home_copy: Option<String> = match home {
            Some(h) => Some(h.to_owned()),
            None => None,
        };
        PreparedPolicy {
            source,
            base: base.to_owned(),
            home: home_copy,
            read,
            write,
            delete,
            create,
            scope,
        }
    }

    /// Evaluates a request as `Policy::evaluate` does against the base
    /// directory, with `home` the current home directory. When `home` differs
    /// from the one the rules were prepared with, the policy is evaluated
    /// directly, so home-relative rules follow the current value.
    pub fn evaluate(&self, request: &NiteraRequest, home: Option<&str>) -> (d: Decision)
        ensures
            d == evaluation(self.policy(), request@, self.base(), opt_chars(home)),
    {
        proof {
            use_type_invariant(self);
        }
        let (path, rules, command): (&String, Option<&PathRules>, Option<&String>) = match (
            &request.resource,
            &request.operation,
            &request.target,
        ) {
            (Resource::Filesystem, Operation::Read, Target::Path(path)) => (path, Some(&self.read), None),
            (Resource::Filesystem, Operation::Write, Target::Path(path)) => (
                path,
                Some(&self.write),
                None,
            ),
            (Resource::Filesystem, Operation::Delete, Target::Path(path)) => (
                path,
                Some(&self.delete),
                None,
            ),
            (Resource::Filesystem, Operation::Create, Target::Create { path, .. }) => (
                path,
                Some(&self.create),
                None,
            ),
            (Resource::Process, Operation::Execute, Target::Process { command, cwd, .. }) => (
                cwd,
                None,
                Some(command),
            ),
            // Network matching scans borrowed strings already.
            _ => {
                return self.source.evaluate(request, self.base.as_str(), home);
            },
        };
        // No rules: nothing to resolve, the request is denied.
        let nothing = match rules {
            Some(r) => r.deny.is_empty() && r.ask.is_empty() && r.allow.is_empty(),
            None => self.scope.is_empty(),
        };
        if nothing {
            return Decision::Deny;
        }
        if !same_home(home, &self.home) {
            return self.source.evaluate(request, self.base.as_str(), home);
        }
        let h = match home {
            Some(h) => h,
            None => {
                return Decision::Deny;
            },
        };
        let p = crate::text::to_chars(path.as_str());
        let b = crate::text::to_chars(self.base.as_str());
        let hc = crate::text::to_chars(h);
        let resolved_path = resolved_chars(p.as_slice(), b.as_slice(), hc.as_slice());
        let ghost rp = resolved_path@;
        let ghost hv = opt_chars(home);
        match rules {
            Some(r) => {
                proof {
                    lemma_represents(r.deny@, deny_texts(self.source@, request@), self.base@, hv, rp);
                    lemma_represents(r.ask@, ask_texts(self.source@, request@), self.base@, hv, rp);
                    lemma_represents(r.allow@, allow_texts(self.source@, request@), self.base@, hv, rp);
                    lemma_any_path_match(deny_texts(self.source@, request@), path@, self.base@, hv);
                    lemma_any_path_match(ask_texts(self.source@, request@), path@, self.base@, hv);
                    lemma_any_path_match(allow_texts(self.source@, request@), path@, self.base@, hv);
                }
                r.evaluate(resolved_path.as_slice())
            },
            None => {
                proof {
                    lemma_represents(self.scope@, self.source@.process.scope, self.base@, hv, rp);
                    lemma_any_path_match(self.source@.process.scope, path@, self.base@, hv);
                }
                if !self.scope.matches_chars(resolved_path.as_slice()) {
                    return Decision::Deny;
                }
                match command {
                    Some(c) => command_decision(&self.source, c),
                    None => Decision::Deny,
                }
            },
        }
    }
}

/// The deny list that governs a filesystem request.
spec fn deny_texts(p: PolicyView, r: crate::engine::request::RequestView) -> Seq<Seq<char>> {
    let fs = p.filesystem;
    match r.operation {
        Operation::Read => fs.deny.read,
        Operation::Write => fs.deny.write,
        Operation::Delete => fs.deny.delete,
        _ => fs.deny.create,
    }
}

spec fn ask_texts(p: PolicyView, r: crate::engine::request::RequestView) -> Seq<Seq<char>> {
    let fs = p.filesystem;
    match r.operation {
        Operation::Read => fs.ask.read,
        Operation::Write => fs.ask.write,
        Operation::Delete => fs.ask.delete,
        _ => fs.ask.create,
    }
}

spec fn allow_texts(p: PolicyView, r: crate::engine::request::RequestView) -> Seq<Seq<char>> {
    let fs = p.filesystem;
    match r.operation {
        Operation::Read => fs.allow.read,
        Operation::Write => fs.allow.write,
        Operation::Delete => fs.allow.delete,
        _ => fs.allow.create,
    }
}

/// The path condition of the evaluator, stated over resolved paths.
proof fn lemma_any_path_match(
    texts: Seq<Seq<char>>,
    path: Seq<char>,
    base: Seq<char>,
    home: Option<Seq<char>>,
)
    requires
        home is Some,
    ensures
        any_path_match(texts, path, base, home) == exists|i: int|
            0 <= i < texts.len() && #[trigger] matches_resolved(
                texts[i],
                base,
                home,
                resolved(path, base, home->0),
            ),
{
    if any_path_match(texts, path, base, home) {
        let i = choose|i: int| 0 <= i < texts.len() && #[trigger] pattern_matches(texts[i], path, base, home);
        assert(matches_resolved(texts[i], base, home, resolved(path, base, home->0)));
    }
    if exists|i: int|
        0 <= i < texts.len() && #[trigger] matches_resolved(texts[i], base, home, resolved(path, base, home->0)) {
        let i = choose|i: int|
            0 <= i < texts.len() && #[trigger] matches_resolved(texts[i], base, home, resolved(path, base, home->0));
        assert(pattern_matches(texts[i], path, base, home));
    }
}

/// The current home directory equals the one the rules were prepared with.
fn same_home(current: Option<&str>, prepared: &Option<String>) -> (b: bool)
    ensures
        b == (opt_chars(current) == opt_string(*prepared)),
{
    match (current, prepared) {
        (None, None) => true,
        (Some(c), Some(p)) => {
            let cc = crate::text::to_chars(c);
            let pc = crate::text::to_chars(p.as_str());
            crate::text::chars_eq(cc.as_slice(), pc.as_slice())
        },
        _ => false,
    }
}

} // verus!
