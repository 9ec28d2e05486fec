//! Lexical path resolution: `~` expansion, joining onto a base directory and
//! resolving `.` and `..`, with no access to the disk.
use crate::text::{
    copy_range, join, lemma_split_len, push_all, split, split_chars, string_from_chars, to_chars,
    pieces, opt_chars, free_of,
};
use vstd::prelude::*;

verus! {

/// A path that starts at the root.
pub open spec fn is_abs(p: Seq<char>) -> bool {
    p.len() > 0 && p[0] == '/'
}

pub open spec fn dot() -> Seq<char> {
    seq!['.']
}

pub open spec fn dot_dot() -> Seq<char> {
    seq!['.', '.']
}

pub open spec fn glob_any() -> Seq<char> {
    seq!['*', '*']
}

/// The rooted path with components `cs`: `/` followed by the components
/// joined with `/`; just `/` for none.
pub open spec fn rooted(cs: Seq<Seq<char>>) -> Seq<char> {
    seq!['/'] + join(cs, seq!['/'])
}

/// Resolution of `.` and `..` over path segments: empty and `.` segments are
/// dropped, `..` removes the last kept segment when there is one.
pub open spec fn resolve_dots(segs: Seq<Seq<char>>) -> Seq<Seq<char>>
    decreases segs.len(),
{
    if segs.len() == 0 {
        Seq::empty()
    } else {
        let kept = resolve_dots(segs.drop_last());
        let c = segs.last();
        if c.len() == 0 || c == dot() {
            kept
        } else if c == dot_dot() {
            if kept.len() > 0 {
                kept.drop_last()
            } else {
                kept
            }
        } else {
            kept.push(c)
        }
    }
}

/// The same resolution for patterns, except that `..` never removes `**`.
pub open spec fn resolve_pattern_dots(segs: Seq<Seq<char>>) -> Seq<Seq<char>>
    decreases segs.len(),
{
    if segs.len() == 0 {
        Seq::empty()
    } else {
        let kept = resolve_pattern_dots(segs.drop_last());
        let c = segs.last();
        if c.len() == 0 || c == dot() {
            kept
        } else if c == dot_dot() {
            if kept.len() > 0 && kept.last() != glob_any() {
                kept.drop_last()
            } else {
                kept
            }
        } else {
            kept.push(c)
        }
    }
}

/// `normalize_path`: lexical resolution of `.` and `..`. A rooted path stays
/// rooted and `..` never climbs above the root.
pub open spec fn normalized(p: Seq<char>) -> Seq<char> {
    let cs = resolve_dots(split(p, '/'));
    if is_abs(p) {
        rooted(cs)
    } else {
        join(cs, seq!['/'])
    }
}

/// `Path::join`: an absolute `b` replaces `a`; otherwise `b` is appended with
/// one separator.
pub open spec fn join_path(a: Seq<char>, b: Seq<char>) -> Seq<char> {
    if is_abs(b) {
        b
    } else if a.len() == 0 {
        b
    } else if a.last() == '/' {
        a + b
    } else {
        a + seq!['/'] + b
    }
}

/// `p` is `~` as a path: the component `~` alone, possibly followed by
/// separators and `.` components.
pub open spec fn is_bare_home(p: Seq<char>) -> bool {
    let segs = split(p, '/');
    &&& segs[0] == seq!['~']
    &&& forall|i: int| 1 <= i < segs.len() ==> (#[trigger] segs[i]).len() == 0 || segs[i] == dot()
}

/// `~` expansion: `~` becomes `home`, `~/rest` becomes `home` joined with
/// `rest`, anything else is unchanged.
pub open spec fn expand_home(p: Seq<char>, home: Seq<char>) -> Seq<char> {
    if is_bare_home(p) {
        home
    } else if p.len() >= 2 && p[0] == '~' && p[1] == '/' {
        join_path(home, p.subrange(2, p.len() as int))
    } else {
        p
    }
}

/// The absolute (or base-relative) form of `p` before dot resolution.
pub open spec fn anchored(p: Seq<char>, base: Seq<char>, home: Seq<char>) -> Seq<char> {
    let e = expand_home(p, home);
    if is_abs(e) {
        e
    } else {
        join_path(base, e)
    }
}

/// A runtime path resolved against `base`, with `~` resolved against `home`.
pub open spec fn resolved(p: Seq<char>, base: Seq<char>, home: Seq<char>) -> Seq<char> {
    normalized(anchored(p, base, home))
}

/// The components of a normalized pattern.
pub open spec fn pattern_components(pattern: Seq<char>, base: Seq<char>, home: Seq<char>) -> Seq<
    Seq<char>,
> {
    resolve_pattern_dots(split(anchored(pattern, base, home), '/'))
}

/// `normalize_pattern`: `None` exactly when there is no home directory.
pub open spec fn normalized_pattern(pattern: Seq<char>, base: Seq<char>, home: Option<Seq<char>>) -> Option<
    Seq<char>,
> {
    match home {
        Some(h) => Some(rooted(pattern_components(pattern, base, h))),
        None => None,
    }
}

/// A component that normalization keeps: non-empty, neither `.` nor `..`,
/// and without a separator.
pub open spec fn clean_segment(c: Seq<char>) -> bool {
    c.len() > 0 && c != dot() && c != dot_dot() && free_of(c, '/')
}

proof fn lemma_resolve_dots_clean(segs: Seq<Seq<char>>)
    requires
        forall|i: int| 0 <= i < segs.len() ==> free_of(#[trigger] segs[i], '/'),
    ensures
        forall|i: int| 0 <= i < resolve_dots(segs).len() ==> clean_segment(#[trigger] resolve_dots(segs)[i]),
    decreases segs.len(),
{
    if segs.len() > 0 {
        let s0 = segs.drop_last();
        assert forall|i: int| 0 <= i < s0.len() implies free_of(#[trigger] s0[i], '/') by {
            assert(s0[i] == segs[i]);
        }
        lemma_resolve_dots_clean(s0);
        let kept = resolve_dots(s0);
        assert(free_of(segs[segs.len() - 1], '/'));
        assert forall|i: int| 0 <= i < resolve_dots(segs).len() implies clean_segment(
            #[trigger] resolve_dots(segs)[i],
        ) by {
            if i < kept.len() {
                assert(resolve_dots(segs)[i] == kept[i]);
            }
        }
    }
}

proof fn lemma_resolve_dots_fixed(cs: Seq<Seq<char>>)
    requires
        forall|i: int| 0 <= i < cs.len() ==> clean_segment(#[trigger] cs[i]),
    ensures
        resolve_dots(cs) == cs,
        resolve_dots(seq![Seq::<char>::empty()] + cs) == cs,
    decreases cs.len(),
{
    let e = Seq::<char>::empty();
    if cs.len() == 0 {
        assert(seq![e] + cs =~= seq![e]);
        assert(seq![e].drop_last() =~= Seq::<Seq<char>>::empty());
    } else {
        let c0 = cs.drop_last();
        assert forall|i: int| 0 <= i < c0.len() implies clean_segment(#[trigger] c0[i]) by {
            assert(c0[i] == cs[i]);
        }
        lemma_resolve_dots_fixed(c0);
        assert(clean_segment(cs[cs.len() - 1]));
        assert((seq![e] + cs).drop_last() =~= seq![e] + c0);
        assert((seq![e] + cs).last() == cs.last());
        assert(c0.push(cs.last()) =~= cs);
    }
}

proof fn lemma_resolve_pattern_dots_fixed(cs: Seq<Seq<char>>)
    requires
        forall|i: int| 0 <= i < cs.len() ==> clean_segment(#[trigger] cs[i]),
    ensures
        resolve_pattern_dots(seq![Seq::<char>::empty()] + cs) == cs,
    decreases cs.len(),
{
    let e = Seq::<char>::empty();
    if cs.len() == 0 {
        assert(seq![e] + cs =~= seq![e]);
        assert(seq![e].drop_last() =~= Seq::<Seq<char>>::empty());
        assert(seq![e].last() == e);
        assert(resolve_pattern_dots(seq![e]) == resolve_pattern_dots(Seq::<Seq<char>>::empty()));
        assert(resolve_pattern_dots(seq![e]) =~= cs);
    } else {
        let c0 = cs.drop_last();
        assert forall|i: int| 0 <= i < c0.len() implies clean_segment(#[trigger] c0[i]) by {
            assert(c0[i] == cs[i]);
        }
        lemma_resolve_pattern_dots_fixed(c0);
        let full = seq![e] + cs;
        let x = cs.last();
        assert(clean_segment(cs[cs.len() - 1]));
        assert(x.len() > 0 && x != dot() && x != dot_dot());
        assert(full.drop_last() =~= seq![e] + c0);
        assert(full.last() == x);
        assert(resolve_pattern_dots(full) == resolve_pattern_dots(full.drop_last()).push(x));
        assert(c0.push(x) =~= cs);
    }
}

/// The pieces of a rooted path of clean components: the empty piece before
/// the root, then the components (the root alone has two empty pieces).
pub proof fn lemma_split_rooted(cs: Seq<Seq<char>>)
    requires
        forall|i: int| 0 <= i < cs.len() ==> clean_segment(#[trigger] cs[i]),
    ensures
        split(rooted(cs), '/') == if cs.len() == 0 {
            seq![Seq::<char>::empty(), Seq::<char>::empty()]
        } else {
            seq![Seq::<char>::empty()] + cs
        },
{
    let e = Seq::<char>::empty();
    let j = join(cs, seq!['/']);
    crate::text::lemma_split_leading(j, '/');
    if cs.len() == 0 {
        assert(j =~= e);
        assert(split(e, '/') =~= seq![e]);
        assert(seq![e] + seq![e] =~= seq![e, e]);
    } else {
        crate::text::lemma_split_join(cs, '/');
    }
}

/// Joining clean components that do not start with `~` onto a rooted base
/// of clean components gives the rooted path of both, in order.
proof fn lemma_anchor_relative(bs: Seq<Seq<char>>, xs: Seq<Seq<char>>, home: Seq<char>)
    requires
        forall|i: int| 0 <= i < bs.len() ==> clean_segment(#[trigger] bs[i]),
        forall|i: int| 0 <= i < xs.len() ==> clean_segment(#[trigger] xs[i]),
        xs.len() > 0,
        xs[0] != seq!['~'],
    ensures
        !is_abs(join(xs, seq!['/'])),
        expand_home(join(xs, seq!['/']), home) == join(xs, seq!['/']),
        anchored(join(xs, seq!['/']), rooted(bs), home) == rooted(bs + xs),
        forall|i: int| 0 <= i < (bs + xs).len() ==> clean_segment(#[trigger] (bs + xs)[i]),
{
    let e = Seq::<char>::empty();
    let sl = seq!['/'];
    let p = join(xs, sl);
    assert forall|i: int| 0 <= i < xs.len() implies free_of(#[trigger] xs[i], '/') by {
        assert(clean_segment(xs[i]));
    }
    crate::text::lemma_split_join(xs, '/');
    assert(split(p, '/')[0] == xs[0]);
    assert(clean_segment(xs[0]));
    assert(!is_abs(p)) by {
        if p.len() > 0 && p[0] == '/' {
            assert(p =~= seq!['/'] + p.drop_first());
            crate::text::lemma_split_leading(p.drop_first(), '/');
        }
    }
    assert(!is_bare_home(p));
    if p.len() >= 2 && p[0] == '~' && p[1] == '/' {
        let tl = seq!['~'];
        let rest = p.subrange(2, p.len() as int);
        assert(p =~= tl + seq!['/'] + rest);
        crate::text::lemma_split_concat(tl, rest, '/');
        crate::text::lemma_split_free(tl, '/');
        assert(split(p, '/')[0] == tl);
    }
    assert(expand_home(p, home) == p);
    let c = bs + xs;
    assert forall|i: int| 0 <= i < c.len() implies clean_segment(#[trigger] c[i]) by {
        if i < bs.len() {
            assert(c[i] == bs[i]);
        } else {
            assert(c[i] == xs[i - bs.len()]);
        }
    }
    let b = rooted(bs);
    if bs.len() == 0 {
        assert(join(bs, sl) =~= e);
        assert(b.last() == '/');
        assert(c =~= xs);
        assert(anchored(p, b, home) =~= rooted(c));
    } else {
        let jb = join(bs, sl);
        assert(jb.last() == bs.last().last()) by {
            if bs.len() > 1 {
                assert(jb == join(bs.drop_last(), sl) + sl + bs.last());
            }
        }
        assert(clean_segment(bs[bs.len() - 1]));
        assert(b.last() != '/');
        crate::text::lemma_join_concat(bs, xs, sl);
        assert(anchored(p, b, home) =~= rooted(c));
    }
}

proof fn lemma_normalized_rooted(cs: Seq<Seq<char>>)
    requires
        forall|i: int| 0 <= i < cs.len() ==> clean_segment(#[trigger] cs[i]),
    ensures
        normalized(rooted(cs)) == rooted(cs),
{
    let e = Seq::<char>::empty();
    lemma_split_rooted(cs);
    lemma_resolve_dots_fixed(cs);
    if cs.len() == 0 {
        assert(seq![e, e].drop_last() =~= seq![e]);
        assert(seq![e] =~= seq![e] + Seq::<Seq<char>>::empty());
        assert(resolve_dots(seq![e, e]) =~= Seq::<Seq<char>>::empty());
    }
}

/// A relative runtime path is taken below the base directory: for a rooted
/// base of clean components `bs` and a path of clean components `xs` (not
/// starting with `~`), the path resolves to `bs` followed by `xs`.
pub proof fn lemma_relative_path_joins_base(bs: Seq<Seq<char>>, xs: Seq<Seq<char>>, home: Seq<char>)
    requires
        forall|i: int| 0 <= i < bs.len() ==> clean_segment(#[trigger] bs[i]),
        forall|i: int| 0 <= i < xs.len() ==> clean_segment(#[trigger] xs[i]),
        xs.len() > 0,
        xs[0] != seq!['~'],
    ensures
        resolved(join(xs, seq!['/']), rooted(bs), home) == rooted(bs + xs),
{
    lemma_anchor_relative(bs, xs, home);
    lemma_normalized_rooted(bs + xs);
}

/// A relative pattern is taken below the base directory: for a rooted base
/// of clean components `bs` and a pattern of clean components `xs` (not
/// starting with `~`; `*` and `**` are clean), the normalized pattern is
/// `bs` followed by `xs`.
pub proof fn lemma_relative_pattern_joins_base(bs: Seq<Seq<char>>, xs: Seq<Seq<char>>, home: Seq<char>)
    requires
        forall|i: int| 0 <= i < bs.len() ==> clean_segment(#[trigger] bs[i]),
        forall|i: int| 0 <= i < xs.len() ==> clean_segment(#[trigger] xs[i]),
        xs.len() > 0,
        xs[0] != seq!['~'],
    ensures
        pattern_components(join(xs, seq!['/']), rooted(bs), home) == bs + xs,
        normalized_pattern(join(xs, seq!['/']), rooted(bs), Some(home)) == Some(rooted(bs + xs)),
{
    lemma_anchor_relative(bs, xs, home);
    lemma_split_rooted(bs + xs);
    lemma_resolve_pattern_dots_fixed(bs + xs);
}

/// A rooted path of clean components is already resolved, whatever the
/// base and home.
pub proof fn lemma_rooted_clean_resolved(cs: Seq<Seq<char>>, base: Seq<char>, home: Seq<char>)
    requires
        forall|i: int| 0 <= i < cs.len() ==> clean_segment(#[trigger] cs[i]),
    ensures
        resolved(rooted(cs), base, home) == rooted(cs),
{
    let e = Seq::<char>::empty();
    let p = rooted(cs);
    lemma_split_rooted(cs);
    assert(split(p, '/')[0] != seq!['~']) by {
        assert(split(p, '/')[0].len() == 0);
    }
    assert(expand_home(p, home) == p);
    lemma_resolve_dots_fixed(cs);
    if cs.len() == 0 {
        assert(seq![e, e].drop_last() =~= seq![e]);
        assert(seq![e] =~= seq![e] + Seq::<Seq<char>>::empty());
        assert(resolve_dots(seq![e, e]) =~= Seq::<Seq<char>>::empty());
    }
}

/// `~/x/.../**` against a rooted home of clean components normalizes to the
/// home's components, then `x...`, then `**`, whatever the base.
pub proof fn lemma_home_subtree_components(hs: Seq<Seq<char>>, xs: Seq<Seq<char>>, base: Seq<char>)
    requires
        forall|i: int| 0 <= i < hs.len() ==> clean_segment(#[trigger] hs[i]),
        forall|i: int| 0 <= i < xs.len() ==> clean_segment(#[trigger] xs[i]),
    ensures
        pattern_components(seq!['~', '/'] + join(xs.push(glob_any()), seq!['/']), base, rooted(hs))
            == hs + xs.push(glob_any()),
{
    let e = Seq::<char>::empty();
    let sl = seq!['/'];
    let rr = xs.push(glob_any());
    assert forall|i: int| 0 <= i < rr.len() implies clean_segment(#[trigger] rr[i]) by {
        if i < xs.len() {
            assert(rr[i] == xs[i]);
        } else {
            assert(rr[i] == glob_any());
        }
    }
    let r = join(rr, sl);
    let q = seq!['~', '/'] + r;
    let tl = seq![seq!['~']];
    crate::text::lemma_join_concat(tl, rr, sl);
    assert(join(tl, sl) == seq!['~']);
    assert(q =~= join(tl, sl) + sl + r);
    let segs = tl + rr;
    assert forall|i: int| 0 <= i < segs.len() implies free_of(#[trigger] segs[i], '/') by {
        if i > 0 {
            assert(segs[i] == rr[i - 1]);
        }
    }
    crate::text::lemma_split_join(segs, '/');
    assert(split(q, '/') == segs);
    assert(!is_bare_home(q)) by {
        let k = segs.len() - 1;
        assert(segs[k] == glob_any());
        assert(segs[k].len() != 0 && segs[k] != dot());
    }
    assert(q[0] == '~' && q[1] == '/');
    assert(q.subrange(2, q.len() as int) =~= r);
    crate::text::lemma_split_join(rr, '/');
    assert(!is_abs(r)) by {
        if r.len() > 0 && r[0] == '/' {
            assert(r =~= seq!['/'] + r.drop_first());
            crate::text::lemma_split_leading(r.drop_first(), '/');
            assert(split(r, '/')[0].len() == 0);
            assert(rr[0].len() > 0);
        }
    }
    let h = rooted(hs);
    let c = hs + rr;
    assert forall|i: int| 0 <= i < c.len() implies clean_segment(#[trigger] c[i]) by {
        if i < hs.len() {
            assert(c[i] == hs[i]);
        } else {
            assert(c[i] == rr[i - hs.len()]);
        }
    }
    if hs.len() == 0 {
        assert(join(hs, sl) =~= e);
        assert(h.last() == '/');
        assert(c =~= rr);
        assert(expand_home(q, h) =~= rooted(c));
    } else {
        let jh = join(hs, sl);
        assert(jh.last() == hs.last().last()) by {
            if hs.len() > 1 {
                assert(jh == join(hs.drop_last(), sl) + sl + hs.last());
            }
        }
        assert(clean_segment(hs[hs.len() - 1]));
        assert(h.last() != '/');
        crate::text::lemma_join_concat(hs, rr, sl);
        assert(expand_home(q, h) =~= rooted(c));
    }
    lemma_split_rooted(c);
    lemma_resolve_pattern_dots_fixed(c);
}

/// Normalizing is lexical and stable: no `.` or `..` component survives, a
/// rooted path stays rooted, and normalizing again changes nothing.
pub proof fn lemma_normalize_stable(p: Seq<char>)
    ensures
        normalized(normalized(p)) == normalized(p),
        is_abs(p) ==> is_abs(normalized(p)),
        !is_abs(p) ==> !is_abs(normalized(p)),
        forall|c: Seq<char>| #[trigger] split(normalized(p), '/').contains(c) ==> c != dot() && c != dot_dot(),
{
    let e = Seq::<char>::empty();
    let segs = split(p, '/');
    let cs = resolve_dots(segs);
    let n = normalized(p);
    crate::text::lemma_split_pieces_free(p, '/');
    lemma_resolve_dots_clean(segs);
    lemma_resolve_dots_fixed(cs);
    let j = join(cs, seq!['/']);
    assert(split(e, '/') =~= seq![e]);
    if cs.len() > 0 {
        crate::text::lemma_split_join(cs, '/');
    }
    if is_abs(p) {
        assert(n == seq!['/'] + j);
        crate::text::lemma_split_leading(j, '/');
        assert(is_abs(n));
        if cs.len() == 0 {
            assert(j =~= e);
            assert(split(n, '/') =~= seq![e, e]);
            assert(seq![e, e].drop_last() =~= seq![e]);
            assert(seq![e] =~= seq![e] + Seq::<Seq<char>>::empty());
            assert(resolve_dots(seq![e, e]) =~= Seq::<Seq<char>>::empty());
        } else {
            assert(split(n, '/') == seq![e] + cs);
        }
        assert forall|c: Seq<char>| #[trigger] split(n, '/').contains(c) implies c != dot() && c != dot_dot() by {
            let i = choose|i: int| 0 <= i < split(n, '/').len() && split(n, '/')[i] == c;
            if i > 0 && cs.len() > 0 {
                assert(c == cs[i - 1]);
            }
        }
    } else {
        assert(n == j);
        if cs.len() == 0 {
            assert(j =~= e);
            assert(seq![e] =~= seq![e] + Seq::<Seq<char>>::empty());
        } else {
            if n.len() > 0 && n[0] == '/' {
                assert(n =~= seq!['/'] + n.drop_first());
                crate::text::lemma_split_leading(n.drop_first(), '/');
                assert(split(n, '/')[0] == e);
                assert(cs[0].len() > 0);
            }
            assert(!is_abs(n));
        }
        assert forall|c: Seq<char>| #[trigger] split(n, '/').contains(c) implies c != dot() && c != dot_dot() by {
            let i = choose|i: int| 0 <= i < split(n, '/').len() && split(n, '/')[i] == c;
            if cs.len() > 0 {
                assert(c == cs[i]);
            }
        }
    }
}

proof fn lemma_resolve_pattern_dots_clean(segs: Seq<Seq<char>>)
    requires
        forall|i: int| 0 <= i < segs.len() ==> free_of(#[trigger] segs[i], '/'),
    ensures
        forall|i: int|
            0 <= i < resolve_pattern_dots(segs).len() ==> clean_segment(
                #[trigger] resolve_pattern_dots(segs)[i],
            ),
    decreases segs.len(),
{
    if segs.len() > 0 {
        let s0 = segs.drop_last();
        assert forall|i: int| 0 <= i < s0.len() implies free_of(#[trigger] s0[i], '/') by {
            assert(s0[i] == segs[i]);
        }
        lemma_resolve_pattern_dots_clean(s0);
        let kept = resolve_pattern_dots(s0);
        assert(free_of(segs[segs.len() - 1], '/'));
        assert forall|i: int| 0 <= i < resolve_pattern_dots(segs).len() implies clean_segment(
            #[trigger] resolve_pattern_dots(segs)[i],
        ) by {
            if i < kept.len() {
                assert(resolve_pattern_dots(segs)[i] == kept[i]);
            }
        }
    }
}

/// A normalized pattern is rooted, none of its components is empty, `.` or
/// `..`, and normalizing it again, against any base, gives it back.
pub proof fn lemma_normalize_pattern_stable(
    pattern: Seq<char>,
    base: Seq<char>,
    other_base: Seq<char>,
    home: Seq<char>,
)
    ensures
        is_abs(rooted(pattern_components(pattern, base, home))),
        forall|i: int|
            0 <= i < pattern_components(pattern, base, home).len() ==> clean_segment(
                #[trigger] pattern_components(pattern, base, home)[i],
            ),
        normalized_pattern(rooted(pattern_components(pattern, base, home)), other_base, Some(home))
            == Some(rooted(pattern_components(pattern, base, home))),
{
    let e = Seq::<char>::empty();
    let cs = pattern_components(pattern, base, home);
    let a = anchored(pattern, base, home);
    crate::text::lemma_split_pieces_free(a, '/');
    lemma_resolve_pattern_dots_clean(split(a, '/'));
    let r = rooted(cs);
    lemma_split_rooted(cs);
    assert(split(r, '/')[0] != seq!['~']) by {
        assert(split(r, '/')[0].len() == 0);
    }
    assert(r[0] == '/');
    assert(expand_home(r, home) == r);
    if cs.len() == 0 {
        let two = seq![e, e];
        assert(two.drop_last() =~= seq![e]);
        lemma_resolve_pattern_dots_fixed(Seq::<Seq<char>>::empty());
        assert(seq![e] + Seq::<Seq<char>>::empty() =~= seq![e]);
        assert(two.last() == e);
        assert(resolve_pattern_dots(two) == resolve_pattern_dots(seq![e]));
        assert(resolve_pattern_dots(two) =~= Seq::<Seq<char>>::empty());
    } else {
        lemma_resolve_pattern_dots_fixed(cs);
    }
}

/// Trailing empty and `.` components change no normalized pattern.
proof fn lemma_pattern_dots_trailing(a: Seq<Seq<char>>, j: Seq<Seq<char>>)
    requires
        forall|i: int| 0 <= i < j.len() ==> (#[trigger] j[i]).len() == 0 || j[i] == dot(),
    ensures
        resolve_pattern_dots(a + j) == resolve_pattern_dots(a),
    decreases j.len(),
{
    if j.len() == 0 {
        assert(a + j =~= a);
    } else {
        let j0 = j.drop_last();
        assert forall|i: int| 0 <= i < j0.len() implies (#[trigger] j0[i]).len() == 0 || j0[i]
            == dot() by {
            assert(j0[i] == j[i]);
        }
        lemma_pattern_dots_trailing(a, j0);
        assert((a + j).drop_last() =~= a + j0);
        assert((a + j).last() == j[j.len() - 1]);
    }
}

/// `~/rest` normalizes exactly as the pattern with the home directory in
/// place of `~`, that is the home joined with `rest`.
pub proof fn lemma_home_spelled_out(rest: Seq<char>, base: Seq<char>, home: Seq<char>)
    requires
        is_abs(home),
        !is_abs(rest),
    ensures
        normalized_pattern(seq!['~', '/'] + rest, base, Some(home)) == normalized_pattern(
            join_path(home, rest),
            base,
            Some(home),
        ),
{
    let p = seq!['~', '/'] + rest;
    let tl = seq!['~'];
    assert(p =~= tl + seq!['/'] + rest);
    crate::text::lemma_split_concat(tl, rest, '/');
    crate::text::lemma_split_free(tl, '/');
    let xs = split(rest, '/');
    assert(split(p, '/') == seq![tl] + xs);
    assert(split(p, '/')[0] == tl);
    let jp = join_path(home, rest);
    assert(is_abs(jp)) by {
        if home.last() == '/' {
            assert((home + rest)[0] == home[0]);
        } else {
            assert((home + seq!['/'] + rest)[0] == home[0]);
        }
    }
    assert(expand_home(jp, home) == jp) by {
        assert(jp =~= seq!['/'] + jp.drop_first());
        crate::text::lemma_split_leading(jp.drop_first(), '/');
        assert(split(jp, '/')[0].len() == 0);
    }
    if is_bare_home(p) {
        assert forall|i: int| 0 <= i < xs.len() implies (#[trigger] xs[i]).len() == 0 || xs[i]
            == dot() by {
            assert(split(p, '/')[i + 1] == xs[i]);
        }
        assert(expand_home(p, home) == home);
        if home.last() == '/' {
            let h0 = home.drop_last();
            assert(home =~= h0 + seq!['/'] + Seq::<char>::empty());
            assert(jp =~= h0 + seq!['/'] + rest);
            crate::text::lemma_split_concat(h0, Seq::<char>::empty(), '/');
            crate::text::lemma_split_concat(h0, rest, '/');
            let ej = split(Seq::<char>::empty(), '/');
            assert(ej =~= seq![Seq::<char>::empty()]);
            lemma_pattern_dots_trailing(split(h0, '/'), ej);
            lemma_pattern_dots_trailing(split(h0, '/'), xs);
        } else {
            crate::text::lemma_split_concat(home, rest, '/');
            lemma_pattern_dots_trailing(split(home, '/'), xs);
            assert(split(home, '/') + Seq::<Seq<char>>::empty() =~= split(home, '/'));
        }
    } else {
        assert(p[0] == '~' && p[1] == '/');
        assert(p.subrange(2, p.len() as int) =~= rest);
        assert(expand_home(p, home) == jp);
    }
}

/// A rooted path is resolved the same way against every base directory,
/// and a rooted pattern is normalized the same way against every base.
pub proof fn lemma_absolute_ignores_base(p: Seq<char>, b1: Seq<char>, b2: Seq<char>, home: Seq<char>)
    requires
        is_abs(p),
    ensures
        resolved(p, b1, home) == resolved(p, b2, home),
        pattern_components(p, b1, home) == pattern_components(p, b2, home),
{
    assert(p =~= seq!['/'] + p.drop_first());
    crate::text::lemma_split_leading(p.drop_first(), '/');
    assert(split(p, '/')[0] != seq!['~']) by {
        assert(split(p, '/')[0].len() == 0);
    }
    assert(expand_home(p, home) == p);
}

/// Against a rooted base every runtime path resolves to a rooted path that
/// is already normalized.
pub proof fn lemma_resolved_rooted(p: Seq<char>, base: Seq<char>, home: Seq<char>)
    requires
        is_abs(base),
    ensures
        is_abs(resolved(p, base, home)),
        normalized(resolved(p, base, home)) == resolved(p, base, home),
{
    let a = anchored(p, base, home);
    let e = expand_home(p, home);
    if !is_abs(e) {
        if base.last() == '/' {
            assert((base + e)[0] == base[0]);
        } else {
            assert((base + seq!['/'] + e)[0] == base[0]);
        }
    }
    assert(is_abs(a));
    lemma_normalize_stable(a);
}

fn is_absolute(p: &[char]) -> (b: bool)
    ensures
        b == is_abs(p@),
{
    p.len() > 0 && p[0] == '/'
}

fn is_dot(c: &[char]) -> (b: bool)
    ensures
        b == (c@ == dot()),
{
    let b = c.len() == 1 && c[0] == '.';
    proof {
        if c@.len() == 1 && c@[0] == '.' {
            assert(c@ =~= dot());
        }
    }
    b
}

fn is_dot_dot(c: &[char]) -> (b: bool)
    ensures
        b == (c@ == dot_dot()),
{
    let b = c.len() == 2 && c[0] == '.' && c[1] == '.';
    proof {
        if c@.len() == 2 && c@[0] == '.' && c@[1] == '.' {
            assert(c@ =~= dot_dot());
        }
    }
    b
}

fn is_glob_any(c: &[char]) -> (b: bool)
    ensures
        b == (c@ == glob_any()),
{
    let b = c.len() == 2 && c[0] == '*' && c[1] == '*';
    proof {
        if c@.len() == 2 && c@[0] == '*' && c@[1] == '*' {
            assert(c@ =~= glob_any());
        }
    }
    b
}

fn join_path_chars(a: &[char], b: &[char]) -> (out: Vec<char>)
    ensures
        out@ == join_path(a@, b@),
{
    let mut out: Vec<char> = Vec::new();
    if is_absolute(b) || a.len() == 0 {
        push_all(&mut out, b);
        assert(out@ =~= b@);
    } else if a[a.len() - 1] == '/' {
        push_all(&mut out, a);
        push_all(&mut out, b);
    } else {
        push_all(&mut out, a);
        out.push('/');
        push_all(&mut out, b);
    }
    out
}

fn expand_home_chars(p: &[char], home: &[char]) -> (out: Vec<char>)
    ensures
        out@ == expand_home(p@, home@),
{
    let segs = split_chars(p, '/');
    proof {
        lemma_split_len(p@, '/');
    }
    let first_is_home = segs[0].len() == 1 && segs[0][0] == '~';
    proof {
        assert(pieces(segs@)[0] == segs@[0]@);
        if segs@[0]@.len() == 1 && segs@[0]@[0] == '~' {
            assert(segs@[0]@ =~= seq!['~']);
        }
    }
    let mut bare = first_is_home;
    let mut i: usize = 1;
    while i < segs.len()
        invariant
            pieces(segs@) == split(p@, '/'),
            1 <= i <= segs@.len(),
            bare == (first_is_home && forall|j: int|
                1 <= j < i ==> (#[trigger] split(p@, '/')[j]).len() == 0 || split(p@, '/')[j]
                    == dot()),
        decreases segs.len() - i,
    {
        assert(pieces(segs@)[i as int] == segs@[i as int]@);
        let ok = segs[i].len() == 0 || is_dot(segs[i].as_slice());
        bare = bare && ok;
        i += 1;
    }
    if bare {
        let mut out = Vec::new();
        push_all(&mut out, home);
        assert(out@ =~= home@);
        out
    } else if p.len() >= 2 && p[0] == '~' && p[1] == '/' {
        let rest = copy_range(p, 2, p.len());
        join_path_chars(home, rest.as_slice())
    } else {
        let mut out = Vec::new();
        push_all(&mut out, p);
        assert(out@ =~= p@);
        out
    }
}

/// Replaces a leading `~` with `home`: `~` alone becomes `home`, `~/rest`
/// becomes `home` joined with `rest`; other paths are unchanged.
pub fn expand_home_with(path: &str, home: &str) -> (out: String)
    ensures
        out@ == expand_home(path@, home@),
{
    let p = to_chars(path);
    let h = to_chars(home);
    let e = expand_home_chars(p.as_slice(), h.as_slice());
    string_from_chars(e.as_slice())
}

fn anchored_chars(p: &[char], base: &[char], home: &[char]) -> (out: Vec<char>)
    ensures
        out@ == anchored(p@, base@, home@),
{
    let e = expand_home_chars(p, home);
    if is_absolute(e.as_slice()) {
        e
    } else {
        join_path_chars(base, e.as_slice())
    }
}

pub(crate) fn rooted_chars(cs: &Vec<Vec<char>>) -> (out: Vec<char>)
    ensures
        out@ == rooted(pieces(cs@)),
{
    let mut out = Vec::new();
    out.push('/');
    let rest = join_slash_chars(cs);
    push_all(&mut out, rest.as_slice());
    out
}

fn join_slash_chars(cs: &Vec<Vec<char>>) -> (out: Vec<char>)
    ensures
        out@ == join(pieces(cs@), seq!['/']),
{
    let mut out: Vec<char> = Vec::new();
    let mut i: usize = 0;
    while i < cs.len()
        invariant
            i <= cs@.len(),
            out@ == join(pieces(cs@).subrange(0, i as int), seq!['/']),
        decreases cs.len() - i,
    {
        let ghost prev = pieces(cs@).subrange(0, i as int);
        if i > 0 {
            out.push('/');
        }
        push_all(&mut out, cs[i].as_slice());
        proof {
            let next = pieces(cs@).subrange(0, i + 1);
            assert(next.drop_last() =~= prev);
            assert(next.last() == cs@[i as int]@);
            if i == 0 {
                assert(out@ =~= next[0]);
            }
        }
        i += 1;
    }
    assert(pieces(cs@).subrange(0, cs@.len() as int) =~= pieces(cs@));
    out
}

/// Resolves `.` and `..` over `segs`; with `keep_globs`, `..` never removes `**`.
fn fold_dots(segs: Vec<Vec<char>>, keep_globs: bool) -> (kept: Vec<Vec<char>>)
    ensures
        keep_globs ==> pieces(kept@) == resolve_pattern_dots(pieces(segs@)),
        !keep_globs ==> pieces(kept@) == resolve_dots(pieces(segs@)),
{
    let mut kept: Vec<Vec<char>> = Vec::new();
    let mut i: usize = 0;
    while i < segs.len()
        invariant
            i <= segs@.len(),
            keep_globs ==> pieces(kept@) == resolve_pattern_dots(
                pieces(segs@).subrange(0, i as int),
            ),
            !keep_globs ==> pieces(kept@) == resolve_dots(pieces(segs@).subrange(0, i as int)),
        decreases segs.len() - i,
    {
        let ghost prev = pieces(kept@);
        let ghost next = pieces(segs@).subrange(0, i + 1);
        assert(next.drop_last() =~= pieces(segs@).subrange(0, i as int));
        assert(next.last() == segs@[i as int]@);
        let c = &segs[i];
        if c.len() == 0 || is_dot(c.as_slice()) {
        } else if is_dot_dot(c.as_slice()) {
            let removable = kept.len() > 0 && (!keep_globs || !is_glob_any(
                kept[kept.len() - 1].as_slice(),
            ));
            if removable {
                kept.pop();
                assert(pieces(kept@) =~= prev.drop_last());
            }
        } else {
            kept.push(copy_range(c.as_slice(), 0, c.len()));
            assert(c@.subrange(0, c@.len() as int) =~= c@);
            assert(pieces(kept@) =~= prev.push(c@));
        }
        i += 1;
    }
    assert(pieces(segs@).subrange(0, segs@.len() as int) =~= pieces(segs@));
    kept
}

/// Lexically resolves `.` and `..`: pure component arithmetic, so it works
/// for paths that do not exist yet.
pub fn normalize_path(path: &str) -> (out: String)
    ensures
        out@ == normalized(path@),
{
    let p = to_chars(path);
    let segs = split_chars(p.as_slice(), '/');
    let kept = fold_dots(segs, false);
    let text = if is_absolute(p.as_slice()) {
        rooted_chars(&kept)
    } else {
        join_slash_chars(&kept)
    };
    string_from_chars(text.as_slice())
}

pub fn resolved_chars(path: &[char], base: &[char], home: &[char]) -> (out: Vec<char>)
    ensures
        out@ == resolved(path@, base@, home@),
{
    let a = anchored_chars(path, base, home);
    let segs = split_chars(a.as_slice(), '/');
    let kept = fold_dots(segs, false);
    if is_absolute(a.as_slice()) {
        rooted_chars(&kept)
    } else {
        join_slash_chars(&kept)
    }
}

/// Resolves a runtime path against `base`: absolute paths stay absolute,
/// relative paths are joined onto `base`, `~` is resolved against `home`.
pub fn resolve_runtime_path_with_home(path: &str, base: &str, home: &str) -> (out: String)
    ensures
        out@ == resolved(path@, base@, home@),
{
    let p = to_chars(path);
    let b = to_chars(base);
    let h = to_chars(home);
    let r = resolved_chars(p.as_slice(), b.as_slice(), h.as_slice());
    string_from_chars(r.as_slice())
}

/// The components of a normalized pattern.
pub fn pattern_components_chars(pattern: &[char], base: &[char], home: &[char]) -> (out: Vec<
    Vec<char>,
>)
    ensures
        pieces(out@) == pattern_components(pattern@, base@, home@),
{
    let a = anchored_chars(pattern, base, home);
    let segs = split_chars(a.as_slice(), '/');
    fold_dots(segs, true)
}

/// Normalizes a glob pattern against `base`: relative patterns are joined
/// onto `base`, `~` is resolved against `home`, and `.`/`..` are resolved
/// without ever removing a `**`. `None` when there is no home directory.
pub fn normalize_pattern(pattern: &str, base: &str, home: Option<&str>) -> (out: Option<String>)
    ensures
        out matches Some(s) ==> normalized_pattern(pattern@, base@, opt_chars(home)) == Some(s@),
        out is None ==> normalized_pattern(pattern@, base@, opt_chars(home)) is None,
{
    match home {
        None => None,
        Some(h) => {
            let p = to_chars(pattern);
            let b = to_chars(base);
            let hc = to_chars(h);
            let cs = pattern_components_chars(p.as_slice(), b.as_slice(), hc.as_slice());
            let text = rooted_chars(&cs);
            Some(string_from_chars(text.as_slice()))
        },
    }
}

} // verus!
