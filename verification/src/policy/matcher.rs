//! Matching of path patterns and host patterns.
use super::model::{HostPattern, PathPattern};
use super::path::{
    clean_segment, glob_any, lemma_home_subtree_components, lemma_rooted_clean_resolved,
    lemma_split_rooted, pattern_components, pattern_components_chars, resolved, resolved_chars,
    rooted,
};
use crate::text::{copy_range, join, opt_chars, pieces, split, split_chars, to_chars};
use vstd::prelude::*;

verus! {

pub open spec fn glob_one() -> Seq<char> {
    seq!['*']
}

/// A pattern segment against a path segment: `*` matches any one segment,
/// anything else only itself (`*.txt` is literal).
pub open spec fn segment_matches(p: Seq<char>, s: Seq<char>) -> bool {
    p == glob_one() || p == s
}

/// Segment-wise glob matching: `**` stands for zero or more segments.
pub open spec fn glob(pat: Seq<Seq<char>>, path: Seq<Seq<char>>) -> bool
    decreases pat.len(), path.len(),
{
    if pat.len() == 0 {
        path.len() == 0
    } else if pat[0] == glob_any() {
        glob(pat.drop_first(), path) || (path.len() > 0 && glob(pat, path.drop_first()))
    } else {
        path.len() > 0 && segment_matches(pat[0], path[0]) && glob(
            pat.drop_first(),
            path.drop_first(),
        )
    }
}

/// The segments of a rooted path: the text after the root, split on `/`.
/// The root itself has the single empty segment.
pub open spec fn segments(p: Seq<char>) -> Seq<Seq<char>> {
    split(p.drop_first(), '/')
}

/// `PathPattern::matches_from`: the normalized pattern and the resolved path
/// are both split on `/` and compared segment by segment. Nothing matches
/// without a home directory.
pub open spec fn pattern_matches(
    pattern: Seq<char>,
    path: Seq<char>,
    base: Seq<char>,
    home: Option<Seq<char>>,
) -> bool {
    match home {
        None => false,
        Some(h) => glob(
            split(rooted(pattern_components(pattern, base, h)), '/'),
            split(resolved(path, base, h), '/'),
        ),
    }
}

/// `host` ends with `suffix`.
pub open spec fn ends_with(host: Seq<char>, suffix: Seq<char>) -> bool {
    suffix.len() <= host.len() && host.subrange(host.len() - suffix.len(), host.len() as int)
        == suffix
}

/// Host matching: `*` matches every host, `*.suffix` matches hosts ending in
/// `.suffix` (so not `suffix` itself), anything else matches only itself.
pub open spec fn host_match(pattern: Seq<char>, host: Seq<char>) -> bool {
    if pattern == glob_one() {
        true
    } else if pattern.len() >= 2 && pattern[0] == '*' && pattern[1] == '.' {
        ends_with(host, pattern.subrange(1, pattern.len() as int))
    } else {
        pattern == host
    }
}

/// `**` followed by `rest` matches `path` iff `rest` matches some suffix of it.
pub proof fn lemma_glob_any(rest: Seq<Seq<char>>, path: Seq<Seq<char>>)
    ensures
        glob(seq![glob_any()] + rest, path) <==> exists|k: int|
            0 <= k <= path.len() && #[trigger] glob(rest, path.skip(k)),
    decreases path.len(),
{
    let pat = seq![glob_any()] + rest;
    assert(pat[0] == glob_any());
    assert(pat.drop_first() =~= rest);
    assert(path.skip(0) =~= path);
    assert(glob(pat, path) == (glob(rest, path) || (path.len() > 0 && glob(
        pat,
        path.drop_first(),
    ))));
    if glob(rest, path) {
        assert(glob(rest, path.skip(0)));
    } else if path.len() > 0 {
        lemma_glob_any(rest, path.drop_first());
        if glob(pat, path.drop_first()) {
            let k = choose|k: int|
                0 <= k <= path.drop_first().len() && #[trigger] glob(
                    rest,
                    path.drop_first().skip(k),
                );
            assert(path.drop_first().skip(k) =~= path.skip(k + 1));
            assert(glob(rest, path.skip(k + 1)));
        }
        if exists|k: int| 0 <= k <= path.len() && #[trigger] glob(rest, path.skip(k)) {
            let k = choose|k: int| 0 <= k <= path.len() && #[trigger] glob(rest, path.skip(k));
            if k == 0 {
                assert(false);
            } else {
                assert(path.drop_first().skip(k - 1) =~= path.skip(k));
                assert(glob(rest, path.drop_first().skip(k - 1)));
            }
        }
    } else {
        if exists|k: int| 0 <= k <= path.len() && #[trigger] glob(rest, path.skip(k)) {
            let k = choose|k: int| 0 <= k <= path.len() && #[trigger] glob(rest, path.skip(k));
            assert(k == 0);
        }
    }
}

/// `**` alone matches every segment list.
pub proof fn lemma_glob_any_alone(path: Seq<Seq<char>>)
    ensures
        glob(seq![glob_any()], path),
{
    let e = Seq::<Seq<char>>::empty();
    assert(seq![glob_any()] + e =~= seq![glob_any()]);
    assert(path.skip(path.len() as int) =~= e);
    assert(glob(e, path.skip(path.len() as int)));
    lemma_glob_any(e, path);
}

/// A concatenated pattern matches iff the path splits into two parts that
/// the two pattern parts match.
pub proof fn lemma_glob_concat(a: Seq<Seq<char>>, c: Seq<Seq<char>>, q: Seq<Seq<char>>)
    ensures
        glob(a + c, q) <==> exists|k: int|
            0 <= k <= q.len() && #[trigger] glob(a, q.take(k)) && glob(c, q.skip(k)),
    decreases a.len(), q.len(),
{
    if a.len() == 0 {
        assert(a + c =~= c);
        assert(q.take(0) =~= Seq::<Seq<char>>::empty());
        assert(q.skip(0) =~= q);
        if glob(c, q) {
            assert(glob(a, q.take(0)));
        }
        if exists|k: int| 0 <= k <= q.len() && #[trigger] glob(a, q.take(k)) && glob(c, q.skip(k)) {
            let k = choose|k: int|
                0 <= k <= q.len() && #[trigger] glob(a, q.take(k)) && glob(c, q.skip(k));
            assert(q.take(k).len() == 0);
            assert(k == 0);
        }
    } else if a[0] != glob_any() {
        let a1 = a.drop_first();
        assert((a + c)[0] == a[0]);
        assert((a + c).drop_first() =~= a1 + c);
        if q.len() > 0 {
            let q1 = q.drop_first();
            lemma_glob_concat(a1, c, q1);
            if glob(a + c, q) {
                let k1 = choose|k: int|
                    0 <= k <= q1.len() && #[trigger] glob(a1, q1.take(k)) && glob(c, q1.skip(k));
                let k = k1 + 1;
                assert(q.take(k)[0] == q[0]);
                assert(q.take(k).drop_first() =~= q1.take(k1));
                assert(q.skip(k) =~= q1.skip(k1));
                assert(glob(a, q.take(k)));
            }
            if exists|k: int|
                0 <= k <= q.len() && #[trigger] glob(a, q.take(k)) && glob(c, q.skip(k)) {
                let k = choose|k: int|
                    0 <= k <= q.len() && #[trigger] glob(a, q.take(k)) && glob(c, q.skip(k));
                assert(k > 0);
                assert(q.take(k)[0] == q[0]);
                assert(q.take(k).drop_first() =~= q1.take(k - 1));
                assert(q.skip(k) =~= q1.skip(k - 1));
                assert(glob(a1, q1.take(k - 1)));
            }
        } else {
            if exists|k: int|
                0 <= k <= q.len() && #[trigger] glob(a, q.take(k)) && glob(c, q.skip(k)) {
                let k = choose|k: int|
                    0 <= k <= q.len() && #[trigger] glob(a, q.take(k)) && glob(c, q.skip(k));
                assert(q.take(k).len() == 0);
            }
        }
    } else {
        let a1 = a.drop_first();
        assert(a =~= seq![glob_any()] + a1);
        assert(a + c =~= seq![glob_any()] + (a1 + c));
        lemma_glob_any(a1 + c, q);
        if glob(a + c, q) {
            let j = choose|j: int| 0 <= j <= q.len() && #[trigger] glob(a1 + c, q.skip(j));
            lemma_glob_concat(a1, c, q.skip(j));
            let k1 = choose|k: int|
                0 <= k <= q.skip(j).len() && #[trigger] glob(a1, q.skip(j).take(k)) && glob(
                    c,
                    q.skip(j).skip(k),
                );
            let k = j + k1;
            assert(q.skip(j).take(k1) =~= q.take(k).skip(j));
            assert(q.skip(j).skip(k1) =~= q.skip(k));
            lemma_glob_any(a1, q.take(k));
            assert(glob(a1, q.take(k).skip(j)));
            assert(glob(a, q.take(k)));
        }
        if exists|k: int| 0 <= k <= q.len() && #[trigger] glob(a, q.take(k)) && glob(c, q.skip(k)) {
            let k = choose|k: int|
                0 <= k <= q.len() && #[trigger] glob(a, q.take(k)) && glob(c, q.skip(k));
            lemma_glob_any(a1, q.take(k));
            let j = choose|j: int| 0 <= j <= q.take(k).len() && #[trigger] glob(a1, q.take(k).skip(j));
            lemma_glob_concat(a1, c, q.skip(j));
            assert(q.skip(j).take(k - j) =~= q.take(k).skip(j));
            assert(q.skip(j).skip(k - j) =~= q.skip(k));
            assert(glob(a1, q.skip(j).take(k - j)));
            assert(glob(a1 + c, q.skip(j)));
        }
    }
}

/// A segment that is neither `*` nor `**`.
pub open spec fn is_literal(seg: Seq<char>) -> bool {
    seg != glob_one() && seg != glob_any()
}

/// A pattern of literal segments matches only itself.
pub proof fn lemma_glob_literal(l: Seq<Seq<char>>, q: Seq<Seq<char>>)
    requires
        forall|i: int| 0 <= i < l.len() ==> is_literal(#[trigger] l[i]),
    ensures
        glob(l, q) <==> q == l,
    decreases l.len(),
{
    if l.len() > 0 {
        assert(is_literal(l[0]));
        let l1 = l.drop_first();
        assert forall|i: int| 0 <= i < l1.len() implies is_literal(#[trigger] l1[i]) by {
            assert(l1[i] == l[i + 1]);
        }
        if q.len() > 0 {
            let q1 = q.drop_first();
            lemma_glob_literal(l1, q1);
            assert(glob(l, q) == (l[0] == q[0] && glob(l1, q1)));
            if q == l {
                assert(q1 =~= l1);
            }
            if glob(l, q) {
                assert(q =~= seq![q[0]] + q1);
                assert(l =~= seq![l[0]] + l1);
                assert(q == l);
            }
            if q == l {
                assert(glob(l, q));
            }
        } else {
            assert(!glob(l, q));
            assert(q != l);
        }
    } else {
        if q == l {
            assert(q.len() == 0);
        }
        if q.len() == 0 {
            assert(q =~= l);
        }
    }
}

/// A doubled `**` matches what a single one does.
pub proof fn lemma_glob_double_any(x: Seq<Seq<char>>, b: Seq<Seq<char>>, q: Seq<Seq<char>>)
    ensures
        glob(x + seq![glob_any(), glob_any()] + b, q) == glob(x + seq![glob_any()] + b, q),
{
    let two = seq![glob_any(), glob_any()];
    let one = seq![glob_any()];
    assert(x + two + b =~= x + (two + b));
    assert(x + one + b =~= x + (one + b));
    assert forall|r: Seq<Seq<char>>| #[trigger] glob(two + b, r) == glob(one + b, r) by {
        lemma_glob_concat(two, b, r);
        lemma_glob_concat(one, b, r);
        assert(two =~= seq![glob_any()] + one);
        if glob(two + b, r) {
            let k = choose|k: int|
                0 <= k <= r.len() && #[trigger] glob(two, r.take(k)) && glob(b, r.skip(k));
            lemma_glob_any_alone(r.take(k));
            assert(glob(one, r.take(k)));
        }
        if glob(one + b, r) {
            let k = choose|k: int|
                0 <= k <= r.len() && #[trigger] glob(one, r.take(k)) && glob(b, r.skip(k));
            lemma_glob_any(one, r.take(k));
            lemma_glob_any_alone(r.take(k));
            assert(r.take(k).skip(0) =~= r.take(k));
            assert(glob(two, r.take(k)));
        }
    }
    lemma_glob_concat(x, two + b, q);
    lemma_glob_concat(x, one + b, q);
    if glob(x + (two + b), q) {
        let k = choose|k: int|
            0 <= k <= q.len() && #[trigger] glob(x, q.take(k)) && glob(two + b, q.skip(k));
        assert(glob(one + b, q.skip(k)));
    }
    if glob(x + (one + b), q) {
        let k = choose|k: int|
            0 <= k <= q.len() && #[trigger] glob(x, q.take(k)) && glob(one + b, q.skip(k));
        assert(glob(two + b, q.skip(k)));
    }
}

/// A pattern ending in a segment other than `**` must match the last path
/// segment with it.
pub proof fn lemma_glob_last(p: Seq<Seq<char>>, x: Seq<char>, q: Seq<Seq<char>>)
    requires
        x != glob_any(),
    ensures
        glob(p + seq![x], q) <==> (q.len() > 0 && segment_matches(x, q.last()) && glob(
            p,
            q.drop_last(),
        )),
{
    let one = seq![x];
    lemma_glob_concat(p, one, q);
    assert forall|r: Seq<Seq<char>>| #[trigger]
        glob(one, r) <==> (r.len() == 1 && segment_matches(x, r[0])) by {
        assert(one[0] == x);
        assert(one.drop_first() =~= Seq::<Seq<char>>::empty());
        if r.len() > 0 {
            assert(glob(Seq::<Seq<char>>::empty(), r.drop_first()) == (r.drop_first().len() == 0));
        }
    }
    if glob(p + one, q) {
        let k = choose|k: int| 0 <= k <= q.len() && #[trigger] glob(p, q.take(k)) && glob(one, q.skip(k));
        assert(q.skip(k).len() == 1);
        assert(k == q.len() - 1);
        assert(q.take(k) =~= q.drop_last());
        assert(q.skip(k)[0] == q.last());
    }
    if q.len() > 0 && segment_matches(x, q.last()) && glob(p, q.drop_last()) {
        let k = q.len() - 1;
        assert(q.take(k) =~= q.drop_last());
        assert(q.skip(k) =~= seq![q.last()]);
        assert(glob(one, q.skip(k)));
        assert(glob(p, q.take(k)));
    }
}

/// Every segment pattern matches itself: `*` and `**` as segments are
/// matched by the wildcards they are.
pub proof fn lemma_glob_reflexive(p: Seq<Seq<char>>)
    ensures
        glob(p, p),
    decreases p.len(),
{
    if p.len() > 0 {
        let p1 = p.drop_first();
        lemma_glob_reflexive(p1);
        if p[0] == glob_any() {
            assert(p.drop_first() == p1);
            assert(glob(p, p1));
        }
    }
}

/// `*` stands for exactly one segment, whatever it holds.
pub proof fn lemma_star_is_one_segment(path: Seq<Seq<char>>)
    ensures
        glob(seq![glob_one()], path) <==> path.len() == 1,
{
    let one = seq![glob_one()];
    assert(one[0] != glob_any()) by {
        assert(glob_one().len() != glob_any().len());
    }
    assert(one.drop_first() =~= Seq::<Seq<char>>::empty());
    if path.len() > 0 {
        assert(glob(Seq::<Seq<char>>::empty(), path.drop_first()) == (path.drop_first().len() == 0));
    }
}

/// `X/**` matches `X` itself and everything below it, at any depth.
pub proof fn lemma_subtree_covers(prefix: Seq<Seq<char>>, below: Seq<Seq<char>>)
    ensures
        glob(prefix.push(glob_any()), prefix + below),
{
    let q = prefix + below;
    let k = prefix.len() as int;
    assert(prefix.push(glob_any()) =~= prefix + seq![glob_any()]);
    lemma_glob_concat(prefix, seq![glob_any()], q);
    assert(q.take(k) =~= prefix);
    assert(q.skip(k) =~= below);
    lemma_glob_reflexive(prefix);
    lemma_glob_any_alone(below);
    assert(glob(prefix, q.take(k)) && glob(seq![glob_any()], q.skip(k)));
}

/// `*` matches every host; `*.suffix` matches exactly the hosts ending in
/// `.suffix`, that is the subdomains of `suffix` and never `suffix` itself.
pub proof fn lemma_wildcard_hosts(suffix: Seq<char>, host: Seq<char>)
    ensures
        host_match(glob_one(), host),
        host_match(seq!['*', '.'] + suffix, host) <==> ends_with(host, seq!['.'] + suffix),
        !host_match(seq!['*', '.'] + suffix, suffix),
{
    let pattern = seq!['*', '.'] + suffix;
    assert(pattern != glob_one()) by {
        assert(pattern.len() != glob_one().len());
    }
    assert(pattern[0] == '*' && pattern[1] == '.');
    assert(pattern.subrange(1, pattern.len() as int) =~= seq!['.'] + suffix);
}

/// A host pattern that is neither `*` nor `*.suffix` matches exactly the
/// host it names and no other.
pub proof fn lemma_exact_host(pattern: Seq<char>, host: Seq<char>)
    requires
        pattern != glob_one(),
        !(pattern.len() >= 2 && pattern[0] == '*' && pattern[1] == '.'),
    ensures
        host_match(pattern, host) <==> host == pattern,
{
}

/// `~/x/.../**` matches, against a home of clean components, every path at
/// or below that directory of the home, whatever the base.
pub proof fn lemma_home_subtree_matches(
    hs: Seq<Seq<char>>,
    xs: Seq<Seq<char>>,
    ys: Seq<Seq<char>>,
    base: Seq<char>,
)
    requires
        forall|i: int| 0 <= i < hs.len() ==> clean_segment(#[trigger] hs[i]),
        forall|i: int| 0 <= i < xs.len() ==> clean_segment(#[trigger] xs[i]),
        forall|i: int| 0 <= i < ys.len() ==> clean_segment(#[trigger] ys[i]),
    ensures
        pattern_matches(
            seq!['~', '/'] + join(xs.push(glob_any()), seq!['/']),
            rooted(hs + xs + ys),
            base,
            Some(rooted(hs)),
        ),
{
    let e = Seq::<char>::empty();
    let h = rooted(hs);
    lemma_home_subtree_components(hs, xs, base);
    let c = hs + xs.push(glob_any());
    assert forall|i: int| 0 <= i < c.len() implies clean_segment(#[trigger] c[i]) by {
        if i < hs.len() {
            assert(c[i] == hs[i]);
        } else if i < hs.len() + xs.len() {
            assert(c[i] == xs[i - hs.len()]);
        } else {
            assert(c[i] == glob_any());
        }
    }
    lemma_split_rooted(c);
    let cs = hs + xs + ys;
    assert forall|i: int| 0 <= i < cs.len() implies clean_segment(#[trigger] cs[i]) by {
        if i < hs.len() {
            assert(cs[i] == hs[i]);
        } else if i < hs.len() + xs.len() {
            assert(cs[i] == xs[i - hs.len()]);
        } else {
            assert(cs[i] == ys[i - hs.len() - xs.len()]);
        }
    }
    lemma_rooted_clean_resolved(cs, base, h);
    lemma_split_rooted(cs);
    let prefix = seq![e] + hs + xs;
    assert(seq![e] + c =~= prefix.push(glob_any()));
    if cs.len() == 0 {
        assert(seq![e, e] =~= prefix + seq![e]);
        lemma_subtree_covers(prefix, seq![e]);
    } else {
        assert(seq![e] + cs =~= prefix + ys);
        lemma_subtree_covers(prefix, ys);
    }
}

fn is_star(c: &[char]) -> (b: bool)
    ensures
        b == (c@ == glob_one()),
{
    let b = c.len() == 1 && c[0] == '*';
    proof {
        if c@.len() == 1 && c@[0] == '*' {
            assert(c@ =~= glob_one());
        }
    }
    b
}

fn is_double_star(c: &[char]) -> (b: bool)
    ensures
        b == (c@ == glob_any()),
{
    let b = c.len() == 2 && c[0] == '*' && c[1] == '*';
    proof {
        if c@.len() == 2 && c@[0] == '*' && c@[1] == '*' {
            assert(c@ =~= glob_any());
        }
    }
    b
}

fn same_chars(a: &[char], b: &[char]) -> (r: bool)
    ensures
        r == (a@ == b@),
{
    crate::text::chars_eq(a, b)
}

/// Glob matching of `pat[pi..]` against `path[qi..]`; at `**` it first
/// tries consuming no segment, then one more at a time.
fn glob_from(pat: &Vec<Vec<char>>, pi: usize, path: &Vec<Vec<char>>, qi: usize) -> (r: bool)
    requires
        pi <= pat@.len(),
        qi <= path@.len(),
    ensures
        r == glob(pieces(pat@).skip(pi as int), pieces(path@).skip(qi as int)),
    decreases pat@.len() - pi, path@.len() - qi,
{
    let ghost ps = pieces(pat@).skip(pi as int);
    let ghost qs = pieces(path@).skip(qi as int);
    if pi == pat.len() {
        return qi == path.len();
    }
    assert(ps[0] == pat@[pi as int]@);
    assert(ps.drop_first() =~= pieces(pat@).skip(pi + 1));
    if is_double_star(pat[pi].as_slice()) {
        proof {
            assert(ps =~= seq![glob_any()] + ps.drop_first());
            lemma_glob_any(ps.drop_first(), qs);
        }
        let next = pi + 1;
        let mut k = qi;
        loop
            invariant
                qi <= k <= path@.len(),
                pi < pat@.len(),
                next == pi + 1,
                ps == pieces(pat@).skip(pi as int),
                qs == pieces(path@).skip(qi as int),
                ps.drop_first() == pieces(pat@).skip(pi + 1),
                ps == seq![glob_any()] + ps.drop_first(),
                forall|j: int|
                    0 <= j < k - qi ==> !#[trigger] glob(ps.drop_first(), qs.skip(j)),
            decreases path@.len() - k,
        {
            assert(qs.skip(k - qi) =~= pieces(path@).skip(k as int));
            if glob_from(pat, next, path, k) {
                proof {
                    assert(glob(ps.drop_first(), qs.skip(k - qi)));
                    lemma_glob_any(ps.drop_first(), qs);
                }
                return true;
            }
            if k == path.len() {
                proof {
                    lemma_glob_any(ps.drop_first(), qs);
                    assert(qs.len() == k - qi);
                }
                return false;
            }
            k += 1;
        }
    } else {
        if qi == path.len() {
            return false;
        }
        assert(qs[0] == path@[qi as int]@);
        assert(qs.drop_first() =~= pieces(path@).skip(qi + 1));
        let seg_ok = is_star(pat[pi].as_slice()) || same_chars(
            pat[pi].as_slice(),
            path[qi].as_slice(),
        );
        seg_ok && glob_from(pat, pi + 1, path, qi + 1)
    }
}

/// Renders the rooted path of `cs`.
fn rooted_text(cs: &Vec<Vec<char>>) -> (out: Vec<char>)
    ensures
        out@ == rooted(pieces(cs@)),
{
    super::path::rooted_chars(cs)
}

/// Host matching as `HostPattern::matches` does it.
pub fn host_matches(pattern: &str, host: &str) -> (r: bool)
    ensures
        r == host_match(pattern@, host@),
        pattern@ != glob_one() && !(pattern@.len() >= 2 && pattern@[0] == '*' && pattern@[1] == '.')
            ==> (r <==> host@ == pattern@),
{
    let p = to_chars(pattern);
    let h = to_chars(host);
    if is_star(p.as_slice()) {
        return true;
    }
    if p.len() >= 2 && p[0] == '*' && p[1] == '.' {
        let suffix = copy_range(p.as_slice(), 1, p.len());
        if suffix.len() > h.len() {
            return false;
        }
        let tail = copy_range(h.as_slice(), h.len() - suffix.len(), h.len());
        return same_chars(tail.as_slice(), suffix.as_slice());
    }
    same_chars(p.as_slice(), h.as_slice())
}

impl HostPattern {
    /// Whether `host` matches this pattern.
    pub fn matches(&self, host: &str) -> (r: bool)
        ensures
            r == host_match(self.0@, host@),
    {
        host_matches(self.0.as_str(), host)
    }
}

impl PathPattern {
    /// Whether `path`, resolved against `base`, matches this pattern, itself
    /// normalized against `base`; `~` in either is resolved against `home`.
    pub fn matches_from(&self, path: &str, base: &str, home: Option<&str>) -> (r: bool)
        ensures
            r == pattern_matches(self.0@, path@, base@, opt_chars(home)),
    {
        match home {
            None => false,
            Some(h) => {
                let pc = to_chars(self.0.as_str());
                let b = to_chars(base);
                let hc = to_chars(h);
                let p = to_chars(path);
                let cs = pattern_components_chars(pc.as_slice(), b.as_slice(), hc.as_slice());
                let normalized = rooted_text(&cs);
                let target = resolved_chars(p.as_slice(), b.as_slice(), hc.as_slice());
                let pat_segs = split_chars(normalized.as_slice(), '/');
                let path_segs = split_chars(target.as_slice(), '/');
                proof {
                    assert(pieces(pat_segs@).skip(0) =~= pieces(pat_segs@));
                    assert(pieces(path_segs@).skip(0) =~= pieces(path_segs@));
                }
                glob_from(&pat_segs, 0, &path_segs, 0)
            },
        }
    }
}

} // verus!
