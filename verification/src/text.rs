//! Character-sequence helpers shared by the parser, the path resolver and the
//! matchers. Text is handled as `Seq<char>` in specifications and as
//! `Vec<char>` in executable code.
use vstd::prelude::*;

verus! {

/// Unicode `White_Space` code points, the set `char::is_whitespace` tests.
pub open spec fn is_ws(c: char) -> bool {
    let u = c as u32;
    ||| 0x09 <= u <= 0x0D
    ||| u == 0x20
    ||| u == 0x85
    ||| u == 0xA0
    ||| u == 0x1680
    ||| 0x2000 <= u <= 0x200A
    ||| u == 0x2028
    ||| u == 0x2029
    ||| u == 0x202F
    ||| u == 0x205F
    ||| u == 0x3000
}

/// `s` with leading whitespace removed.
pub open spec fn trim_start(s: Seq<char>) -> Seq<char>
    decreases s.len(),
{
    if s.len() > 0 && is_ws(s[0]) {
        trim_start(s.drop_first())
    } else {
        s
    }
}

/// `s` with trailing whitespace removed.
pub open spec fn trim_end(s: Seq<char>) -> Seq<char>
    decreases s.len(),
{
    if s.len() > 0 && is_ws(s.last()) {
        trim_end(s.drop_last())
    } else {
        s
    }
}

/// `s` with whitespace removed from both ends.
pub open spec fn trim(s: Seq<char>) -> Seq<char> {
    trim_end(trim_start(s))
}

/// The pieces of `s` between occurrences of `sep`; always at least one piece.
pub open spec fn split(s: Seq<char>, sep: char) -> Seq<Seq<char>>
    decreases s.len(),
{
    if s.len() == 0 {
        seq![Seq::<char>::empty()]
    } else {
        let t = split(s.drop_last(), sep);
        if s.last() == sep {
            t.push(Seq::<char>::empty())
        } else {
            t.update(t.len() - 1, t.last().push(s.last()))
        }
    }
}

/// The leading run of non-whitespace characters of `s`.
pub open spec fn take_token(s: Seq<char>) -> Seq<char>
    decreases s.len(),
{
    if s.len() == 0 || is_ws(s[0]) {
        Seq::<char>::empty()
    } else {
        seq![s[0]] + take_token(s.drop_first())
    }
}

/// What follows the leading run of non-whitespace characters of `s`.
pub open spec fn after_token(s: Seq<char>) -> Seq<char>
    decreases s.len(),
{
    if s.len() == 0 || is_ws(s[0]) {
        s
    } else {
        after_token(s.drop_first())
    }
}

/// The character sequences held by a vector of character vectors.
pub open spec fn pieces(v: Seq<Vec<char>>) -> Seq<Seq<char>> {
    v.map_values(|x: Vec<char>| x@)
}

/// The character sequences held by a sequence of strings.
pub open spec fn strings(v: Seq<String>) -> Seq<Seq<char>> {
    v.map_values(|x: String| x@)
}

/// The text of an optional string slice.
pub open spec fn opt_chars(o: Option<&str>) -> Option<Seq<char>> {
    match o {
        Some(s) => Some(s@),
        None => None,
    }
}

/// `s` contains no occurrence of `c`.
pub open spec fn free_of(s: Seq<char>, c: char) -> bool {
    forall|i: int| 0 <= i < s.len() ==> s[i] != c
}

/// `items` joined with `sep` between consecutive items.
pub open spec fn join(items: Seq<Seq<char>>, sep: Seq<char>) -> Seq<char>
    decreases items.len(),
{
    if items.len() == 0 {
        Seq::<char>::empty()
    } else if items.len() == 1 {
        items[0]
    } else {
        join(items.drop_last(), sep) + sep + items.last()
    }
}

pub proof fn lemma_split_len(s: Seq<char>, sep: char)
    ensures
        split(s, sep).len() >= 1,
    decreases s.len(),
{
    if s.len() > 0 {
        lemma_split_len(s.drop_last(), sep);
    }
}

/// Pieces never contain the separator.
pub proof fn lemma_split_pieces_free(s: Seq<char>, sep: char)
    ensures
        forall|i: int| 0 <= i < split(s, sep).len() ==> free_of(#[trigger] split(s, sep)[i], sep),
    decreases s.len(),
{
    lemma_split_len(s, sep);
    if s.len() > 0 {
        lemma_split_pieces_free(s.drop_last(), sep);
        lemma_split_len(s.drop_last(), sep);
    }
}

/// A run without the separator extends the last piece.
pub proof fn lemma_split_append_free(a: Seq<char>, b: Seq<char>, sep: char)
    requires
        free_of(b, sep),
    ensures
        split(a + b, sep) == split(a, sep).update(
            split(a, sep).len() - 1,
            split(a, sep).last() + b,
        ),
    decreases b.len(),
{
    lemma_split_len(a, sep);
    if b.len() == 0 {
        assert(a + b == a);
        assert(split(a, sep).last() + b == split(a, sep).last());
        assert(split(a, sep).update(split(a, sep).len() - 1, split(a, sep).last())
            =~= split(a, sep));
    } else {
        let b0 = b.drop_last();
        assert((a + b).drop_last() == a + b0);
        assert((a + b).last() == b.last());
        assert(b.last() != sep) by {
            assert(b[b.len() - 1] != sep);
        }
        assert(free_of(b0, sep)) by {
            assert forall|i: int| 0 <= i < b0.len() implies b0[i] != sep by {
                assert(b0[i] == b[i]);
            }
        }
        lemma_split_append_free(a, b0, sep);
        lemma_split_len(a + b0, sep);
        let sa = split(a, sep);
        let t = split(a + b0, sep);
        assert(t.len() == sa.len());
        assert(t.last() == sa.last() + b0);
        assert((sa.last() + b0).push(b.last()) =~= sa.last() + b);
        assert(split(a + b, sep) == t.update(t.len() - 1, t.last().push(b.last())));
        assert(split(a + b, sep) =~= sa.update(sa.len() - 1, sa.last() + b));
    }
}

/// A separator followed by a run without it starts a new piece.
pub proof fn lemma_split_append_sep(a: Seq<char>, b: Seq<char>, sep: char)
    requires
        free_of(b, sep),
    ensures
        split(a + seq![sep] + b, sep) == split(a, sep).push(b),
{
    let a1 = a + seq![sep];
    assert(a1.drop_last() == a);
    lemma_split_len(a, sep);
    lemma_split_append_free(a1, b, sep);
    assert(Seq::<char>::empty() + b == b);
}

/// A text without the separator is a single piece.
pub proof fn lemma_split_free(b: Seq<char>, sep: char)
    requires
        free_of(b, sep),
    ensures
        split(b, sep) == seq![b],
{
    lemma_split_append_free(Seq::<char>::empty(), b, sep);
    assert(Seq::<char>::empty() + b == b);
}

/// Splitting at a separator occurrence splits the two sides independently.
pub proof fn lemma_split_concat(a: Seq<char>, b: Seq<char>, c: char)
    ensures
        split(a + seq![c] + b, c) == split(a, c) + split(b, c),
    decreases b.len(),
{
    lemma_split_len(a, c);
    lemma_split_len(b, c);
    if b.len() == 0 {
        assert(a + seq![c] + b == a + seq![c]);
        assert((a + seq![c]).drop_last() == a);
        assert(split(b, c) =~= seq![Seq::<char>::empty()]);
        assert(split(a, c).push(Seq::<char>::empty()) =~= split(a, c) + split(b, c));
    } else {
        let b0 = b.drop_last();
        let x = b.last();
        assert((a + seq![c] + b).drop_last() =~= a + seq![c] + b0);
        assert((a + seq![c] + b).last() == x);
        lemma_split_concat(a, b0, c);
        lemma_split_len(b0, c);
        let sa = split(a, c);
        let sb0 = split(b0, c);
        if x == c {
            assert((sa + sb0).push(Seq::<char>::empty()) =~= sa + sb0.push(Seq::<char>::empty()));
        } else {
            let t = sa + sb0;
            assert(t.last() == sb0.last());
            assert(t.update(t.len() - 1, t.last().push(x)) =~= sa + sb0.update(
                sb0.len() - 1,
                sb0.last().push(x),
            ));
        }
    }
}

/// Extending the last item extends the joined text.
pub proof fn lemma_join_extend_last(items: Seq<Seq<char>>, y: Seq<char>, sep: Seq<char>)
    requires
        items.len() > 0,
    ensures
        join(items.update(items.len() - 1, items.last() + y), sep) == join(items, sep) + y,
{
    let u = items.update(items.len() - 1, items.last() + y);
    if items.len() == 1 {
        assert(u[0] == items[0] + y);
    } else {
        assert(u.drop_last() =~= items.drop_last());
        assert(join(u, sep) == join(u.drop_last(), sep) + sep + u.last());
        assert(join(items, sep) + y =~= join(items.drop_last(), sep) + sep + (items.last() + y));
    }
}

/// Joining the pieces of a split gives the text back.
pub proof fn lemma_join_split(t: Seq<char>, c: char)
    ensures
        join(split(t, c), seq![c]) == t,
    decreases t.len(),
{
    if t.len() == 0 {
        assert(split(t, c) =~= seq![Seq::<char>::empty()]);
    } else {
        let t0 = t.drop_last();
        let x = t.last();
        lemma_join_split(t0, c);
        lemma_split_len(t0, c);
        let s0 = split(t0, c);
        if x == c {
            let s = s0.push(Seq::<char>::empty());
            assert(s.drop_last() =~= s0);
            assert(join(s, seq![c]) == join(s0, seq![c]) + seq![c] + Seq::<char>::empty());
            assert(t0 + seq![c] + Seq::<char>::empty() =~= t);
        } else {
            lemma_join_extend_last(s0, seq![x], seq![c]);
            assert(s0.last() + seq![x] =~= s0.last().push(x));
            assert(t0 + seq![x] =~= t);
        }
    }
}

/// Joining two non-empty lists puts one separator between them.
pub proof fn lemma_join_concat(a: Seq<Seq<char>>, b: Seq<Seq<char>>, sep: Seq<char>)
    requires
        a.len() > 0,
        b.len() > 0,
    ensures
        join(a + b, sep) == join(a, sep) + sep + join(b, sep),
    decreases b.len(),
{
    let ab = a + b;
    assert(ab.len() >= 2);
    assert(ab.last() == b.last());
    if b.len() == 1 {
        assert(ab.drop_last() =~= a);
        assert(join(b, sep) == b[0]);
    } else {
        assert(ab.drop_last() =~= a + b.drop_last());
        lemma_join_concat(a, b.drop_last(), sep);
        assert(join(b, sep) == join(b.drop_last(), sep) + sep + b.last());
        assert(join(a, sep) + sep + join(b.drop_last(), sep) + sep + b.last() =~= join(a, sep)
            + sep + (join(b.drop_last(), sep) + sep + b.last()));
    }
}

/// Splitting the join of separator-free items gives the items back.
pub proof fn lemma_split_join(cs: Seq<Seq<char>>, c: char)
    requires
        cs.len() > 0,
        forall|i: int| 0 <= i < cs.len() ==> free_of(#[trigger] cs[i], c),
    ensures
        split(join(cs, seq![c]), c) == cs,
    decreases cs.len(),
{
    if cs.len() == 1 {
        lemma_split_free(cs[0], c);
        assert(seq![cs[0]] =~= cs);
    } else {
        let c0 = cs.drop_last();
        assert forall|i: int| 0 <= i < c0.len() implies free_of(#[trigger] c0[i], c) by {
            assert(c0[i] == cs[i]);
        }
        lemma_split_join(c0, c);
        assert(free_of(cs[cs.len() - 1], c));
        lemma_split_free(cs.last(), c);
        lemma_split_concat(join(c0, seq![c]), cs.last(), c);
        assert(join(cs, seq![c]) == join(c0, seq![c]) + seq![c] + cs.last());
        assert(c0 + seq![cs.last()] =~= cs);
    }
}

pub proof fn lemma_push_contains<A>(s: Seq<A>, x: A)
    ensures
        forall|t: A| #[trigger] s.push(x).contains(t) <==> (s.contains(t) || t == x),
{
    assert forall|t: A| #[trigger] s.push(x).contains(t) <==> (s.contains(t) || t == x) by {
        if s.push(x).contains(t) {
            let i = choose|i: int| 0 <= i < s.len() + 1 && s.push(x)[i] == t;
            if i < s.len() {
                assert(s[i] == t);
            }
        }
        if s.contains(t) {
            let i = choose|i: int| 0 <= i < s.len() && s[i] == t;
            assert(s.push(x)[i] == t);
        }
        if t == x {
            assert(s.push(x)[s.len() as int] == t);
        }
    }
}

pub proof fn lemma_front_contains<A>(s: Seq<A>, m: int, n: int)
    requires
        0 <= m < n <= s.len(),
    ensures
        forall|t: A| #[trigger] s.subrange(m, n).contains(t) <==> (t == s[m] || s.subrange(
            m + 1,
            n,
        ).contains(t)),
{
    assert forall|t: A| #[trigger] s.subrange(m, n).contains(t) <==> (t == s[m] || s.subrange(
        m + 1,
        n,
    ).contains(t)) by {
        if s.subrange(m, n).contains(t) {
            let i = choose|i: int| 0 <= i < n - m && #[trigger] s.subrange(m, n)[i] == t;
            if i > 0 {
                assert(s.subrange(m + 1, n)[i - 1] == t);
            }
        }
        if s.subrange(m + 1, n).contains(t) {
            let i = choose|i: int| 0 <= i < n - m - 1 && #[trigger] s.subrange(m + 1, n)[i] == t;
            assert(s.subrange(m, n)[i + 1] == t);
        }
        if t == s[m] {
            assert(s.subrange(m, n)[0] == t);
        }
    }
}

/// Lexicographic order on texts by code point, as `str` orders them.
pub open spec fn lex_lt(a: Seq<char>, b: Seq<char>) -> bool
    decreases a.len(),
{
    if a.len() == 0 {
        b.len() > 0
    } else if b.len() == 0 {
        false
    } else if a[0] < b[0] {
        true
    } else if a[0] > b[0] {
        false
    } else {
        lex_lt(a.drop_first(), b.drop_first())
    }
}

pub proof fn lemma_lex_irreflexive(a: Seq<char>)
    ensures
        !lex_lt(a, a),
    decreases a.len(),
{
    if a.len() > 0 {
        lemma_lex_irreflexive(a.drop_first());
    }
}

pub proof fn lemma_lex_asymmetric(a: Seq<char>, b: Seq<char>)
    ensures
        lex_lt(a, b) ==> !lex_lt(b, a),
    decreases a.len(),
{
    if a.len() > 0 && b.len() > 0 {
        lemma_lex_asymmetric(a.drop_first(), b.drop_first());
    }
}

pub proof fn lemma_lex_transitive(a: Seq<char>, b: Seq<char>, c: Seq<char>)
    ensures
        lex_lt(a, b) && lex_lt(b, c) ==> lex_lt(a, c),
    decreases a.len(),
{
    if a.len() > 0 && b.len() > 0 && c.len() > 0 {
        lemma_lex_transitive(a.drop_first(), b.drop_first(), c.drop_first());
    }
}

pub proof fn lemma_lex_total(a: Seq<char>, b: Seq<char>)
    ensures
        a != b ==> lex_lt(a, b) || lex_lt(b, a),
    decreases a.len(),
{
    if a.len() > 0 && b.len() > 0 {
        lemma_lex_total(a.drop_first(), b.drop_first());
        if a[0] == b[0] && a.drop_first() == b.drop_first() {
            assert(a =~= seq![a[0]] + a.drop_first());
            assert(b =~= seq![b[0]] + b.drop_first());
        }
    } else if a.len() == 0 && b.len() == 0 {
        assert(a =~= b);
    }
}

/// `a` orders before `b`.
pub fn lex_less(a: &[char], b: &[char]) -> (r: bool)
    ensures
        r == lex_lt(a@, b@),
{
    let mut i: usize = 0;
    assert(a@.skip(0) =~= a@);
    assert(b@.skip(0) =~= b@);
    while i < a.len() && i < b.len() && a[i] == b[i]
        invariant
            i <= a@.len(),
            i <= b@.len(),
            lex_lt(a@, b@) == lex_lt(a@.skip(i as int), b@.skip(i as int)),
        decreases a.len() - i,
    {
        assert(a@.skip(i as int).drop_first() =~= a@.skip(i + 1));
        assert(b@.skip(i as int).drop_first() =~= b@.skip(i + 1));
        assert(a@.skip(i as int)[0] == a@[i as int]);
        assert(b@.skip(i as int)[0] == b@[i as int]);
        i += 1;
    }
    if i == a.len() {
        i < b.len()
    } else if i == b.len() {
        false
    } else {
        assert(a@.skip(i as int)[0] == a@[i as int]);
        assert(b@.skip(i as int)[0] == b@[i as int]);
        a[i] < b[i]
    }
}

/// A text that does not start with the separator has a non-empty first piece.
pub proof fn lemma_split_first_nonempty(p: Seq<char>, c: char)
    requires
        p.len() > 0,
        p[0] != c,
    ensures
        split(p, c)[0].len() > 0,
    decreases p.len(),
{
    lemma_split_len(p, c);
    if p.len() == 1 {
        assert(p.drop_last().len() == 0);
        assert(split(p.drop_last(), c) =~= seq![Seq::<char>::empty()]);
    } else {
        let p0 = p.drop_last();
        assert(p0[0] == p[0]);
        lemma_split_first_nonempty(p0, c);
        lemma_split_len(p0, c);
    }
}

/// Splitting a text that starts with the separator gives an empty first piece.
pub proof fn lemma_split_leading(t: Seq<char>, c: char)
    ensures
        split(seq![c] + t, c) == seq![Seq::<char>::empty()] + split(t, c),
{
    lemma_split_concat(Seq::<char>::empty(), t, c);
    assert(Seq::<char>::empty() + seq![c] + t =~= seq![c] + t);
    assert(split(Seq::<char>::empty(), c) =~= seq![Seq::<char>::empty()]);
}

/// Reads a string slice into a vector of characters.
pub fn to_chars(s: &str) -> (out: Vec<char>)
    ensures
        out@ == s@,
{
    broadcast use vstd::string::group_string_axioms;

    let mut out: Vec<char> = Vec::new();
    for c in it: s.chars()
        invariant
            out@ == it.seq().take(it.index() as int),
    {
        out.push(c);
    }
    out
}

/// std's `String::push`: claimed to append the character at the end of the
/// string and to change nothing else.
pub assume_specification[ String::push ](string: &mut String, ch: char)
    ensures
        final(string)@ == old(string)@.push(ch),
;

/// Builds a `String` holding exactly the characters `cs`, in order.
pub fn string_from_chars(cs: &[char]) -> (s: String)
    ensures
        s@ == cs@,
{
    let mut s = String::new();
    let mut i: usize = 0;
    while i < cs.len()
        invariant
            i <= cs@.len(),
            s@ == cs@.subrange(0, i as int),
        decreases cs.len() - i,
    {
        s.push(cs[i]);
        assert(cs@.subrange(0, i + 1) =~= cs@.subrange(0, i as int).push(cs@[i as int]));
        i += 1;
    }
    assert(cs@.subrange(0, cs@.len() as int) =~= cs@);
    s
}

/// `char::is_whitespace`.
pub fn is_whitespace(c: char) -> (b: bool)
    ensures
        b == is_ws(c),
{
    let u = c as u32;
    (0x09 <= u && u <= 0x0D) || u == 0x20 || u == 0x85 || u == 0xA0 || u == 0x1680 || (0x2000
        <= u && u <= 0x200A) || u == 0x2028 || u == 0x2029 || u == 0x202F || u == 0x205F || u
        == 0x3000
}

/// Copies `s[lo..hi]`.
pub fn copy_range(s: &[char], lo: usize, hi: usize) -> (out: Vec<char>)
    requires
        lo <= hi <= s@.len(),
    ensures
        out@ == s@.subrange(lo as int, hi as int),
{
    let mut out: Vec<char> = Vec::new();
    let mut i = lo;
    while i < hi
        invariant
            lo <= i <= hi <= s@.len(),
            out@ == s@.subrange(lo as int, i as int),
        decreases hi - i,
    {
        out.push(s[i]);
        i += 1;
    }
    out
}

/// Appends `b` to `a`.
pub fn push_all(a: &mut Vec<char>, b: &[char])
    ensures
        final(a)@ == old(a)@ + b@,
{
    let mut i: usize = 0;
    while i < b.len()
        invariant
            i <= b@.len(),
            a@ == old(a)@ + b@.subrange(0, i as int),
        decreases b.len() - i,
    {
        a.push(b[i]);
        i += 1;
    }
}

/// `a == b` as character sequences.
pub fn chars_eq(a: &[char], b: &[char]) -> (r: bool)
    ensures
        r == (a@ == b@),
{
    if a.len() != b.len() {
        return false;
    }
    let mut i: usize = 0;
    while i < a.len()
        invariant
            a@.len() == b@.len(),
            i <= a@.len(),
            forall|j: int| 0 <= j < i ==> a@[j] == b@[j],
        decreases a.len() - i,
    {
        if a[i] != b[i] {
            return false;
        }
        i += 1;
    }
    assert(a@ == b@);
    true
}

/// `a` equals the string `b`.
pub fn chars_eq_str(a: &[char], b: &str) -> (r: bool)
    ensures
        r == (a@ == b@),
{
    let bc = to_chars(b);
    chars_eq(a, bc.as_slice())
}

proof fn lemma_trim_start_skip(s: Seq<char>, i: int)
    requires
        0 <= i <= s.len(),
        forall|j: int| 0 <= j < i ==> is_ws(#[trigger] s[j]),
    ensures
        trim_start(s) == trim_start(s.subrange(i, s.len() as int)),
    decreases i,
{
    if i > 0 {
        lemma_trim_start_skip(s.drop_first(), i - 1);
        assert(s.drop_first().subrange(i - 1, s.drop_first().len() as int) == s.subrange(
            i,
            s.len() as int,
        ));
    } else {
        assert(s.subrange(0, s.len() as int) == s);
    }
}

proof fn lemma_trim_end_cut(s: Seq<char>, k: int)
    requires
        0 <= k <= s.len(),
        forall|j: int| k <= j < s.len() ==> is_ws(#[trigger] s[j]),
    ensures
        trim_end(s) == trim_end(s.subrange(0, k)),
    decreases s.len() - k,
{
    if k < s.len() {
        lemma_trim_end_cut(s.drop_last(), k);
        assert(s.drop_last().subrange(0, k) == s.subrange(0, k));
    } else {
        assert(s.subrange(0, k) == s);
    }
}

/// The index of the first non-whitespace character of `s`, or its length.
fn skip_ws(s: &[char], from: usize) -> (i: usize)
    requires
        from <= s@.len(),
    ensures
        from <= i <= s@.len(),
        forall|j: int| from <= j < i ==> is_ws(#[trigger] s@[j]),
        i < s@.len() ==> !is_ws(s@[i as int]),
{
    let mut i = from;
    while i < s.len() && is_whitespace(s[i])
        invariant
            from <= i <= s@.len(),
            forall|j: int| from <= j < i ==> is_ws(#[trigger] s@[j]),
        decreases s.len() - i,
    {
        i += 1;
    }
    i
}

/// `str::trim`.
pub fn trim_chars(s: &[char]) -> (out: Vec<char>)
    ensures
        out@ == trim(s@),
{
    let lo = skip_ws(s, 0);
    proof {
        lemma_trim_start_skip(s@, lo as int);
    }
    let mut hi = s.len();
    while hi > lo && is_whitespace(s[hi - 1])
        invariant
            lo <= hi <= s@.len(),
            forall|j: int| hi <= j < s@.len() ==> is_ws(#[trigger] s@[j]),
        decreases hi,
    {
        hi -= 1;
    }
    let ghost t = s@.subrange(lo as int, s@.len() as int);
    proof {
        if lo < s@.len() {
            assert(!is_ws(t[0]));
            assert(trim_start(t) == t);
        } else {
            assert(t.len() == 0);
        }
        lemma_trim_end_cut(t, hi - lo);
        assert(t.subrange(0, hi - lo) == s@.subrange(lo as int, hi as int));
        let u = s@.subrange(lo as int, hi as int);
        if hi > lo {
            assert(!is_ws(u.last()));
        }
    }
    copy_range(s, lo, hi)
}

/// `str::split` with a character separator, each piece copied out.
pub fn split_chars(s: &[char], sep: char) -> (out: Vec<Vec<char>>)
    ensures
        pieces(out@) == split(s@, sep),
{
    let mut out: Vec<Vec<char>> = Vec::new();
    let mut cur: Vec<char> = Vec::new();
    let mut i: usize = 0;
    assert(s@.subrange(0, 0) == Seq::<char>::empty());
    while i < s.len()
        invariant
            i <= s@.len(),
            pieces(out@).push(cur@) == split(s@.subrange(0, i as int), sep),
        decreases s.len() - i,
    {
        let c = s[i];
        let ghost pre = s@.subrange(0, i as int);
        assert(s@.subrange(0, i + 1).drop_last() == pre);
        if c == sep {
            let ghost dv = pieces(out@);
            let ghost old_cur = cur@;
            out.push(cur);
            cur = Vec::new();
            assert(pieces(out@) =~= dv.push(old_cur));
            assert(pieces(out@).push(cur@) =~= split(pre, sep).push(Seq::<char>::empty()));
        } else {
            let ghost dv = pieces(out@);
            let ghost old_cur = cur@;
            cur.push(c);
            assert(pieces(out@).push(cur@) =~= dv.push(old_cur).update(
                dv.len() as int,
                old_cur.push(c),
            ));
        }
        i += 1;
    }
    assert(s@.subrange(0, s@.len() as int) == s@);
    let ghost dv = pieces(out@);
    let ghost last = cur@;
    out.push(cur);
    assert(pieces(out@) =~= dv.push(last));
    out
}

} // verus!
