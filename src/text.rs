//! Character-level helpers: whitespace, tokens and string building.
use vstd::prelude::*;

verus! {

/// The characters with the Unicode `White_Space` property.
pub open spec fn is_white(c: char) -> bool {
    ('\u{9}' <= c && c <= '\u{d}') || c == ' ' || c == '\u{85}' || c == '\u{a0}'
        || c == '\u{1680}' || ('\u{2000}' <= c && c <= '\u{200a}') || c == '\u{2028}'
        || c == '\u{2029}' || c == '\u{202f}' || c == '\u{205f}' || c == '\u{3000}'
}

/// First index at or after `i` that holds no whitespace (or the length).
pub open spec fn skip_white(s: Seq<char>, i: int) -> int
    decreases s.len() - i,
{
    if i >= s.len() || i < 0 {
        s.len() as int
    } else if is_white(s[i]) {
        skip_white(s, i + 1)
    } else {
        i
    }
}

/// First index at or after `i` that holds whitespace (or the length).
pub open spec fn token_end(s: Seq<char>, i: int) -> int
    decreases s.len() - i,
{
    if i >= s.len() || i < 0 {
        s.len() as int
    } else if is_white(s[i]) {
        i
    } else {
        token_end(s, i + 1)
    }
}

/// The whitespace-separated tokens of `s` from index `i` on.
pub open spec fn tokens_from(s: Seq<char>, i: int) -> Seq<Seq<char>>
    decreases s.len() - i,
{
    let j = skip_white(s, i);
    if i < 0 || j >= s.len() {
        Seq::empty()
    } else {
        let k = token_end(s, j);
        if k <= i || k > s.len() || j < 0 {
            Seq::empty()
        } else {
            seq![s.subrange(j, k)] + tokens_from(s, k)
        }
    }
}

/// The whitespace-separated tokens of `s`, in order.
pub open spec fn tokens(s: Seq<char>) -> Seq<Seq<char>> {
    tokens_from(s, 0)
}

pub proof fn lemma_skip_white_bounds(s: Seq<char>, i: int)
    requires
        0 <= i <= s.len(),
    ensures
        i <= skip_white(s, i) <= s.len(),
        forall|k: int| i <= k < skip_white(s, i) ==> is_white(#[trigger] s[k]),
        skip_white(s, i) < s.len() ==> !is_white(s[skip_white(s, i)]),
    decreases s.len() - i,
{
    if i < s.len() && is_white(s[i]) {
        lemma_skip_white_bounds(s, i + 1);
    }
}

pub proof fn lemma_token_end_bounds(s: Seq<char>, i: int)
    requires
        0 <= i <= s.len(),
    ensures
        i <= token_end(s, i) <= s.len(),
        forall|k: int| i <= k < token_end(s, i) ==> !is_white(#[trigger] s[k]),
        token_end(s, i) < s.len() ==> is_white(s[token_end(s, i)]),
    decreases s.len() - i,
{
    if i < s.len() && !is_white(s[i]) {
        lemma_token_end_bounds(s, i + 1);
    }
}

/// Whether `c` has the Unicode `White_Space` property.
pub fn is_white_char(c: char) -> (r: bool)
    ensures
        r == is_white(c),
{
    ('\u{9}' <= c && c <= '\u{d}') || c == ' ' || c == '\u{85}' || c == '\u{a0}'
        || c == '\u{1680}' || ('\u{2000}' <= c && c <= '\u{200a}') || c == '\u{2028}'
        || c == '\u{2029}' || c == '\u{202f}' || c == '\u{205f}' || c == '\u{3000}'
}

/// The characters of `s`, in order.
pub fn chars_of(s: &str) -> (v: Vec<char>)
    ensures
        v@ == s@,
{
    let n = s.unicode_len();
    let mut v: Vec<char> = Vec::new();
    let mut i: usize = 0;
    while i < n
        invariant
            n == s@.len(),
            i <= n,
            v@ == s@.subrange(0, i as int),
        decreases n - i,
    {
        v.push(s.get_char(i));
        i = i + 1;
    }
    assert(v@ =~= s@);
    v
}

/// Relies on `String::push`: appends one character at the end.
#[verifier::external_body]
pub(crate) fn push_char(s: &mut String, c: char)
    ensures
        final(s)@ == old(s)@.push(c),
{
    s.push(c);
}

/// A string holding `v[from..to]`.
pub fn string_of(v: &Vec<char>, from: usize, to: usize) -> (r: String)
    requires
        from <= to <= v@.len(),
    ensures
        r@ == v@.subrange(from as int, to as int),
{
    let mut r = String::new();
    let mut i: usize = from;
    while i < to
        invariant
            from <= i <= to <= v@.len(),
            r@ == v@.subrange(from as int, i as int),
        decreases to - i,
    {
        push_char(&mut r, v[i]);
        assert(v@.subrange(from as int, i + 1) =~= v@.subrange(from as int, i as int).push(v@[i as int]));
        i = i + 1;
    }
    r
}

/// The index of the first non-whitespace character at or after `i`.
pub fn skip_white_exec(v: &Vec<char>, i: usize) -> (r: usize)
    requires
        i <= v@.len(),
    ensures
        r as int == skip_white(v@, i as int),
{
    let mut j = i;
    while j < v.len() && is_white_char(v[j])
        invariant
            i <= j <= v@.len(),
            skip_white(v@, i as int) == skip_white(v@, j as int),
        decreases v@.len() - j,
    {
        j = j + 1;
    }
    j
}

/// The index of the first whitespace character at or after `i`.
pub fn token_end_exec(v: &Vec<char>, i: usize) -> (r: usize)
    requires
        i <= v@.len(),
    ensures
        r as int == token_end(v@, i as int),
{
    let mut j = i;
    while j < v.len() && !is_white_char(v[j])
        invariant
            i <= j <= v@.len(),
            token_end(v@, i as int) == token_end(v@, j as int),
        decreases v@.len() - j,
    {
        j = j + 1;
    }
    j
}

/// The whitespace-separated tokens of `s`, in order.
pub fn split_tokens(s: &str) -> (r: Vec<String>)
    ensures
        r@.len() == tokens(s@).len(),
        forall|i: int| 0 <= i < r@.len() ==> #[trigger] r@[i]@ == tokens(s@)[i],
{
    let v = chars_of(s);
    let mut r: Vec<String> = Vec::new();
    let mut i: usize = 0;
    while i < v.len()
        invariant
            v@ == s@,
            i <= v@.len(),
            tokens(s@) == tokens_from_prefix(r@) + tokens_from(s@, i as int),
        decreases v@.len() - i,
    {
        let j = skip_white_exec(&v, i);
        proof {
            lemma_skip_white_bounds(v@, i as int);
        }
        if j >= v.len() {
            i = j;
        } else {
            let k = token_end_exec(&v, j);
            proof {
                lemma_token_end_bounds(v@, j as int);
            }
            let t = string_of(&v, j, k);
            proof {
                assert(tokens_from_prefix(r@.push(t)) =~= tokens_from_prefix(r@).push(t@));
                assert(tokens_from(s@, i as int) == seq![s@.subrange(j as int, k as int)]
                    + tokens_from(s@, k as int));
                assert(tokens_from_prefix(r@).push(t@) + tokens_from(s@, k as int)
                    =~= tokens_from_prefix(r@) + tokens_from(s@, i as int));
            }
            r.push(t);
            i = k;
        }
    }
    proof {
        assert(tokens_from(s@, i as int) =~= Seq::<Seq<char>>::empty());
        assert(tokens_from_prefix(r@) + tokens_from(s@, i as int) =~= tokens_from_prefix(r@));
    }
    r
}

/// The views of a sequence of strings.
pub open spec fn tokens_from_prefix(r: Seq<String>) -> Seq<Seq<char>> {
    r.map_values(|t: String| t@)
}

proof fn lemma_tokens_shift(w: Seq<char>, rest: Seq<char>, i: int)
    requires
        0 <= i <= rest.len(),
    ensures
        skip_white(w + rest, w.len() + i) == w.len() + skip_white(rest, i),
        token_end(w + rest, w.len() + i) == w.len() + token_end(rest, i),
        tokens_from(w + rest, w.len() + i) == tokens_from(rest, i),
    decreases rest.len() - i,
{
    let s = w + rest;
    if i < rest.len() {
        assert(s[w.len() + i] == rest[i]);
        lemma_tokens_shift(w, rest, i + 1);
    }
    lemma_skip_white_bounds(rest, i);
    let j = skip_white(rest, i);
    if j < rest.len() {
        lemma_token_end_bounds(rest, j);
        lemma_tokens_shift_end(w, rest, j);
        let k = token_end(rest, j);
        assert(s.subrange(w.len() + j, w.len() + k) =~= rest.subrange(j, k));
        if k > i {
            lemma_tokens_shift(w, rest, k);
        }
    }
}

proof fn lemma_tokens_shift_end(w: Seq<char>, rest: Seq<char>, i: int)
    requires
        0 <= i <= rest.len(),
    ensures
        token_end(w + rest, w.len() + i) == w.len() + token_end(rest, i),
    decreases rest.len() - i,
{
    if i < rest.len() {
        assert((w + rest)[w.len() + i] == rest[i]);
        lemma_tokens_shift_end(w, rest, i + 1);
    }
}

/// A word without whitespace followed by a space is the first token.
pub proof fn lemma_word_is_token(t: Seq<char>, rest: Seq<char>)
    requires
        t.len() > 0,
        forall|j: int| 0 <= j < t.len() ==> !is_white(#[trigger] t[j]),
    ensures
        tokens(t + seq![' '] + rest) == seq![t] + tokens(rest),
{
    let w = t + seq![' '];
    let s = t + seq![' '] + rest;
    assert(s =~= w + rest);
    assert(!is_white(s[0]));
    lemma_token_end_bounds(s, 0);
    assert forall|k: int| 0 <= k < t.len() implies !is_white(#[trigger] s[k]) by {
        assert(s[k] == t[k]);
    }
    assert(s[t.len() as int] == ' ');
    lemma_token_prefix(s, t.len() as int, 0);
    assert(s.subrange(0, t.len() as int) =~= t);
    lemma_skip_white_bounds(s, t.len() as int);
    assert(skip_white(s, t.len() as int) == skip_white(s, (t.len() + 1) as int));
    lemma_tokens_shift(w, rest, 0);
    lemma_tokens_skip_equal(s, t.len() as int);
}

proof fn lemma_token_prefix(s: Seq<char>, e: int, i: int)
    requires
        0 <= i <= e < s.len(),
        forall|k: int| 0 <= k < e ==> !is_white(#[trigger] s[k]),
        is_white(s[e]),
    ensures
        token_end(s, i) == e,
    decreases e - i,
{
    if i < e {
        lemma_token_prefix(s, e, i + 1);
    }
}

proof fn lemma_tokens_skip_equal(s: Seq<char>, i: int)
    requires
        0 <= i < s.len(),
        is_white(s[i]),
    ensures
        tokens_from(s, i) == tokens_from(s, i + 1),
{
    lemma_skip_white_bounds(s, i + 1);
    let j = skip_white(s, i + 1);
    assert(skip_white(s, i) == j);
    if j < s.len() {
        lemma_token_end_bounds(s, j);
    }
}

} // verus!
