//! Helpers on the textual value of a field.
use crate::text::{
    chars_of, lemma_skip_white_bounds, lemma_token_end_bounds, skip_white,
    skip_white_exec, string_of, token_end, token_end_exec,
};
use crate::decimal::{has_sign, literal_body, plain_decimal_of, scan};
use vstd::prelude::*;

verus! {

/// Index of the first `(` at or after `i` (or the length).
pub open spec fn paren_from(s: Seq<char>, i: int) -> int
    decreases s.len() - i,
{
    if i >= s.len() || i < 0 {
        s.len() as int
    } else if s[i] == '(' {
        i
    } else {
        paren_from(s, i + 1)
    }
}

/// `s` without its uncertainty suffix: everything from the first `(` on is dropped.
pub open spec fn strip_uncertainty(s: Seq<char>) -> Seq<char> {
    s.subrange(0, paren_from(s, 0))
}

/// Index of the last `.` before index `i`, or -1.
pub open spec fn last_dot_before(s: Seq<char>, i: int) -> int
    decreases i,
{
    if i <= 0 {
        -1
    } else if s[i - 1] == '.' {
        i - 1
    } else {
        last_dot_before(s, i - 1)
    }
}

/// The number of characters after the last decimal point, 0 without one.
pub open spec fn precision_spec(s: Seq<char>) -> nat {
    let d = last_dot_before(s, s.len() as int);
    if d < 0 {
        0
    } else {
        (s.len() - 1 - d) as nat
    }
}

/// Where the first two tokens of a line start and end: key start, key end,
/// value start, value end.
pub open spec fn key_end(s: Seq<char>) -> int {
    token_end(s, skip_white(s, 0))
}

pub open spec fn value_start(s: Seq<char>) -> int {
    skip_white(s, key_end(s))
}

/// Whether the line holds a key token followed by a value token.
pub open spec fn has_key_and_value(s: Seq<char>) -> bool {
    skip_white(s, 0) < s.len() && value_start(s) < s.len()
}

/// The first token of a line.
pub open spec fn key_of(s: Seq<char>) -> Seq<char> {
    s.subrange(skip_white(s, 0), key_end(s))
}

/// The whitespace run between the first and second tokens of a line.
pub open spec fn gap_of(s: Seq<char>) -> Seq<char> {
    s.subrange(key_end(s), value_start(s))
}

/// The second token of a line.
pub open spec fn value_of(s: Seq<char>) -> Seq<char> {
    s.subrange(value_start(s), token_end(s, value_start(s)))
}

pub proof fn lemma_line_positions(s: Seq<char>)
    ensures
        0 <= skip_white(s, 0) <= key_end(s) <= value_start(s) <= token_end(s, value_start(s))
            <= s.len(),
        skip_white(s, 0) < s.len() ==> skip_white(s, 0) < key_end(s),
        value_start(s) < s.len() ==> value_start(s) < token_end(s, value_start(s)),
{
    lemma_skip_white_bounds(s, 0);
    lemma_token_end_bounds(s, skip_white(s, 0));
    lemma_skip_white_bounds(s, key_end(s));
    lemma_token_end_bounds(s, value_start(s));
}

/// Drops the uncertainty suffix of a value: `4.0094(2)` becomes `4.0094`.
pub fn remove_uncertainty_digits(value: &str) -> (r: String)
    ensures
        r@ == strip_uncertainty(value@),
{
    let v = chars_of(value);
    let mut i: usize = 0;
    while i < v.len() && v[i] != '('
        invariant
            v@ == value@,
            i <= v@.len(),
            paren_from(v@, 0) == paren_from(v@, i as int),
        decreases v@.len() - i,
    {
        i = i + 1;
    }
    string_of(&v, 0, i)
}

/// Values from which the uncertainty suffix can be removed.
pub trait RemoveUncertaintyDigits {
    /// The characters of the value.
    spec fn text(&self) -> Seq<char>;

    fn remove_uncertainty_digits(&self) -> (r: String)
        ensures
            r@ == strip_uncertainty(self.text()),
    ;
}

impl RemoveUncertaintyDigits for str {
    open spec fn text(&self) -> Seq<char> {
        self@
    }

    fn remove_uncertainty_digits(&self) -> (r: String) {
        remove_uncertainty_digits(self)
    }
}

/// The number of decimal places of a value: the characters after its last
/// decimal point, 0 where there is none.
pub fn precision_of_value(value: &str) -> (r: usize)
    ensures
        r == precision_spec(value@),
{
    let v = chars_of(value);
    let mut i: usize = v.len();
    while i > 0 && v[i - 1] != '.'
        invariant
            v@ == value@,
            i <= v@.len(),
            last_dot_before(v@, v@.len() as int) == last_dot_before(v@, i as int),
        decreases i,
    {
        i = i - 1;
    }
    if i == 0 {
        0
    } else {
        v.len() - i
    }
}

/// The number of whitespace characters between the first and the second
/// token of a line; `None` where the line has fewer than two tokens.
pub fn whitespace_between_two_values(line: &str) -> (r: Option<usize>)
    ensures
        r == (if has_key_and_value(line@) {
            Some(gap_of(line@).len() as usize)
        } else {
            None::<usize>
        }),
{
    let v = chars_of(line);
    let (_k0, k1, v0) = line_positions(&v);
    if k1 >= v.len() || v0 >= v.len() {
        None
    } else {
        Some(v0 - k1)
    }
}

/// The start of the first token, the end of the first token and the start
/// of the second token of `v`.
pub fn line_positions(v: &Vec<char>) -> (r: (usize, usize, usize))
    ensures
        r.0 == skip_white(v@, 0),
        r.1 == key_end(v@),
        r.2 == value_start(v@),
        r.0 <= r.1 <= r.2 <= v@.len(),
        has_key_and_value(v@) <==> (r.1 < v@.len() && r.2 < v@.len()),
{
    proof {
        lemma_line_positions(v@);
    }
    let k0 = skip_white_exec(v, 0);
    let k1 = token_end_exec(v, k0);
    let v0 = skip_white_exec(v, k1);
    (k0, k1, v0)
}

/// The end of the token that starts at `i`.
pub fn value_end(v: &Vec<char>, i: usize) -> (r: usize)
    requires
        i <= v@.len(),
    ensures
        r == token_end(v@, i as int),
        i <= r <= v@.len(),
{
    proof {
        lemma_token_end_bounds(v@, i as int);
    }
    token_end_exec(v, i)
}

proof fn lemma_last_dot_prefix(s: Seq<char>, t: Seq<char>, i: int)
    requires
        0 <= i <= t.len() <= s.len(),
        t == s.subrange(0, t.len() as int),
    ensures
        last_dot_before(s, i) == last_dot_before(t, i),
    decreases i,
{
    if i > 0 {
        assert(s[i - 1] == t[i - 1]);
        lemma_last_dot_prefix(s, t, i - 1);
    }
}

proof fn lemma_last_dot_shift(s: Seq<char>, i: int)
    requires
        s.len() > 0,
        s[0] != '.',
        0 <= i < s.len(),
    ensures
        last_dot_before(s, i + 1) == (if last_dot_before(s.drop_first(), i) < 0 {
            -1
        } else {
            last_dot_before(s.drop_first(), i) + 1
        }),
    decreases i,
{
    reveal_with_fuel(last_dot_before, 2);
    if i > 0 {
        assert(s[i] == s.drop_first()[i - 1]);
        lemma_last_dot_shift(s, i - 1);
    }
}

proof fn lemma_scan_precision(b: Seq<char>)
    requires
        scan(b).ok,
    ensures
        scan(b).frac <= scan(b).digits,
        scan(b).dot ==> scan(b).frac + 1 <= b.len(),
        !scan(b).dot ==> scan(b).frac == 0 && last_dot_before(b, b.len() as int) == -1,
        scan(b).dot ==> last_dot_before(b, b.len() as int) == b.len() - 1 - scan(b).frac,
    decreases b.len(),
{
    if b.len() > 0 {
        let p = b.drop_last();
        assert(scan(p).ok);
        lemma_scan_precision(p);
        lemma_last_dot_prefix(b, p, p.len() as int);
    }
}

/// The number of decimal places of a literal without exponent is the scale
/// of the number it denotes: the precision that an edit keeps.
pub proof fn lemma_precision_is_scale(s: Seq<char>)
    requires
        plain_decimal_of(s) is Some,
    ensures
        precision_spec(s) == plain_decimal_of(s)->0.scale,
{
    let b = literal_body(s);
    lemma_scan_precision(b);
    let d = last_dot_before(s, s.len() as int);
    let db = last_dot_before(b, b.len() as int);
    if has_sign(s) {
        assert(s[0] != '.');
        lemma_last_dot_shift(s, b.len() as int);
        assert(b.len() + 1 == s.len());
        assert(d == (if db < 0 { -1 } else { db + 1 }));
    } else {
        assert(b == s);
    }
    assert(scan(b).frac <= 18);
    if scan(b).dot {
        assert(precision_spec(s) == scan(b).frac);
    } else {
        assert(d == -1);
        assert(precision_spec(s) == 0);
    }
    assert(plain_decimal_of(s)->0.scale == scan(b).frac);
}

} // verus!
