//! The instruction language: operators, single instructions, and the set of
//! instructions keyed by field.
use crate::decimal::{
    aligned, aligned_exec, ceil_at, ceil_div, decimal_of, exp_index, exponent_exec, exponent_of,
    inverse_power_at, inverse_power_exec, inverse_power_fits, lemma_exp_index_bounds,
    nearest_root, power_by_bounds, root_fits, root_ok, root_terms, root_terms_exec,
    literal_body, parse_decimal, plain_decimal_of, pow10, power_at, power_exec, power_fits,
    product_at, product_exec, quotient_at, quotient_exec, render, render_exec, round_div, scan,
    small, sum_at, sum_exec, Decimal,
};
use crate::keywords::{
    alias, canonical, lemma_alias_resolves, resolve, resolve_exec, same_chars, FIELD_COUNT,
};
use crate::text::{chars_of, is_white, lemma_word_is_token, split_tokens, string_of, tokens};
use crate::utilities::{remove_uncertainty_digits, strip_uncertainty};
use rand::rngs::StdRng;
use rand::Rng;
use vstd::prelude::*;

verus! {

/// `rand::rngs::StdRng`, the generator that ranges draw from, held opaque.
#[verifier::external_type_specification]
#[verifier::external_body]
pub struct ExStdRng(StdRng);

/// Relies on `rand::Rng::gen_range`: a value of the half-open range `lo..hi`
/// (it panics on an empty range, which `requires` leaves out).
#[verifier::external_body]
fn draw_in_range(rng: &mut StdRng, lo: i128, hi: i128) -> (r: i128)
    requires
        lo < hi,
    ensures
        lo <= r < hi,
{
    rng.gen_range(lo..hi)
}

/// What an instruction does to a field's value.
#[derive(PartialEq, Eq, Structural, Debug, Clone, Copy)]
pub enum Operator {
    Add,
    Subtract,
    Multiply,
    Divide,
    Power,
    Range,
    Identity,
}

/// The operator a token names; `Identity` for any other token.
pub open spec fn operator_of(t: Seq<char>) -> Operator {
    if t == seq!['+'] {
        Operator::Add
    } else if t == seq!['-'] {
        Operator::Subtract
    } else if t == seq!['*'] {
        Operator::Multiply
    } else if t == seq!['/'] {
        Operator::Divide
    } else if t == seq!['^'] {
        Operator::Power
    } else if t == seq!['-', '-'] {
        Operator::Range
    } else {
        Operator::Identity
    }
}

impl Operator {
    /// The operator a token names: `+ - * / ^ --`; `Identity` for any other token.
    pub fn from(s: &str) -> (r: Operator)
        ensures
            r == operator_of(s@),
    {
        let v = chars_of(s);
        if v.len() == 1 {
            proof {
                assert(v@ =~= seq![v@[0]]);
            }
            let c = v[0];
            if c == '+' {
                Operator::Add
            } else if c == '-' {
                Operator::Subtract
            } else if c == '*' {
                Operator::Multiply
            } else if c == '/' {
                Operator::Divide
            } else if c == '^' {
                Operator::Power
            } else {
                Operator::Identity
            }
        } else if v.len() == 2 && v[0] == '-' && v[1] == '-' {
            proof {
                assert(v@ =~= seq!['-', '-']);
            }
            Operator::Range
        } else {
            proof {
                assert(v@.len() != 1);
                assert(v@ != seq!['-', '-'] || v@.len() != 2);
            }
            Operator::Identity
        }
    }
}

/// Why an instruction could not be applied to a value.
#[derive(PartialEq, Eq, Structural, Debug, Clone, Copy)]
pub enum ApplyError {
    /// The value is not a decimal number once its uncertainty is removed.
    Parse,
    /// The two bounds of a range are equal.
    Range,
    /// A power or root whose exact terms exceed the 128-bit integers it is
    /// computed with, and that bounds with guard digits could not settle.
    Overflow,
}

/// One parsed instruction.
#[derive(Debug, Clone)]
pub struct Instruction {
    pub keyword: String,
    pub operator: Operator,
    pub value_a: Decimal,
    pub value_b: Option<Decimal>,
}

/// The model of an instruction.
pub struct InstructionView {
    pub keyword: Seq<char>,
    pub operator: Operator,
    pub value_a: Decimal,
    pub value_b: Option<Decimal>,
}

impl View for Instruction {
    type V = InstructionView;

    open spec fn view(&self) -> InstructionView {
        InstructionView {
            keyword: self.keyword@,
            operator: self.operator,
            value_a: self.value_a,
            value_b: self.value_b,
        }
    }
}

/// The operands of an instruction are numbers that a literal can write.
pub open spec fn instruction_wf(i: InstructionView) -> bool {
    small(i.value_a) && (i.value_b matches Some(b) ==> small(b))
}

/// What has been read of an instruction line so far.
pub struct ParseState {
    pub keyword: Option<Seq<char>>,
    pub operator: Option<Operator>,
    pub value_a: Option<Decimal>,
    pub value_b: Option<Decimal>,
}

/// Reads one token: a number fills `value_a`, then `value_b`; an operator
/// replaces the operator; anything else is the keyword, aliases resolved.
pub open spec fn parse_step(st: ParseState, t: Seq<char>) -> ParseState {
    match decimal_of(t) {
        Some(d) => if st.value_a is None {
            ParseState { value_a: Some(d), ..st }
        } else {
            ParseState { value_b: Some(d), ..st }
        },
        None => if operator_of(t) != Operator::Identity {
            ParseState { operator: Some(operator_of(t)), ..st }
        } else {
            ParseState { keyword: Some(resolve(t)), ..st }
        },
    }
}

pub open spec fn parse_tokens(ts: Seq<Seq<char>>) -> ParseState
    decreases ts.len(),
{
    if ts.len() == 0 {
        ParseState { keyword: None, operator: None, value_a: None, value_b: None }
    } else {
        parse_step(parse_tokens(ts.drop_last()), ts.last())
    }
}

pub open spec fn zero() -> Decimal {
    Decimal { mantissa: 0, scale: 0 }
}

/// The instruction a line denotes; missing parts take their defaults: an
/// empty keyword, the `Identity` operator, and `0` for `value_a`.
pub open spec fn instruction_of(line: Seq<char>) -> InstructionView {
    let st = parse_tokens(tokens(line));
    InstructionView {
        keyword: match st.keyword {
            Some(k) => k,
            None => Seq::empty(),
        },
        operator: match st.operator {
            Some(o) => o,
            None => Operator::Identity,
        },
        value_a: match st.value_a {
            Some(a) => a,
            None => zero(),
        },
        value_b: st.value_b,
    }
}

/// What applying an instruction to a value comes to.
pub enum Outcome {
    Fails(ApplyError),
    /// The mantissa of the result and its number of decimal places.
    Exact(int, nat),
    /// A result drawn among the mantissas `lo..hi` at scale `s`, then
    /// rounded to `p` places: `Draw(lo, hi, s, p)`.
    Draw(int, int, nat, nat),
    /// A fractional power: the mantissa at `p` places nearest to the root
    /// that the terms describe.
    Root((nat, int, int), nat),
    /// A result that is not a finite number, written as it is.
    Text(Seq<char>),
    /// The exact mantissa at `p` places, where bounds computed with guard
    /// digits settle it; `Overflow` otherwise.
    Bounded(int, nat),
}

/// How a result that is not a finite number is written: `inf` above zero,
/// `-inf` below it, and `NaN` for zero (`0 / 0`, or a fractional power of a
/// negative number).
pub open spec fn non_finite(sign: int) -> Seq<char> {
    if sign > 0 {
        "inf"@
    } else if sign < 0 {
        "-inf"@
    } else {
        "NaN"@
    }
}

fn non_finite_exec(sign: i128) -> (r: String)
    ensures
        r@ == non_finite(sign as int),
{
    if sign > 0 {
        String::from_str("inf")
    } else if sign < 0 {
        String::from_str("-inf")
    } else {
        String::from_str("NaN")
    }
}

pub open spec fn min_int(a: int, b: int) -> int {
    if a <= b {
        a
    } else {
        b
    }
}

pub open spec fn max_int(a: int, b: int) -> int {
    if a >= b {
        a
    } else {
        b
    }
}

/// The outcome of applying `ins` to the textual value `value`: the
/// uncertainty is removed, the number is read, the operator is applied, and
/// the result keeps the value's number of decimal places.
pub open spec fn outcome(ins: InstructionView, value: Seq<char>) -> Outcome {
    match decimal_of(strip_uncertainty(value)) {
        None => Outcome::Fails(ApplyError::Parse),
        Some(x) => {
            let p = x.scale as nat;
            let a = ins.value_a;
            match ins.operator {
                Operator::Add => Outcome::Exact(sum_at(x, a, false), p),
                Operator::Subtract => Outcome::Exact(sum_at(x, a, true), p),
                Operator::Multiply => Outcome::Exact(product_at(x, a), p),
                Operator::Divide => if a.mantissa == 0 {
                    Outcome::Text(non_finite(x.mantissa as int))
                } else {
                    Outcome::Exact(quotient_at(x, a), p)
                },
                Operator::Power => match exponent_of(a) {
                    None => if x.mantissa < 0 {
                        Outcome::Text(non_finite(0))
                    } else if x.mantissa == 0 {
                        if a.mantissa > 0 {
                            Outcome::Exact(0, p)
                        } else {
                            Outcome::Text(non_finite(1))
                        }
                    } else if root_fits(root_terms(x, a)) {
                        Outcome::Root(root_terms(x, a), p)
                    } else {
                        Outcome::Fails(ApplyError::Overflow)
                    },
                    Some(k) => if k >= 0 {
                        if power_fits(x, k as nat) {
                            Outcome::Exact(power_at(x, k as nat), p)
                        } else if x.mantissa > 0 {
                            Outcome::Bounded(power_at(x, k as nat), p)
                        } else {
                            Outcome::Fails(ApplyError::Overflow)
                        }
                    } else if x.mantissa == 0 {
                        Outcome::Text(non_finite(1))
                    } else if inverse_power_fits(x, (-k) as nat) {
                        Outcome::Exact(inverse_power_at(x, (-k) as nat), p)
                    } else {
                        Outcome::Fails(ApplyError::Overflow)
                    },
                },
                Operator::Range => {
                    let other = match ins.value_b {
                        Some(b) => b,
                        None => x,
                    };
                    let s = range_scale(p, a, other);
                    let l = aligned(a, s);
                    let h = aligned(other, s);
                    if l == h {
                        Outcome::Fails(ApplyError::Range)
                    } else {
                        Outcome::Draw(min_int(l, h), max_int(l, h), s, p)
                    }
                },
                Operator::Identity => Outcome::Exact(x.mantissa as int, p),
            }
        },
    }
}

/// Whether `r` is a possible result of applying `ins` to `value`.
pub open spec fn admits(ins: InstructionView, value: Seq<char>, r: Result<Seq<char>, ApplyError>) -> bool {
    match outcome(ins, value) {
        Outcome::Fails(e) => r == Err::<Seq<char>, ApplyError>(e),
        Outcome::Exact(m, p) => r == Ok::<Seq<char>, ApplyError>(render(m, p)),
        Outcome::Draw(lo, hi, s, p) => drawn(lo, hi, s, p, r),
        Outcome::Root(t, p) => rooted(t, p, r),
        Outcome::Text(t) => r == Ok::<Seq<char>, ApplyError>(t),
        Outcome::Bounded(m, p) => r == Ok::<Seq<char>, ApplyError>(render(m, p)) || r == Err::<
            Seq<char>,
            ApplyError,
        >(ApplyError::Overflow),
    }
}

/// Whether `r` is the mantissa nearest to the root that `t` describes,
/// written with `p` places.
pub open spec fn rooted(t: (nat, int, int), p: nat, r: Result<Seq<char>, ApplyError>) -> bool {
    exists|k: int|
        k >= 0 && root_ok(k, t) && !root_ok(k + 1, t) && r == Ok::<Seq<char>, ApplyError>(
            #[trigger] render(k, p),
        )
}

/// Whether `r` is some mantissa of `lo..hi` at scale `s`, rounded to and
/// written with `p <= s` places.
pub open spec fn drawn(lo: int, hi: int, s: nat, p: nat, r: Result<Seq<char>, ApplyError>) -> bool {
    exists|k: int|
        lo <= k < hi && r == Ok::<Seq<char>, ApplyError>(
            render(#[trigger] round_div(k, pow10((s - p) as nat)), p),
        )
}

/// The scale at which a range is drawn: the finest of the value's places
/// and the bounds' places.
pub open spec fn range_scale(p: nat, a: Decimal, b: Decimal) -> nat {
    let t = if a.scale >= b.scale {
        a.scale as nat
    } else {
        b.scale as nat
    };
    if p >= t {
        p
    } else {
        t
    }
}

pub open spec fn result_view(r: Result<String, ApplyError>) -> Result<Seq<char>, ApplyError> {
    match r {
        Ok(s) => Ok(s@),
        Err(e) => Err(e),
    }
}

impl Instruction {
    pub open spec fn wf(&self) -> bool {
        instruction_wf(self@)
    }

    /// Parses one instruction line; never fails. A token is a number only
    /// where `parse_decimal` reads it: one of more than 18 digits is taken as
    /// a keyword.
    pub fn from(s: &str) -> (r: Instruction)
        ensures
            r@ == instruction_of(s@),
            r.wf(),
    {
        let ts = split_tokens(s);
        let ghost tv = tokens(s@);
        let mut keyword: Option<String> = None;
        let mut operator: Option<Operator> = None;
        let mut value_a: Option<Decimal> = None;
        let mut value_b: Option<Decimal> = None;
        let mut i: usize = 0;
        while i < ts.len()
            invariant
                ts@.len() == tv.len(),
                forall|j: int| 0 <= j < ts@.len() ==> #[trigger] ts@[j]@ == tv[j],
                i <= ts@.len(),
                ({
                    let st = parse_tokens(tv.subrange(0, i as int));
                    &&& st.keyword == (match keyword {
                        Some(k) => Some(k@),
                        None => None::<Seq<char>>,
                    })
                    &&& st.operator == operator
                    &&& st.value_a == value_a
                    &&& st.value_b == value_b
                }),
                value_a matches Some(a) ==> small(a),
                value_b matches Some(b) ==> small(b),
            decreases ts@.len() - i,
        {
            let t = &ts[i];
            proof {
                assert(tv.subrange(0, i + 1).drop_last() =~= tv.subrange(0, i as int));
                assert(tv.subrange(0, i + 1).last() == t@);
            }
            match parse_decimal(t.as_str()) {
                Some(d) => {
                    if value_a.is_none() {
                        value_a = Some(d);
                    } else {
                        value_b = Some(d);
                    }
                },
                None => {
                    let op = Operator::from(t.as_str());
                    if op != Operator::Identity {
                        operator = Some(op);
                    } else {
                        keyword = Some(resolve_exec(t.as_str()));
                    }
                },
            }
            i = i + 1;
        }
        proof {
            assert(tv.subrange(0, ts@.len() as int) =~= tv);
            assert(small(zero())) by {
                crate::decimal::lemma_pow10_positive(18);
            }
        }
        Instruction {
            keyword: match keyword {
                Some(k) => k,
                None => String::new(),
            },
            operator: match operator {
                Some(o) => o,
                None => Operator::Identity,
            },
            value_a: match value_a {
                Some(a) => a,
                None => Decimal { mantissa: 0, scale: 0 },
            },
            value_b,
        }
    }

    /// Applies the instruction to the textual value of a field.
    pub fn apply(&self, cif_value: String, rng: &mut StdRng) -> (r: Result<String, ApplyError>)
        requires
            self.wf(),
        ensures
            admits(self@, cif_value@, result_view(r)),
            !(outcome(self@, cif_value@) is Draw) ==> *final(rng) == *old(rng),
    {
        let stripped = remove_uncertainty_digits(cif_value.as_str());
        let x = match parse_decimal(stripped.as_str()) {
            Some(x) => x,
            None => {
                return Err(ApplyError::Parse);
            },
        };
        let p = x.scale;
        let a = self.value_a;
        proof {
            crate::decimal::lemma_pow10_values();
        }
        let m: i128 = match self.operator {
            Operator::Add => sum_exec(x, a, false),
            Operator::Subtract => sum_exec(x, a, true),
            Operator::Multiply => product_exec(x, a),
            Operator::Divide => {
                if a.mantissa == 0 {
                    return Ok(non_finite_exec(x.mantissa));
                }
                quotient_exec(x, a)
            },
            Operator::Power => {
                match exponent_exec(a) {
                    None => {
                        if x.mantissa < 0 {
                            return Ok(non_finite_exec(0));
                        }
                        if x.mantissa == 0 {
                            if a.mantissa > 0 {
                                return Ok(render_exec(0, p));
                            }
                            return Ok(non_finite_exec(1));
                        }
                        match root_terms_exec(x, a) {
                            None => {
                                return Err(ApplyError::Overflow);
                            },
                            Some((d, l, rr)) => {
                                let k = nearest_root(d, l, rr);
                                let out = render_exec(k, p);
                                proof {
                                    assert(rooted(root_terms(x, a), p as nat, result_view(Ok(out))))
                                        by {
                                        assert(render(k as int, p as nat) == out@);
                                    }
                                }
                                return Ok(out);
                            },
                        }
                    },
                    Some((false, k)) => match power_exec(x, k) {
                        None => {
                            if x.mantissa > 0 && k >= 1 {
                                match power_by_bounds(x, k) {
                                    None => {
                                        return Err(ApplyError::Overflow);
                                    },
                                    Some(v) => v,
                                }
                            } else {
                                return Err(ApplyError::Overflow);
                            }
                        },
                        Some(v) => v,
                    },
                    Some((true, k)) => {
                        if x.mantissa == 0 {
                            return Ok(non_finite_exec(1));
                        }
                        match inverse_power_exec(x, k) {
                            None => {
                                return Err(ApplyError::Overflow);
                            },
                            Some(v) => v,
                        }
                    },
                }
            },
            Operator::Range => {
                let other = match self.value_b {
                    Some(b) => b,
                    None => x,
                };
                let t = if a.scale >= other.scale {
                    a.scale
                } else {
                    other.scale
                };
                let sc = if p >= t {
                    p
                } else {
                    t
                };
                let l = aligned_exec(a, sc);
                let h = aligned_exec(other, sc);
                if l == h {
                    return Err(ApplyError::Range);
                }
                let (lo, hi) = if l < h {
                    (l, h)
                } else {
                    (h, l)
                };
                let k = draw_in_range(rng, lo, hi);
                let d = crate::decimal::pow10_exec(sc - p);
                proof {
                    crate::decimal::lemma_pow10_le((sc - p) as nat, 18);
                    crate::decimal::lemma_pow10_positive((sc - p) as nat);
                }
                let m = crate::decimal::round_div_exec(k, d);
                let out = render_exec(m, p);
                proof {
                    assert(outcome(self@, cif_value@) == Outcome::Draw(
                        lo as int,
                        hi as int,
                        sc as nat,
                        p as nat,
                    ));
                    assert(drawn(lo as int, hi as int, sc as nat, p as nat, result_view(Ok(out))))
                        by {
                        assert(round_div(k as int, pow10((sc - p) as nat)) == m);
                    }
                }
                return Ok(out);
            },
            Operator::Identity => x.mantissa,
        };
        Ok(render_exec(m, p))
    }
}

/// A delimiter between instructions: a line break, and where `all` holds
/// also `;` and `,`.
pub open spec fn is_delimiter(c: char, all: bool) -> bool {
    c == '\n' || (all && (c == ';' || c == ','))
}

/// The first delimiter at or after `i` (or the length).
pub open spec fn line_end(s: Seq<char>, i: int, all: bool) -> int
    decreases s.len() - i,
{
    if i < 0 || i >= s.len() {
        s.len() as int
    } else if is_delimiter(s[i], all) {
        i
    } else {
        line_end(s, i + 1, all)
    }
}

/// The instructions of the non-empty lines of `s` from index `i` on.
pub open spec fn parsed_from(s: Seq<char>, i: int, all: bool) -> Seq<InstructionView>
    decreases s.len() - i + 1,
{
    if i < 0 || i > s.len() {
        Seq::empty()
    } else {
        let k = line_end(s, i, all);
        let rest = if i <= k < s.len() {
            parsed_from(s, k + 1, all)
        } else {
            Seq::empty()
        };
        if i < k <= s.len() {
            seq![instruction_of(s.subrange(i, k))] + rest
        } else {
            rest
        }
    }
}

proof fn lemma_line_end_bounds(s: Seq<char>, i: int, all: bool)
    requires
        0 <= i <= s.len(),
    ensures
        i <= line_end(s, i, all) <= s.len(),
    decreases s.len() - i,
{
    if i < s.len() && !is_delimiter(s[i], all) {
        lemma_line_end_bounds(s, i + 1, all);
    }
}

fn line_end_exec(v: &Vec<char>, i: usize, all: bool) -> (r: usize)
    requires
        i <= v@.len(),
    ensures
        r == line_end(v@, i as int, all),
        i <= r <= v@.len(),
{
    proof {
        lemma_line_end_bounds(v@, i as int, all);
    }
    let mut j = i;
    while j < v.len() && !(v[j] == '\n' || (all && (v[j] == ';' || v[j] == ',')))
        invariant
            i <= j <= v@.len(),
            line_end(v@, i as int, all) == line_end(v@, j as int, all),
        decreases v@.len() - j,
    {
        j = j + 1;
    }
    j
}

/// The instructions of a block of text, grouped by the field they edit.
#[derive(Debug, Clone)]
pub struct Instructions {
    items: Vec<Instruction>,
}

pub open spec fn views(v: Seq<Instruction>) -> Seq<InstructionView> {
    v.map_values(|i: Instruction| i@)
}

/// Whether some instruction edits the field `k`.
pub open spec fn registered(ins: Seq<InstructionView>, k: Seq<char>) -> bool {
    exists|j: int| 0 <= j < ins.len() && (#[trigger] ins[j]).keyword == k
}

pub open spec fn step_admits(
    ins: InstructionView,
    before: Result<Seq<char>, ApplyError>,
    after: Result<Seq<char>, ApplyError>,
) -> bool {
    match before {
        Ok(w) => admits(ins, w, after),
        Err(e) => after == Err::<Seq<char>, ApplyError>(e),
    }
}

/// Whether `path` records the values through which applying, in order, the
/// instructions of `ins` that edit field `k` goes, starting from `v`: an
/// instruction for another field leaves the value as it is, and an error
/// stays.
pub open spec fn chain_path(
    ins: Seq<InstructionView>,
    k: Seq<char>,
    v: Seq<char>,
    path: Seq<Result<Seq<char>, ApplyError>>,
) -> bool {
    &&& path.len() == ins.len() + 1
    &&& path[0] == Ok::<Seq<char>, ApplyError>(v)
    &&& forall|j: int|
        0 <= j < ins.len() ==> if (#[trigger] ins[j]).keyword == k {
            step_admits(ins[j], path[j], path[j + 1])
        } else {
            path[j + 1] == path[j]
        }
}

/// Whether `r` is a possible result of applying, in order, the instructions
/// of `ins` that edit field `k`, starting from `v`; the first error stops the
/// chain.
pub open spec fn chain(
    ins: Seq<InstructionView>,
    k: Seq<char>,
    v: Seq<char>,
    r: Result<Seq<char>, ApplyError>,
) -> bool {
    exists|path: Seq<Result<Seq<char>, ApplyError>>|
        #[trigger] chain_path(ins, k, v, path) && path.last() == r
}

impl View for Instructions {
    type V = Seq<InstructionView>;

    closed spec fn view(&self) -> Seq<InstructionView> {
        views(self.items@)
    }
}

impl Instructions {
    pub open spec fn wf(&self) -> bool {
        forall|j: int| 0 <= j < self@.len() ==> instruction_wf(#[trigger] self@[j])
    }

    fn parse_block(s: &str, all: bool) -> (r: Instructions)
        ensures
            r@ == parsed_from(s@, 0, all),
            r.wf(),
    {
        let v = chars_of(s);
        let n = v.len();
        let mut items: Vec<Instruction> = Vec::new();
        let mut i: usize = 0;
        while i < n
            invariant
                v@ == s@,
                n == v@.len(),
                i <= n,
                parsed_from(s@, 0, all) == views(items@) + parsed_from(s@, i as int, all),
                forall|j: int| 0 <= j < items@.len() ==> (#[trigger] items@[j]).wf(),
            decreases n - i,
        {
            let k = line_end_exec(&v, i, all);
            let ghost rest = if k < n {
                parsed_from(s@, k + 1, all)
            } else {
                Seq::<InstructionView>::empty()
            };
            if k > i {
                let line = string_of(&v, i, k);
                let ins = Instruction::from(line.as_str());
                proof {
                    assert(views(items@.push(ins)) =~= views(items@).push(ins@));
                    assert(views(items@).push(ins@) + rest =~= views(items@) + (seq![ins@] + rest));
                }
                items.push(ins);
            }
            i = if k < n {
                k + 1
            } else {
                n
            };
            proof {
                if k >= n {
                    assert(parsed_from(s@, n as int, all) =~= Seq::<InstructionView>::empty());
                }
            }
        }
        proof {
            assert(parsed_from(s@, n as int, all) =~= Seq::<InstructionView>::empty());
            assert(views(items@) + Seq::<InstructionView>::empty() =~= views(items@));
        }
        Instructions { items }
    }

    /// Parses a block of instructions, one per line; empty lines are skipped.
    pub fn from(s: &str) -> (r: Instructions)
        ensures
            r@ == parsed_from(s@, 0, false),
            r.wf(),
    {
        Instructions::parse_block(s, false)
    }

    /// Parses a block of instructions separated by line breaks, `;` or `,`.
    pub fn from_string(s: &str) -> (r: Instructions)
        ensures
            r@ == parsed_from(s@, 0, true),
            r.wf(),
    {
        Instructions::parse_block(s, true)
    }

    /// Applies, in order, every instruction for field `keyword` to `value`.
    /// `Ok(None)` where no instruction edits that field; the first error
    /// stops the chain.
    pub fn apply(&self, keyword: &str, value: String, rng: &mut StdRng) -> (r: Result<
        Option<String>,
        ApplyError,
    >)
        requires
            self.wf(),
        ensures
            !registered(self@, keyword@) ==> r == Ok::<Option<String>, ApplyError>(None),
            registered(self@, keyword@) ==> match r {
                Ok(Some(s)) => chain(self@, keyword@, value@, Ok(s@)),
                Ok(None) => false,
                Err(e) => chain(self@, keyword@, value@, Err(e)),
            },
    {
        let ghost all = self@;
        let ghost mut path: Seq<Result<Seq<char>, ApplyError>> = seq![Ok(value@)];
        let mut found = false;
        let mut current = value;
        let mut i: usize = 0;
        while i < self.items.len()
            invariant
                self.wf(),
                all == self@,
                i <= all.len(),
                found == registered(all.subrange(0, i as int), keyword@),
                path.len() == i + 1,
                path[0] == Ok::<Seq<char>, ApplyError>(value@),
                path[i as int] == Ok::<Seq<char>, ApplyError>(current@),
                forall|j: int|
                    0 <= j < i ==> if (#[trigger] all[j]).keyword == keyword@ {
                        step_admits(all[j], path[j], path[j + 1])
                    } else {
                        path[j + 1] == path[j]
                    },
            decreases all.len() - i,
        {
            let ins = &self.items[i];
            let ghost pre = all.subrange(0, i as int);
            let ghost next = all.subrange(0, i + 1);
            proof {
                assert(self@[i as int] == ins@);
            }
            if same_chars(ins.keyword.as_str(), keyword) {
                match ins.apply(current, rng) {
                    Ok(w) => {
                        proof {
                            path = path.push(Ok(w@));
                        }
                        current = w;
                    },
                    Err(e) => {
                        proof {
                            let full = path.push(Err(e)) + Seq::new(
                                (all.len() - i - 1) as nat,
                                |j: int| Err::<Seq<char>, ApplyError>(e),
                            );
                            assert forall|j: int|
                                0 <= j < all.len() implies if (#[trigger] all[j]).keyword
                                == keyword@ {
                                step_admits(all[j], full[j], full[j + 1])
                            } else {
                                full[j + 1] == full[j]
                            } by {
                                if j < i {
                                    assert(full[j] == path[j] && full[j + 1] == path[j + 1]);
                                }
                            }
                            assert(chain_path(all, keyword@, value@, full));
                            assert(registered(all, keyword@)) by {
                                assert(all[i as int].keyword == keyword@);
                            }
                        }
                        return Err(e);
                    },
                }
                found = true;
                proof {
                    assert(registered(next, keyword@)) by {
                        assert(next[i as int].keyword == keyword@);
                    }
                }
            } else {
                proof {
                    path = path.push(Ok(current@));
                    if registered(next, keyword@) {
                        let j = choose|j: int| 0 <= j < next.len() && (#[trigger] next[j]).keyword == keyword@;
                        assert(j != i);
                        assert(pre[j] == next[j]);
                    }
                    if found {
                        let j = choose|j: int| 0 <= j < pre.len() && (#[trigger] pre[j]).keyword == keyword@;
                        assert(next[j] == pre[j]);
                    }
                }
            }
            i = i + 1;
        }
        proof {
            assert(all.subrange(0, all.len() as int) =~= all);
            assert(chain_path(all, keyword@, value@, path));
        }
        if found {
            Ok(Some(current))
        } else {
            Ok(None)
        }
    }
}

/// A range whose two bounds are the same number fails, whatever the value.
pub proof fn lemma_range_equal_bounds_fails(
    ins: InstructionView,
    value: Seq<char>,
    r: Result<Seq<char>, ApplyError>,
)
    requires
        ins.operator == Operator::Range,
        ins.value_b == Some(ins.value_a),
        decimal_of(strip_uncertainty(value)) is Some,
        admits(ins, value, r),
    ensures
        r == Err::<Seq<char>, ApplyError>(ApplyError::Range),
{
}

/// The identity operator keeps the value: the same mantissa, written with
/// the same number of decimal places.
pub proof fn lemma_identity_keeps_value(
    ins: InstructionView,
    value: Seq<char>,
    r: Result<Seq<char>, ApplyError>,
)
    requires
        ins.operator == Operator::Identity,
        admits(ins, value, r),
    ensures
        match decimal_of(strip_uncertainty(value)) {
            Some(x) => r == Ok::<Seq<char>, ApplyError>(
                render(x.mantissa as int, x.scale as nat),
            ),
            None => r == Err::<Seq<char>, ApplyError>(ApplyError::Parse),
        },
{
}

/// `d <= k / 10^p`.
pub open spec fn at_most(d: Decimal, k: int, p: nat) -> bool {
    d.mantissa * pow10(p) <= k * pow10(d.scale as nat)
}

/// `k / 10^p < d`.
pub open spec fn below(k: int, p: nat, d: Decimal) -> bool {
    k * pow10(d.scale as nat) < d.mantissa * pow10(p)
}

proof fn lemma_ceil_div(n: int, d: int)
    requires
        d > 0,
    ensures
        ceil_div(n, d) * d >= n,
        (ceil_div(n, d) - 1) * d < n,
{
    if n >= 0 {
        let t = n + d - 1;
        vstd::arithmetic::div_mod::lemma_fundamental_div_mod(t, d);
        vstd::arithmetic::div_mod::lemma_mod_pos_bound(t, d);
        let q = t / d;
        assert(q * d == d * q) by (nonlinear_arith);
        assert((q - 1) * d == q * d - d) by (nonlinear_arith);
    } else {
        let t = -n;
        vstd::arithmetic::div_mod::lemma_fundamental_div_mod(t, d);
        vstd::arithmetic::div_mod::lemma_mod_pos_bound(t, d);
        let q = t / d;
        assert((-q) * d == -(d * q)) by (nonlinear_arith);
        assert((-q - 1) * d == -(d * q) - d) by (nonlinear_arith);
    }
}

/// The steps `10^-p` from `ceil_at(d, p)` on are the ones at or above `d`.
proof fn lemma_ceil_at(d: Decimal, p: nat, k: int)
    ensures
        k >= ceil_at(d, p) ==> at_most(d, k, p),
        k < ceil_at(d, p) ==> below(k, p, d),
{
    let m = d.mantissa as int;
    let s = d.scale as nat;
    crate::decimal::lemma_pow10_positive(s);
    crate::decimal::lemma_pow10_positive(p);
    if p >= s {
        let e = (p - s) as nat;
        crate::decimal::lemma_pow10_add(e, s);
        let c = m * pow10(e);
        assert(m * pow10(p) == c * pow10(s)) by (nonlinear_arith)
            requires
                pow10(p) == pow10(e) * pow10(s),
                c == m * pow10(e),
        ;
        if k >= c {
            vstd::arithmetic::mul::lemma_mul_inequality(c, k, pow10(s));
        } else {
            vstd::arithmetic::mul::lemma_mul_strict_inequality(k, c, pow10(s));
        }
    } else {
        let e = (s - p) as nat;
        crate::decimal::lemma_pow10_add(e, p);
        crate::decimal::lemma_pow10_positive(e);
        let big = pow10(e);
        let c = ceil_div(m, big);
        lemma_ceil_div(m, big);
        assert(k * pow10(s) == (k * big) * pow10(p)) by (nonlinear_arith)
            requires
                pow10(s) == big * pow10(p),
        ;
        if k >= c {
            vstd::arithmetic::mul::lemma_mul_inequality(c, k, big);
            vstd::arithmetic::mul::lemma_mul_inequality(m, k * big, pow10(p));
        } else {
            vstd::arithmetic::mul::lemma_mul_inequality(k, c - 1, big);
            vstd::arithmetic::mul::lemma_mul_strict_inequality(k * big, m, pow10(p));
        }
    }
}

proof fn lemma_round_div_one(k: int)
    ensures
        round_div(k, 1) == k,
{
    let n = if k < 0 {
        -k
    } else {
        k
    };
    assert((2 * n + 1) / 2 == n) by (nonlinear_arith)
        requires
            n >= 0,
    ;
}

/// A range draws a value between its bounds: at or above the lower one and
/// below the upper one. The bounds are `value_a` and `value_b`, or `value_a`
/// and the current value where `value_b` is absent. This holds where the
/// bounds have no more decimal places than the value, so that no rounding
/// follows the draw.
pub proof fn lemma_range_result_within_bounds(
    ins: InstructionView,
    value: Seq<char>,
    r: Result<Seq<char>, ApplyError>,
)
    requires
        ins.operator == Operator::Range,
        admits(ins, value, r),
        r is Ok,
        decimal_of(strip_uncertainty(value)) matches Some(x) && ins.value_a.scale <= x.scale
            && (ins.value_b matches Some(b) ==> b.scale <= x.scale),
    ensures
        decimal_of(strip_uncertainty(value)) matches Some(x) && ({
            let p = x.scale as nat;
            let other = match ins.value_b {
                Some(b) => b,
                None => x,
            };
            exists|k: int|
                r == Ok::<Seq<char>, ApplyError>(#[trigger] render(k, p)) && (at_most(
                    ins.value_a,
                    k,
                    p,
                ) || at_most(other, k, p)) && (below(k, p, ins.value_a) || below(k, p, other))
        }),
{
    let x = decimal_of(strip_uncertainty(value))->0;
    let p = x.scale as nat;
    let other = match ins.value_b {
        Some(b) => b,
        None => x,
    };
    assert(range_scale(p, ins.value_a, other) == p);
    let l = aligned(ins.value_a, p);
    let h = aligned(other, p);
    assert(pow10(0) == 1);
    let k = choose|k: int|
        min_int(l, h) <= k < max_int(l, h) && r == Ok::<Seq<char>, ApplyError>(
            render(#[trigger] round_div(k, pow10((p - p) as nat)), p),
        );
    lemma_round_div_one(k);
    lemma_ceil_at(ins.value_a, p, k);
    lemma_ceil_at(other, p, k);
    assert(r == Ok::<Seq<char>, ApplyError>(render(k, p)));
}

/// A field name or alias is neither a number nor an operator.
proof fn lemma_field_word(t: Seq<char>)
    requires
        t.len() > 1 || t == seq!['a'] || t == seq!['b'] || t == seq!['c'],
        forall|j: int| 0 <= j < t.len() ==> ('a' <= #[trigger] t[j] <= 'z' || t[j] == '_'),
    ensures
        decimal_of(t) is None,
        operator_of(t) == Operator::Identity,
        t.len() > 0,
        forall|j: int| 0 <= j < t.len() ==> !is_white(#[trigger] t[j]),
{
    assert forall|j: int| 0 <= j < t.len() implies !is_white(#[trigger] t[j]) by {
        assert('a' <= t[j] <= 'z' || t[j] == '_');
    }
    lemma_exp_index_bounds(t, 0);
    let i = exp_index(t, 0);
    let m = if i >= t.len() {
        t
    } else {
        t.subrange(0, i)
    };
    assert(literal_body(m) == m);
    if m.len() > 0 {
        assert(m.last() == m[m.len() - 1]);
        assert(!scan(m).ok);
    } else {
        assert(scan(m).digits == 0);
    }
    assert(plain_decimal_of(m) is None);
    if t.len() == 1 {
        assert(t != seq!['+'] && t != seq!['-'] && t != seq!['*'] && t != seq!['/'] && t
            != seq!['^']) by {
            assert(seq!['+'][0] == '+');
            assert(seq!['-'][0] == '-');
            assert(seq!['*'][0] == '*');
            assert(seq!['/'][0] == '/');
            assert(seq!['^'][0] == '^');
        }
    } else {
        assert(t != seq!['-', '-']) by {
            if t.len() == 2 {
                assert(seq!['-', '-'][1] == '-');
            }
        }
    }
}

proof fn lemma_field_words(i: int)
    requires
        0 <= i < FIELD_COUNT,
    ensures
        decimal_of(alias(i)) is None,
        operator_of(alias(i)) == Operator::Identity,
        decimal_of(canonical(i)) is None,
        operator_of(canonical(i)) == Operator::Identity,
        alias(i).len() > 0,
        canonical(i).len() > 0,
        forall|j: int| 0 <= j < alias(i).len() ==> !is_white(#[trigger] alias(i)[j]),
        forall|j: int| 0 <= j < canonical(i).len() ==> !is_white(#[trigger] canonical(i)[j]),
{
    reveal_strlit("a");
    reveal_strlit("b");
    reveal_strlit("c");
    reveal_strlit("alpha");
    reveal_strlit("beta");
    reveal_strlit("gamma");
    reveal_strlit("volume");
    reveal_strlit("_cell_length_a");
    reveal_strlit("_cell_length_b");
    reveal_strlit("_cell_length_c");
    reveal_strlit("_cell_angle_alpha");
    reveal_strlit("_cell_angle_beta");
    reveal_strlit("_cell_angle_gamma");
    reveal_strlit("_cell_volume");
    if i == 0 {
        assert(alias(i) =~= seq!['a']);
    } else if i == 1 {
        assert(alias(i) =~= seq!['b']);
    } else if i == 2 {
        assert(alias(i) =~= seq!['c']);
    }
    lemma_field_word(alias(i));
    lemma_field_word(canonical(i));
}

/// Writing a field's short alias in place of its canonical name, at any of
/// the tokens of an instruction, gives the same instruction.
pub proof fn lemma_alias_parses_like_name(ts: Seq<Seq<char>>, us: Seq<Seq<char>>, i: int)
    requires
        0 <= i < FIELD_COUNT,
        ts.len() == us.len(),
        forall|j: int|
            0 <= j < ts.len() ==> #[trigger] us[j] == ts[j] || (ts[j] == alias(i) && us[j]
                == canonical(i)),
    ensures
        parse_tokens(ts) == parse_tokens(us),
    decreases ts.len(),
{
    if ts.len() > 0 {
        let n = ts.len() - 1;
        assert(us[n] == us.last());
        lemma_alias_parses_like_name(ts.drop_last(), us.drop_last(), i);
        if ts.last() != us.last() {
            lemma_field_words(i);
            lemma_alias_resolves(i);
        }
    }
}

/// An instruction line that starts with a field's short alias parses as
/// the same line with the canonical name in its place.
pub proof fn lemma_alias_line_parses_like_name(i: int, rest: Seq<char>)
    requires
        0 <= i < FIELD_COUNT,
    ensures
        instruction_of(alias(i) + seq![' '] + rest) == instruction_of(canonical(i) + seq![' '] + rest),
        instruction_of(alias(i) + seq![' '] + rest).keyword == canonical(i) || parse_tokens(
            tokens(rest),
        ).keyword is Some,
{
    lemma_field_words(i);
    lemma_alias_resolves(i);
    lemma_word_is_token(alias(i), rest);
    lemma_word_is_token(canonical(i), rest);
    let ts = seq![alias(i)] + tokens(rest);
    let us = seq![canonical(i)] + tokens(rest);
    lemma_alias_parses_like_name(ts, us, i);
    lemma_parse_first_keyword(i, tokens(rest));
}

/// With the canonical name as first token, the keyword is that name unless
/// a later token names another.
proof fn lemma_parse_first_keyword(i: int, rest: Seq<Seq<char>>)
    requires
        0 <= i < FIELD_COUNT,
    ensures
        parse_tokens(seq![canonical(i)] + rest).keyword == Some(canonical(i)) || parse_tokens(
            rest,
        ).keyword is Some,
    decreases rest.len(),
{
    lemma_field_words(i);
    lemma_alias_resolves(i);
    if rest.len() == 0 {
        assert((seq![canonical(i)] + rest).drop_last() =~= Seq::<Seq<char>>::empty());
        assert((seq![canonical(i)] + rest).last() == canonical(i));
    } else {
        let all = seq![canonical(i)] + rest;
        assert(all.drop_last() =~= seq![canonical(i)] + rest.drop_last());
        assert(all.last() == rest.last());
        lemma_parse_first_keyword(i, rest.drop_last());
        lemma_keyword_stays(rest);
    }
}

/// Once a keyword is read, it stays read.
proof fn lemma_keyword_stays(ts: Seq<Seq<char>>)
    requires
        ts.len() > 0,
    ensures
        parse_tokens(ts.drop_last()).keyword is Some ==> parse_tokens(ts).keyword is Some,
{
}

} // verus!
