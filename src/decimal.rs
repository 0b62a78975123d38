//! Exact decimal numbers: parsing of literals, arithmetic rounded to a
//! number of decimal places, and rendering.
use crate::text::{chars_of, string_of};
use vstd::prelude::*;

verus! {

/// The most digits a literal may have.
pub const MAX_DIGITS: usize = 18;

/// A decimal number `mantissa / 10^scale`.
#[derive(Clone, Copy, Debug, PartialEq, Eq)]
pub struct Decimal {
    pub mantissa: i128,
    pub scale: u32,
}

pub open spec fn pow10(n: nat) -> int
    decreases n,
{
    if n == 0 {
        1
    } else {
        10 * pow10((n - 1) as nat)
    }
}

pub open spec fn pow_int(b: int, n: nat) -> int
    decreases n,
{
    if n == 0 {
        1
    } else {
        b * pow_int(b, (n - 1) as nat)
    }
}

pub open spec fn abs(n: int) -> int {
    if n < 0 {
        -n
    } else {
        n
    }
}

/// `n / d` rounded to the nearest integer, halves away from zero.
pub open spec fn round_div(n: int, d: int) -> int {
    let q = (2 * abs(n) + abs(d)) / (2 * abs(d));
    if (n < 0) != (d < 0) {
        -q
    } else {
        q
    }
}

/// `n / d` rounded up, for `d > 0`.
pub open spec fn ceil_div(n: int, d: int) -> int {
    if n >= 0 {
        (n + d - 1) / d
    } else {
        -((-n) / d)
    }
}

pub open spec fn is_digit(c: char) -> bool {
    '0' <= c && c <= '9'
}

pub open spec fn digit_value(c: char) -> int {
    c as int - '0' as int
}

/// The state of a left-to-right reading of the body of a literal.
pub struct Scan {
    pub ok: bool,
    pub value: int,
    pub digits: nat,
    pub dot: bool,
    pub frac: nat,
}

/// Reads digits and at most one decimal point; `ok` is false after any other character.
pub open spec fn scan(s: Seq<char>) -> Scan
    decreases s.len(),
{
    if s.len() == 0 {
        Scan { ok: true, value: 0, digits: 0, dot: false, frac: 0 }
    } else {
        let p = scan(s.drop_last());
        let c = s.last();
        if is_digit(c) {
            Scan {
                ok: p.ok,
                value: p.value * 10 + digit_value(c),
                digits: p.digits + 1,
                dot: p.dot,
                frac: if p.dot { p.frac + 1 } else { p.frac },
            }
        } else if c == '.' && !p.dot {
            Scan { dot: true, ..p }
        } else {
            Scan { ok: false, ..p }
        }
    }
}

pub open spec fn has_sign(s: Seq<char>) -> bool {
    s.len() > 0 && (s[0] == '-' || s[0] == '+')
}

pub open spec fn literal_body(s: Seq<char>) -> Seq<char> {
    if has_sign(s) {
        s.drop_first()
    } else {
        s
    }
}

/// The number a plain decimal literal denotes: an optional sign, then digits
/// with at most one decimal point, at least one and at most `MAX_DIGITS` digits.
pub open spec fn plain_decimal_of(s: Seq<char>) -> Option<Decimal> {
    let b = scan(literal_body(s));
    if b.ok && 1 <= b.digits <= MAX_DIGITS {
        Some(
            Decimal {
                mantissa: (if s[0] == '-' { -b.value } else { b.value }) as i128,
                scale: b.frac as u32,
            },
        )
    } else {
        None
    }
}

/// What a parsed literal satisfies.
pub open spec fn small(d: Decimal) -> bool {
    abs(d.mantissa as int) < pow10(18) && d.scale <= 18
}

pub proof fn lemma_pow10_positive(n: nat)
    ensures
        pow10(n) >= 1,
    decreases n,
{
    if n > 0 {
        lemma_pow10_positive((n - 1) as nat);
    }
}

pub proof fn lemma_pow10_le(i: nat, j: nat)
    requires
        i <= j,
    ensures
        pow10(i) <= pow10(j),
    decreases j,
{
    if j > i {
        lemma_pow10_le(i, (j - 1) as nat);
        lemma_pow10_positive((j - 1) as nat);
    }
}

pub proof fn lemma_pow10_add(i: nat, j: nat)
    ensures
        pow10(i + j) == pow10(i) * pow10(j),
    decreases j,
{
    if j > 0 {
        lemma_pow10_add(i, (j - 1) as nat);
        assert(pow10(i + j) == 10 * pow10((i + j - 1) as nat));
        assert(pow10(i) * pow10(j) == pow10(i) * (10 * pow10((j - 1) as nat)));
        assert(pow10(i) * (10 * pow10((j - 1) as nat)) == 10 * (pow10(i) * pow10((j - 1) as nat)))
            by (nonlinear_arith);
    }
}

pub proof fn lemma_pow10_values()
    ensures
        pow10(18) == 1000000000000000000,
        pow10(36) == 1000000000000000000000000000000000000,
        pow10(38) == 100000000000000000000000000000000000000,
{
    reveal_with_fuel(pow10, 39);
}

/// `10^n`.
pub fn pow10_exec(n: u32) -> (r: i128)
    requires
        n <= 38,
    ensures
        r == pow10(n as nat),
{
    let mut r: i128 = 1;
    let mut i: u32 = 0;
    while i < n
        invariant
            i <= n <= 38,
            r == pow10(i as nat),
        decreases n - i,
    {
        proof {
            lemma_pow10_le((i + 1) as nat, 38);
            lemma_pow10_values();
            assert(pow10((i + 1) as nat) == 10 * pow10(i as nat));
            assert(pow10((i + 1) as nat) <= pow10(38));
            assert(r * 10 <= 100000000000000000000000000000000000000);
            lemma_pow10_positive(i as nat);
        }
        r = r * 10;
        i = i + 1;
    }
    r
}

/// Reads a plain decimal literal; `None` where `s` is not one.
pub fn parse_plain_decimal(s: &str) -> (r: Option<Decimal>)
    ensures
        r == plain_decimal_of(s@),
        r matches Some(d) ==> small(d),
{
    let v = chars_of(s);
    let n = v.len();
    let start: usize = if n > 0 && (v[0] == '-' || v[0] == '+') {
        1
    } else {
        0
    };
    let ghost body = literal_body(s@);
    proof {
        assert(body =~= v@.subrange(start as int, n as int));
    }
    let mut ok = true;
    let mut value: i128 = 0;
    let mut digits: usize = 0;
    let mut dot = false;
    let mut frac: u32 = 0;
    let mut i: usize = start;
    while i < n
        invariant
            v@ == s@,
            n == v@.len(),
            start <= i <= n,
            body == v@.subrange(start as int, n as int),
            ok == scan(body.subrange(0, i - start)).ok,
            digits == scan(body.subrange(0, i - start)).digits,
            dot == scan(body.subrange(0, i - start)).dot,
            digits <= i - start,
            frac <= digits,
            digits <= MAX_DIGITS ==> frac == scan(body.subrange(0, i - start)).frac,
            digits <= MAX_DIGITS ==> value == scan(body.subrange(0, i - start)).value,
            digits <= MAX_DIGITS ==> 0 <= value < pow10(digits as nat),
        decreases n - i,
    {
        let c = v[i];
        proof {
            assert(body.subrange(0, i + 1 - start).drop_last() =~= body.subrange(0, i - start));
            assert(body.subrange(0, i + 1 - start).last() == c);
            if digits <= MAX_DIGITS {
                lemma_pow10_le(digits as nat, 18);
            }
            lemma_pow10_values();
        }
        if '0' <= c && c <= '9' {
            if digits < MAX_DIGITS {
                let d = (c as u32 - '0' as u32) as i128;
                proof {
                    assert(pow10((digits + 1) as nat) == 10 * pow10(digits as nat));
                }
                value = value * 10 + d;
                if dot {
                    frac = frac + 1;
                }
            }
            digits = digits + 1;
        } else if c == '.' && !dot {
            dot = true;
        } else {
            ok = false;
        }
        i = i + 1;
    }
    proof {
        assert(body.subrange(0, n - start) =~= body);
    }
    if ok && 1 <= digits && digits <= MAX_DIGITS {
        proof {
            lemma_pow10_le(digits as nat, 18);
        }
        let m = if n > 0 && v[0] == '-' {
            -value
        } else {
            value
        };
        Some(Decimal { mantissa: m, scale: frac })
    } else {
        None
    }
}

/// The character of the digit `d`.
pub open spec fn digit_char(d: int) -> char {
    ((d + 48) as u8) as char
}

/// The decimal digits of `n`, most significant first.
pub open spec fn digits_of(n: nat) -> Seq<char>
    decreases n,
{
    if n < 10 {
        seq![digit_char(n as int)]
    } else {
        digits_of(n / 10).push(digit_char((n % 10) as int))
    }
}

/// The digits of `n`, with leading zeros up to `w` characters.
pub open spec fn padded(n: nat, w: nat) -> Seq<char> {
    let d = digits_of(n);
    if d.len() >= w {
        d
    } else {
        Seq::new((w - d.len()) as nat, |i: int| '0') + d
    }
}

/// `m / 10^p` written with exactly `p` decimal places.
pub open spec fn render(m: int, p: nat) -> Seq<char> {
    let d = padded(abs(m) as nat, p + 1);
    let body = if p == 0 {
        d
    } else {
        d.subrange(0, d.len() - p) + seq!['.'] + d.subrange(d.len() - p, d.len() as int)
    };
    if m < 0 {
        seq!['-'] + body
    } else {
        body
    }
}

fn digit_char_exec(d: u8) -> (r: char)
    requires
        d < 10,
    ensures
        r == digit_char(d as int),
{
    (d + 48) as char
}

/// The decimal digits of `n`.
pub fn digits_exec(n: u128) -> (r: Vec<char>)
    ensures
        r@ == digits_of(n as nat),
        r@.len() >= 1,
    decreases n,
{
    if n < 10 {
        let mut v: Vec<char> = Vec::new();
        v.push(digit_char_exec(n as u8));
        proof {
            assert(v@ =~= seq![digit_char(n as int)]);
        }
        v
    } else {
        let mut v = digits_exec(n / 10);
        v.push(digit_char_exec((n % 10) as u8));
        v
    }
}

fn push_range(out: &mut Vec<char>, src: &Vec<char>, from: usize, to: usize)
    requires
        from <= to <= src@.len(),
    ensures
        final(out)@ == old(out)@ + src@.subrange(from as int, to as int),
{
    let mut i = from;
    while i < to
        invariant
            from <= i <= to <= src@.len(),
            out@ == old(out)@ + src@.subrange(from as int, i as int),
        decreases to - i,
    {
        out.push(src[i]);
        proof {
            assert(src@.subrange(from as int, i + 1) =~= src@.subrange(from as int, i as int).push(
                src@[i as int],
            ));
        }
        i = i + 1;
    }
}

/// Writes `m / 10^p` with exactly `p` decimal places.
pub fn render_exec(m: i128, p: u32) -> (r: String)
    requires
        m > i128::MIN,
        p <= 38,
    ensures
        r@ == render(m as int, p as nat),
{
    let mag: u128 = if m < 0 {
        (-m) as u128
    } else {
        m as u128
    };
    let d = digits_exec(mag);
    let w: usize = p as usize + 1;
    let mut pd: Vec<char> = Vec::new();
    if d.len() < w {
        let z = w - d.len();
        let mut i: usize = 0;
        while i < z
            invariant
                i <= z,
                pd@ == Seq::new(i as nat, |j: int| '0'),
            decreases z - i,
        {
            pd.push('0');
            proof {
                assert(pd@ =~= Seq::new((i + 1) as nat, |j: int| '0'));
            }
            i = i + 1;
        }
    }
    let ghost before = pd@;
    push_range(&mut pd, &d, 0, d.len());
    proof {
        assert(d@.subrange(0, d@.len() as int) =~= d@);
        assert(pd@ =~= padded(abs(m as int) as nat, (p + 1) as nat));
    }
    let mut out: Vec<char> = Vec::new();
    if m < 0 {
        out.push('-');
    }
    let ghost sign = out@;
    let n = pd.len();
    if p == 0 {
        push_range(&mut out, &pd, 0, n);
        proof {
            assert(pd@.subrange(0, n as int) =~= pd@);
        }
    } else {
        let cut = n - p as usize;
        push_range(&mut out, &pd, 0, cut);
        out.push('.');
        push_range(&mut out, &pd, cut, n);
    }
    proof {
        if m < 0 {
            assert(sign =~= seq!['-']);
        } else {
            assert(sign =~= Seq::<char>::empty());
        }
        assert(out@ =~= render(m as int, p as nat));
        assert(out@.subrange(0, out@.len() as int) =~= out@);
    }
    string_of(&out, 0, out.len())
}

/// `d` written at scale `s >= d.scale`.
pub open spec fn aligned(d: Decimal, s: nat) -> int {
    d.mantissa * pow10((s - d.scale) as nat)
}

pub open spec fn max_scale(x: Decimal, a: Decimal) -> nat {
    if x.scale >= a.scale {
        x.scale as nat
    } else {
        a.scale as nat
    }
}

/// The mantissa of `x + a` (of `x - a` when `negate`), rounded to the scale of `x`.
pub open spec fn sum_at(x: Decimal, a: Decimal, negate: bool) -> int {
    let s = max_scale(x, a);
    let t = if negate {
        aligned(x, s) - aligned(a, s)
    } else {
        aligned(x, s) + aligned(a, s)
    };
    round_div(t, pow10((s - x.scale) as nat))
}

/// The mantissa of `x * a`, rounded to the scale of `x`.
pub open spec fn product_at(x: Decimal, a: Decimal) -> int {
    round_div(x.mantissa * a.mantissa, pow10(a.scale as nat))
}

/// The mantissa of `x / a`, rounded to the scale of `x`.
pub open spec fn quotient_at(x: Decimal, a: Decimal) -> int {
    round_div(x.mantissa * pow10(a.scale as nat), a.mantissa as int)
}

/// `d` as a whole number of steps `10^-p`, rounded up.
pub open spec fn ceil_at(d: Decimal, p: nat) -> int {
    if p >= d.scale {
        d.mantissa * pow10((p - d.scale) as nat)
    } else {
        ceil_div(d.mantissa as int, pow10((d.scale - p) as nat))
    }
}

/// The exponent that `a` denotes, where it is a whole number.
pub open spec fn exponent_of(a: Decimal) -> Option<int> {
    let n = abs(a.mantissa as int);
    if n % pow10(a.scale as nat) == 0 {
        let k = n / pow10(a.scale as nat);
        Some(if a.mantissa < 0 { -k } else { k })
    } else {
        None
    }
}

/// Whether `x^k` can be computed: its mantissa stays under `10^38`.
pub open spec fn power_fits(x: Decimal, k: nat) -> bool {
    k == 0 || abs(pow_int(x.mantissa as int, k)) < pow10(38)
}

/// Whether `x^-n` can be computed: `x^n` stays under `10^38` and `10^-n`
/// has at most 37 places at the scale of `x`.
pub open spec fn inverse_power_fits(x: Decimal, n: nat) -> bool {
    abs(pow_int(x.mantissa as int, n)) < pow10(38) && x.scale * (n + 1) <= 37
}

/// The mantissa of `x^-n = 1 / x^n`, rounded to the scale of `x`.
pub open spec fn inverse_power_at(x: Decimal, n: nat) -> int {
    round_div(pow10((x.scale * (n + 1)) as nat), pow_int(x.mantissa as int, n))
}

/// The mantissa of `x^k`, rounded to the scale of `x`.
pub open spec fn power_at(x: Decimal, k: nat) -> int {
    if k == 0 {
        pow10(x.scale as nat)
    } else {
        round_div(pow_int(x.mantissa as int, k), pow10((x.scale * (k - 1)) as nat))
    }
}

proof fn lemma_abs_mul(a: int, b: int, ba: int, bb: int)
    requires
        abs(a) <= ba,
        abs(b) <= bb,
    ensures
        abs(a * b) <= ba * bb,
{
    assert(abs(a * b) == abs(a) * abs(b)) by (nonlinear_arith);
    assert(abs(a) * abs(b) <= ba * bb) by (nonlinear_arith)
        requires
            0 <= abs(a) <= ba,
            0 <= abs(b) <= bb,
    ;
}

proof fn lemma_pow_mono(b: int, i: nat, j: nat)
    requires
        abs(b) >= 1,
        i <= j,
    ensures
        abs(pow_int(b, i)) <= abs(pow_int(b, j)),
    decreases j,
{
    if j > i {
        lemma_pow_mono(b, i, (j - 1) as nat);
        let q = pow_int(b, (j - 1) as nat);
        assert(abs(b * q) == abs(b) * abs(q)) by (nonlinear_arith);
        assert(abs(b) * abs(q) >= abs(q)) by (nonlinear_arith)
            requires
                abs(b) >= 1,
                abs(q) >= 0,
        ;
    }
}

/// `n / d` rounded to the nearest integer, halves away from zero.
pub fn round_div_exec(n: i128, d: i128) -> (r: i128)
    requires
        abs(n as int) < pow10(38),
        0 < abs(d as int) <= pow10(38),
    ensures
        r == round_div(n as int, d as int),
        r > i128::MIN,
{
    proof {
        lemma_pow10_values();
    }
    let na: u128 = if n < 0 {
        (-n) as u128
    } else {
        n as u128
    };
    let da: u128 = if d < 0 {
        (-d) as u128
    } else {
        d as u128
    };
    let x: u128 = 2 * na + da;
    let q: u128 = x / (2 * da);
    proof {
        vstd::arithmetic::div_mod::lemma_div_is_ordered_by_denominator(x as int, 2, 2 * da as int);
    }
    if (n < 0) != (d < 0) {
        -(q as i128)
    } else {
        q as i128
    }
}

/// The mantissa of `x + a` or `x - a` at the scale of `x`.
pub fn sum_exec(x: Decimal, a: Decimal, negate: bool) -> (r: i128)
    requires
        small(x),
        small(a),
    ensures
        r == sum_at(x, a, negate),
        r > i128::MIN,
{
    let s: u32 = if x.scale >= a.scale {
        x.scale
    } else {
        a.scale
    };
    let px = pow10_exec(s - x.scale);
    let pa = pow10_exec(s - a.scale);
    proof {
        lemma_pow10_values();
        lemma_pow10_le((s - x.scale) as nat, 18);
        lemma_pow10_le((s - a.scale) as nat, 18);
        lemma_pow10_positive((s - x.scale) as nat);
        lemma_pow10_positive((s - a.scale) as nat);
        lemma_abs_mul(x.mantissa as int, px as int, pow10(18), pow10(18));
        lemma_abs_mul(a.mantissa as int, pa as int, pow10(18), pow10(18));
    }
    let tx = x.mantissa * px;
    let ta = a.mantissa * pa;
    let t = if negate {
        tx - ta
    } else {
        tx + ta
    };
    round_div_exec(t, px)
}

/// The mantissa of `x * a` at the scale of `x`.
pub fn product_exec(x: Decimal, a: Decimal) -> (r: i128)
    requires
        small(x),
        small(a),
    ensures
        r == product_at(x, a),
        r > i128::MIN,
{
    let pa = pow10_exec(a.scale);
    proof {
        lemma_pow10_values();
        lemma_pow10_le(a.scale as nat, 18);
        lemma_pow10_positive(a.scale as nat);
        lemma_abs_mul(x.mantissa as int, a.mantissa as int, pow10(18), pow10(18));
    }
    round_div_exec(x.mantissa * a.mantissa, pa)
}

/// The mantissa of `x / a` at the scale of `x`.
pub fn quotient_exec(x: Decimal, a: Decimal) -> (r: i128)
    requires
        small(x),
        small(a),
        a.mantissa != 0,
    ensures
        r == quotient_at(x, a),
        r > i128::MIN,
{
    let pa = pow10_exec(a.scale);
    proof {
        lemma_pow10_values();
        lemma_pow10_le(a.scale as nat, 18);
        lemma_pow10_positive(a.scale as nat);
        lemma_abs_mul(x.mantissa as int, pa as int, pow10(18), pow10(18));
    }
    round_div_exec(x.mantissa * pa, a.mantissa)
}

/// The exponent that `a` denotes, where it is a whole number: whether it is
/// negative, and its magnitude.
pub fn exponent_exec(a: Decimal) -> (r: Option<(bool, u128)>)
    requires
        small(a),
    ensures
        r matches Some((neg, k)) ==> exponent_of(a) == Some(
            if neg {
                -(k as int)
            } else {
                k as int
            },
        ) && (neg ==> k > 0),
        r is None ==> exponent_of(a) is None,
{
    let q = pow10_exec(a.scale);
    proof {
        lemma_pow10_positive(a.scale as nat);
        lemma_pow10_values();
    }
    let n: i128 = if a.mantissa < 0 {
        -a.mantissa
    } else {
        a.mantissa
    };
    if n % q == 0 {
        let k = n / q;
        if a.mantissa < 0 && k > 0 {
            Some((true, k as u128))
        } else {
            Some((false, k as u128))
        }
    } else {
        None
    }
}

/// `d` written at scale `s`.
pub fn aligned_exec(d: Decimal, s: u32) -> (r: i128)
    requires
        small(d),
        d.scale <= s <= 18,
    ensures
        r == aligned(d, s as nat),
        abs(r as int) <= pow10(36),
{
    let q = pow10_exec(s - d.scale);
    proof {
        lemma_pow10_values();
        lemma_pow10_le((s - d.scale) as nat, 18);
        lemma_pow10_positive((s - d.scale) as nat);
        lemma_abs_mul(d.mantissa as int, q as int, pow10(18), pow10(18));
    }
    d.mantissa * q
}

/// The mantissa of `x^-n` at the scale of `x`, where it can be computed.
pub fn inverse_power_exec(x: Decimal, n: u128) -> (r: Option<i128>)
    requires
        small(x),
        x.mantissa != 0,
    ensures
        r matches Some(v) ==> inverse_power_fits(x, n as nat) && v == inverse_power_at(x, n as nat)
            && v > i128::MIN,
        r is None ==> !inverse_power_fits(x, n as nat),
{
    proof {
        lemma_pow10_values();
    }
    let pw = match pow_checked(x.mantissa, n) {
        None => {
            return None;
        },
        Some(v) => v,
    };
    if n >= 37 && x.scale > 0 {
        proof {
            assert(x.scale * (n + 1) > 37) by (nonlinear_arith)
                requires
                    x.scale >= 1,
                    n >= 37,
            ;
        }
        return None;
    }
    if x.scale == 0 {
        proof {
            assert(x.scale * (n + 1) == 0) by (nonlinear_arith)
                requires
                    x.scale == 0,
            ;
        }
    } else {
        proof {
            assert(x.scale * (n + 1) <= 18 * 37) by (nonlinear_arith)
                requires
                    x.scale <= 18,
                    n < 37,
            ;
        }
    }
    let e: u128 = if x.scale == 0 {
        0
    } else {
        x.scale as u128 * (n + 1)
    };
    if e > 37 {
        return None;
    }
    let num = pow10_exec(e as u32);
    proof {
        lemma_pow10_le(e as nat, 37);
        reveal_with_fuel(pow10, 38);
        lemma_pow_mono_zero(x.mantissa as int, n as nat);
    }
    Some(round_div_exec(num, pw))
}

/// A power of a non-zero number is not zero.
proof fn lemma_pow_mono_zero(b: int, n: nat)
    requires
        b != 0,
    ensures
        pow_int(b, n) != 0,
    decreases n,
{
    if n > 0 {
        lemma_pow_mono_zero(b, (n - 1) as nat);
        let q = pow_int(b, (n - 1) as nat);
        assert(b * q != 0) by (nonlinear_arith)
            requires
                b != 0,
                q != 0,
        ;
    }
}

proof fn lemma_pow_unit(b: int, k: nat)
    requires
        -1 <= b <= 1,
    ensures
        pow_int(b, k) == (if b == 0 {
            if k == 0 {
                1int
            } else {
                0int
            }
        } else if b == 1 || k % 2 == 0 {
            1int
        } else {
            -1int
        }),
    decreases k,
{
    if k > 0 {
        lemma_pow_unit(b, (k - 1) as nat);
        assert(pow_int(b, k) == b * pow_int(b, (k - 1) as nat));
        assert(((k - 1) as nat) % 2 == 0 <==> k % 2 == 1);
    }
}

/// `b^k`, where its magnitude stays under `10^38`.
pub fn pow_checked(b: i128, k: u128) -> (r: Option<i128>)
    ensures
        r matches Some(v) ==> v == pow_int(b as int, k as nat) && abs(v as int) < pow10(38),
        r is None ==> abs(pow_int(b as int, k as nat)) >= pow10(38),
{
    proof {
        lemma_pow10_values();
    }
    if -1 <= b && b <= 1 {
        proof {
            lemma_pow_unit(b as int, k as nat);
        }
        return if b == 0 {
            if k == 0 {
                Some(1)
            } else {
                Some(0)
            }
        } else if b == 1 || k % 2 == 0 {
            Some(1)
        } else {
            Some(-1)
        };
    }
    let mut acc: i128 = 1;
    let mut i: u128 = 0;
    while i < k
        invariant
            i <= k,
            acc == pow_int(b as int, i as nat),
            abs(acc as int) < pow10(38),
            pow10(38) == 100000000000000000000000000000000000000,
        decreases k - i,
    {
        proof {
            assert(pow_int(b as int, (i + 1) as nat) == b * pow_int(b as int, i as nat));
            assert(acc * b == b * acc) by (nonlinear_arith);
            if b == 0 {
                assert(acc * b == 0) by (nonlinear_arith)
                    requires
                        b == 0,
                ;
            }
        }
        match acc.checked_mul(b) {
            None => {
                proof {
                    assert(b != 0);
                    lemma_pow_mono(b as int, (i + 1) as nat, k as nat);
                }
                return None;
            },
            Some(v) => {
                if v >= 100000000000000000000000000000000000000 || v
                    <= -100000000000000000000000000000000000000 {
                    proof {
                        assert(b != 0);
                        lemma_pow_mono(b as int, (i + 1) as nat, k as nat);
                    }
                    return None;
                }
                acc = v;
            },
        }
        i = i + 1;
    }
    Some(acc)
}

/// The mantissa of `x^k` at the scale of `x`, where it can be computed.
pub fn power_exec(x: Decimal, k: u128) -> (r: Option<i128>)
    requires
        small(x),
    ensures
        r matches Some(v) ==> power_fits(x, k as nat) && v == power_at(x, k as nat) && v
            > i128::MIN,
        r is None ==> !power_fits(x, k as nat),
{
    proof {
        lemma_pow10_values();
    }
    if k == 0 {
        proof {
            lemma_pow10_le(x.scale as nat, 38);
        }
        return Some(pow10_exec(x.scale));
    }
    let pw = match pow_checked(x.mantissa, k) {
        None => {
            return None;
        },
        Some(v) => v,
    };
    let ghost e: nat = (x.scale * (k - 1)) as nat;
    let mut fits = false;
    let mut e_exec: u32 = 0;
    if x.scale == 0 {
        proof {
            assert(e == 0) by (nonlinear_arith)
                requires
                    x.scale == 0,
                    e == x.scale * (k - 1),
            ;
        }
        fits = true;
    } else if k - 1 <= 38 {
        proof {
            assert(x.scale * (k - 1) <= 18 * 38) by (nonlinear_arith)
                requires
                    x.scale <= 18,
                    k - 1 <= 38,
                    k >= 1,
            ;
        }
        let t = x.scale as u128 * (k - 1);
        if t <= 38 {
            fits = true;
            e_exec = t as u32;
        }
    }
    if fits {
        let d = pow10_exec(e_exec);
        proof {
            lemma_pow10_positive(e as nat);
            lemma_pow10_le(e as nat, 38);
        }
        Some(round_div_exec(pw, d))
    } else {
        proof {
            assert(e >= 39) by (nonlinear_arith)
                requires
                    e == x.scale * (k - 1),
                    x.scale >= 1,
                    k >= 1,
                    k - 1 > 38 || x.scale * (k - 1) > 38,
            ;
            let big = pow10(e as nat);
            lemma_pow10_le(39, e as nat);
            reveal_with_fuel(pow10, 40);
            let n = 2 * abs(pw as int) + big;
            assert(0 <= n < 2 * big);
            assert(n / (2 * big) == 0) by (nonlinear_arith)
                requires
                    0 <= n < 2 * big,
            ;
        }
        Some(0)
    }
}

/// The first `e` or `E` at or after `i` (or the length).
pub open spec fn exp_index(s: Seq<char>, i: int) -> int
    decreases s.len() - i,
{
    if i < 0 || i >= s.len() {
        s.len() as int
    } else if s[i] == 'e' || s[i] == 'E' {
        i
    } else {
        exp_index(s, i + 1)
    }
}

/// The power of ten an exponent part denotes: a whole plain literal of at
/// most three digits.
pub open spec fn exponent_value(t: Seq<char>) -> Option<int> {
    match plain_decimal_of(t) {
        Some(d) => if d.scale == 0 && is_digit(t.last()) && abs(d.mantissa as int) < 1000 {
            Some(d.mantissa as int)
        } else {
            None
        },
        None => None,
    }
}

/// `d * 10^e`, where it is small enough.
pub open spec fn scaled(d: Decimal, e: int) -> Option<Decimal> {
    let k = e - d.scale;
    if k <= 0 {
        if -k <= 18 {
            Some(Decimal { mantissa: d.mantissa, scale: (-k) as u32 })
        } else {
            None
        }
    } else if k <= 18 && abs(d.mantissa * pow10(k as nat)) < pow10(18) {
        Some(Decimal { mantissa: (d.mantissa * pow10(k as nat)) as i128, scale: 0 })
    } else {
        None
    }
}

/// The number a decimal literal denotes: a plain literal, optionally
/// followed by `e` or `E` and an exponent.
pub open spec fn decimal_of(s: Seq<char>) -> Option<Decimal> {
    let i = exp_index(s, 0);
    if i >= s.len() {
        plain_decimal_of(s)
    } else {
        match (plain_decimal_of(s.subrange(0, i)), exponent_value(s.subrange(i + 1, s.len() as int))) {
            (Some(d), Some(e)) => scaled(d, e),
            _ => None,
        }
    }
}

pub proof fn lemma_exp_index_bounds(s: Seq<char>, i: int)
    requires
        0 <= i <= s.len(),
    ensures
        i <= exp_index(s, i) <= s.len(),
    decreases s.len() - i,
{
    if i < s.len() && !(s[i] == 'e' || s[i] == 'E') {
        lemma_exp_index_bounds(s, i + 1);
    }
}

/// Reads a decimal literal, with an optional exponent; `None` where `s` is
/// not one. A literal holds at most `MAX_DIGITS` (18) digits, and its value
/// must be writable with at most 18 decimal places and a mantissa below
/// `10^18`; a longer one is no number here.
pub fn parse_decimal(s: &str) -> (r: Option<Decimal>)
    ensures
        r == decimal_of(s@),
        r matches Some(d) ==> small(d),
{
    let v = chars_of(s);
    let mut i: usize = 0;
    while i < v.len() && v[i] != 'e' && v[i] != 'E'
        invariant
            v@ == s@,
            i <= v@.len(),
            exp_index(v@, 0) == exp_index(v@, i as int),
        decreases v@.len() - i,
    {
        i = i + 1;
    }
    if i >= v.len() {
        return parse_plain_decimal(s);
    }
    let mant = string_of(&v, 0, i);
    let expo = string_of(&v, i + 1, v.len());
    let d = match parse_plain_decimal(mant.as_str()) {
        Some(d) => d,
        None => {
            return None;
        },
    };
    let e = match parse_plain_decimal(expo.as_str()) {
        Some(e) => e,
        None => {
            return None;
        },
    };
    let ev = chars_of(expo.as_str());
    if e.scale != 0 || !('0' <= ev[ev.len() - 1] && ev[ev.len() - 1] <= '9') || e.mantissa >= 1000
        || e.mantissa <= -1000 {
        return None;
    }
    proof {
        lemma_pow10_values();
    }
    let k: i128 = e.mantissa - d.scale as i128;
    if k <= 0 {
        if -k <= 18 {
            Some(Decimal { mantissa: d.mantissa, scale: (-k) as u32 })
        } else {
            None
        }
    } else if k <= 18 {
        let q = pow10_exec(k as u32);
        proof {
            lemma_pow10_le(k as nat, 18);
            lemma_pow10_positive(k as nat);
            lemma_abs_mul(d.mantissa as int, q as int, pow10(18), pow10(18));
        }
        let m = d.mantissa * q;
        if -1000000000000000000 < m && m < 1000000000000000000 {
            Some(Decimal { mantissa: m, scale: 0 })
        } else {
            None
        }
    } else {
        None
    }
}

/// The fraction `n / d` with the common factors 2 and 5 removed.
pub open spec fn reduce(n: nat, d: nat) -> (nat, nat)
    decreases d,
{
    if d > 1 && n % 2 == 0 && d % 2 == 0 {
        reduce(n / 2, d / 2)
    } else if d > 1 && n % 5 == 0 && d % 5 == 0 {
        reduce(n / 5, d / 5)
    } else {
        (n, d)
    }
}

/// For `x > 0` and a fractional exponent `a = ±n/d` (reduced), the terms
/// `(d, l, r)` such that `k` at the scale `p` of `x` is at most half a step
/// above `x^a` exactly when `(2k - 1)^d * l <= r`.
pub open spec fn root_terms(x: Decimal, a: Decimal) -> (nat, int, int) {
    let nd = reduce(abs(a.mantissa as int) as nat, pow10(a.scale as nat) as nat);
    let n = nd.0;
    let d = nd.1;
    let p = x.scale as nat;
    if a.mantissa >= 0 {
        (d, pow10(p * n), pow_int(2, d) * pow_int(x.mantissa as int, n) * pow10(p * d))
    } else {
        (d, pow_int(x.mantissa as int, n), pow_int(2, d) * pow10(p * (d + n)))
    }
}

/// Whether the terms of a root stay small enough to be computed.
pub open spec fn root_fits(t: (nat, int, int)) -> bool {
    t.0 >= 1 && t.1 < pow10(38) && t.2 < pow10(37)
}

/// Whether `k` is at most half a step above the root that the terms describe.
pub open spec fn root_ok(k: int, t: (nat, int, int)) -> bool {
    k == 0 || pow_int(2 * k - 1, t.0) * t.1 <= t.2
}

proof fn lemma_pow_pos(b: int, n: nat)
    requires
        b >= 1,
    ensures
        pow_int(b, n) >= 1,
    decreases n,
{
    if n > 0 {
        lemma_pow_pos(b, (n - 1) as nat);
        let q = pow_int(b, (n - 1) as nat);
        assert(b * q >= 1) by (nonlinear_arith)
            requires
                b >= 1,
                q >= 1,
        ;
    }
}

proof fn lemma_mul_ge(a: int, b: int, bound: int)
    requires
        a >= bound || b >= bound,
        a >= 1,
        b >= 1,
    ensures
        a * b >= bound,
{
    assert(a * b >= a && a * b >= b) by (nonlinear_arith)
        requires
            a >= 1,
            b >= 1,
    ;
}

fn reduce_exec(n: u128, d: u128) -> (r: (u128, u128))
    ensures
        r.0 == reduce(n as nat, d as nat).0,
        r.1 == reduce(n as nat, d as nat).1,
        r.0 <= n,
        r.1 <= d,
{
    let mut a = n;
    let mut b = d;
    while (b > 1 && a % 2 == 0 && b % 2 == 0) || (b > 1 && a % 5 == 0 && b % 5 == 0)
        invariant
            reduce(n as nat, d as nat) == reduce(a as nat, b as nat),
            a <= n,
            b <= d,
        decreases b,
    {
        if b > 1 && a % 2 == 0 && b % 2 == 0 {
            a = a / 2;
            b = b / 2;
        } else {
            a = a / 5;
            b = b / 5;
        }
    }
    (a, b)
}

/// `10^e` where it is below `10^38`.
fn pow10_checked(e: u128) -> (r: Option<i128>)
    ensures
        r matches Some(v) ==> v == pow10(e as nat) && v < pow10(38),
        r is None ==> pow10(e as nat) >= pow10(38),
{
    proof {
        lemma_pow10_values();
    }
    if e >= 38 {
        proof {
            lemma_pow10_le(38, e as nat);
        }
        None
    } else {
        proof {
            lemma_pow10_le(e as nat, 37);
            reveal_with_fuel(pow10, 38);
        }
        Some(pow10_exec(e as u32))
    }
}

/// The product of three factors `>= 1`, where it is below `10^37`.
fn product3_checked(a: i128, b: i128, c: i128) -> (r: Option<i128>)
    requires
        a >= 1,
        b >= 1,
        c >= 1,
    ensures
        r matches Some(v) ==> v == a * b * c && 1 <= v < pow10(37),
        r is None ==> a * b * c >= pow10(37),
{
    proof {
        lemma_pow10_values();
        lemma_mul_ge(a as int, b as int, 1);
    }
    match a.checked_mul(b) {
        None => {
            proof {
                lemma_mul_ge(a * b, c as int, pow10(37));
            }
            None
        },
        Some(ab) => match ab.checked_mul(c) {
            None => None,
            Some(v) => if v < 10000000000000000000000000000000000000 {
                proof {
                    lemma_mul_ge(ab as int, c as int, 1);
                }
                Some(v)
            } else {
                None
            },
        },
    }
}

/// The terms of a root, where they fit.
pub fn root_terms_exec(x: Decimal, a: Decimal) -> (r: Option<(u128, i128, i128)>)
    requires
        small(x),
        small(a),
        x.mantissa > 0,
    ensures
        r matches Some(t) ==> root_fits(root_terms(x, a)) && t.0 == root_terms(x, a).0
            && t.1 == root_terms(x, a).1 && t.2 == root_terms(x, a).2 && t.0 >= 1 && t.1 >= 1
            && t.2 >= 1,
        r is None ==> !root_fits(root_terms(x, a)),
{
    proof {
        lemma_pow10_values();
        lemma_pow10_le(a.scale as nat, 18);
        lemma_pow10_positive(a.scale as nat);
        lemma_pow10_positive(x.scale as nat);
    }
    let q = pow10_exec(a.scale);
    let na: u128 = if a.mantissa < 0 {
        (-a.mantissa) as u128
    } else {
        a.mantissa as u128
    };
    let (n, d) = reduce_exec(na, q as u128);
    if d < 1 {
        return None;
    }
    let ghost t = root_terms(x, a);
    proof {
        assert(t.0 == d);
        lemma_pow_pos(x.mantissa as int, n as nat);
        lemma_pow_pos(2, d as nat);
    }
    let p = x.scale as u128;
    proof {
        assert(na < pow10(18));
        assert(p * (d + n) <= 18 * 2 * pow10(18)) by (nonlinear_arith)
            requires
                p <= 18,
                d + n <= 2 * pow10(18),
        ;
        assert(p * n <= p * (d + n) && p * d <= p * (d + n)) by (nonlinear_arith)
            requires
                p >= 0,
                d >= 0,
                n >= 0,
        ;
    }
    let two = match pow_checked(2, d) {
        None => {
            proof {
                lemma_pow10_positive((p * d) as nat);
                lemma_pow10_positive((p * (d + n)) as nat);
                lemma_mul_ge(pow_int(2, d as nat), pow_int(x.mantissa as int, n as nat), pow10(37));
                lemma_mul_ge(
                    pow_int(2, d as nat) * pow_int(x.mantissa as int, n as nat),
                    pow10((p * d) as nat),
                    pow10(37),
                );
                lemma_mul_ge(pow_int(2, d as nat), pow10((p * (d + n)) as nat), pow10(37));
            }
            return None;
        },
        Some(v) => v,
    };
    if a.mantissa >= 0 {
        let l = match pow10_checked(p * n) {
            None => {
                return None;
            },
            Some(v) => v,
        };
        let mn = match pow_checked(x.mantissa, n) {
            None => {
                proof {
                    lemma_pow10_positive((p * d) as nat);
                    lemma_mul_ge(two as int, pow_int(x.mantissa as int, n as nat), pow10(37));
                    lemma_mul_ge(two * pow_int(x.mantissa as int, n as nat), pow10((p * d) as nat), pow10(37));
                }
                return None;
            },
            Some(v) => v,
        };
        let pd = match pow10_checked(p * d) {
            None => {
                proof {
                    lemma_mul_ge(two as int, mn as int, 1);
                    lemma_mul_ge(two * mn, pow10((p * d) as nat), pow10(37));
                }
                return None;
            },
            Some(v) => v,
        };
        proof {
            lemma_pow10_positive((p * n) as nat);
            lemma_pow10_positive((p * d) as nat);
        }
        match product3_checked(two, mn, pd) {
            None => None,
            Some(rr) => Some((d, l, rr)),
        }
    } else {
        let l = match pow_checked(x.mantissa, n) {
            None => {
                return None;
            },
            Some(v) => v,
        };
        let pd = match pow10_checked(p * (d + n)) {
            None => {
                proof {
                    lemma_mul_ge(two as int, pow10((p * (d + n)) as nat), pow10(37));
                }
                return None;
            },
            Some(v) => v,
        };
        proof {
            lemma_pow10_positive((p * (d + n)) as nat);
        }
        match product3_checked(two, 1, pd) {
            None => None,
            Some(rr) => Some((d, l, rr)),
        }
    }
}

/// A step above the root is below `r`: `root_ok(k)` bounds `2k - 1`.
proof fn lemma_root_ok_bound(k: int, t: (nat, int, int))
    requires
        k >= 1,
        t.0 >= 1,
        t.1 >= 1,
        root_ok(k, t),
    ensures
        2 * k - 1 <= t.2,
{
    lemma_pow_mono(2 * k - 1, 1, t.0);
    assert(pow_int(2 * k - 1, 0) == 1);
    assert(pow_int(2 * k - 1, 1) == (2 * k - 1) * pow_int(2 * k - 1, 0));
    lemma_pow_pos(2 * k - 1, t.0);
    lemma_mul_ge(pow_int(2 * k - 1, t.0), t.1, 1);
    assert(pow_int(2 * k - 1, t.0) * t.1 >= pow_int(2 * k - 1, t.0)) by (nonlinear_arith)
        requires
            pow_int(2 * k - 1, t.0) >= 1,
            t.1 >= 1,
    ;
}

fn root_ok_exec(k: u128, d: u128, l: i128, r: i128) -> (b: bool)
    requires
        k <= 10000000000000000000000000000000000000,
        d >= 1,
        1 <= l,
        0 <= r,
        r < pow10(37),
    ensures
        b == root_ok(k as int, (d as nat, l as int, r as int)),
{
    proof {
        lemma_pow10_values();
    }
    if k == 0 {
        return true;
    }
    let base = (2 * k - 1) as i128;
    proof {
        lemma_pow_pos(base as int, d as nat);
    }
    match pow_checked(base, d) {
        None => {
            proof {
                lemma_mul_ge(pow_int(base as int, d as nat), l as int, pow10(38));
            }
            false
        },
        Some(v) => match v.checked_mul(l) {
            None => {
                proof {
                    lemma_mul_ge(v as int, l as int, 1);
                }
                false
            },
            Some(w) => w <= r,
        },
    }
}

/// The mantissa at scale `p` nearest to the root that the terms describe.
pub fn nearest_root(d: u128, l: i128, r: i128) -> (k: i128)
    requires
        d >= 1,
        1 <= l,
        0 <= r,
        r < pow10(37),
    ensures
        0 <= k <= pow10(37),
        root_ok(k as int, (d as nat, l as int, r as int)),
        !root_ok(k + 1, (d as nat, l as int, r as int)),
{
    let ghost t = (d as nat, l as int, r as int);
    proof {
        lemma_pow10_values();
    }
    let mut lo: u128 = 0;
    let mut hi: u128 = 1;
    while root_ok_exec(hi, d, l, r)
        invariant
            t == (d as nat, l as int, r as int),
            d >= 1,
            1 <= l,
            0 <= r < pow10(37),
            pow10(37) == 10000000000000000000000000000000000000,
            lo < hi <= 10000000000000000000000000000000000000,
            root_ok(lo as int, t),
        decreases 10000000000000000000000000000000000000 - hi,
    {
        proof {
            lemma_root_ok_bound(hi as int, t);
        }
        lo = hi;
        hi = 2 * hi;
    }
    while hi - lo > 1
        invariant
            t == (d as nat, l as int, r as int),
            d >= 1,
            1 <= l,
            0 <= r < pow10(37),
            pow10(37) == 10000000000000000000000000000000000000,
            lo < hi <= 10000000000000000000000000000000000000,
            root_ok(lo as int, t),
            !root_ok(hi as int, t),
        decreases hi - lo,
    {
        let mid = lo + (hi - lo) / 2;
        if root_ok_exec(mid, d, l, r) {
            lo = mid;
        } else {
            hi = mid;
        }
    }
    lo as i128
}

/// `round_div` follows the order of the fractions it rounds.
proof fn lemma_round_div_monotone(a: int, b: int, c: int, d: int)
    requires
        a >= 0,
        c >= 0,
        b > 0,
        d > 0,
        a * d <= c * b,
    ensures
        round_div(a, b) <= round_div(c, d),
{
    let f = (2 * a + b) / (2 * b);
    let g = (2 * c + d) / (2 * d);
    vstd::arithmetic::div_mod::lemma_fundamental_div_mod(2 * a + b, 2 * b);
    vstd::arithmetic::div_mod::lemma_mod_pos_bound(2 * a + b, 2 * b);
    vstd::arithmetic::div_mod::lemma_fundamental_div_mod(2 * c + d, 2 * d);
    vstd::arithmetic::div_mod::lemma_mod_pos_bound(2 * c + d, 2 * d);
    assert((g + 1) * (2 * d) == (2 * d) * g + 2 * d) by (nonlinear_arith);
    assert(f * (2 * b) == (2 * b) * f) by (nonlinear_arith);
    assert(f <= g) by (nonlinear_arith)
        requires
            a >= 0,
            c >= 0,
            b > 0,
            d > 0,
            a * d <= c * b,
            f * (2 * b) <= 2 * a + b,
            2 * c + d < (g + 1) * (2 * d),
    ;
}

/// Bounds on `m^i` with `a` trailing decimal digits dropped:
/// `lo * 10^a <= m^i <= hi * 10^a`.
pub open spec fn power_bounds(m: int, i: nat, a: nat, lo: int, hi: int) -> bool {
    0 <= lo && lo * pow10(a) <= pow_int(m, i) && pow_int(m, i) <= hi * pow10(a)
}

/// The mantissa of `x^k` at the scale of `x`, for `x > 0`, from lower and
/// upper bounds on `m^i` that keep as many leading digits as 128 bits
/// allow; `None` where the bounds round to different results.
pub fn power_by_bounds(x: Decimal, k: u128) -> (r: Option<i128>)
    requires
        small(x),
        x.mantissa > 0,
        k >= 1,
    ensures
        r matches Some(v) ==> v == power_at(x, k as nat) && v > i128::MIN,
{
    proof {
        lemma_pow10_values();
    }
    if k > 200 {
        return None;
    }
    let m = x.mantissa;
    let limit: i128 = 10000000000000000000000000000000000000 / m;
    proof {
        vstd::arithmetic::div_mod::lemma_fundamental_div_mod(10000000000000000000000000000000000000, m as int);
        vstd::arithmetic::div_mod::lemma_mod_pos_bound(10000000000000000000000000000000000000, m as int);
        assert(limit * m <= 10000000000000000000000000000000000000) by (nonlinear_arith)
            requires
                limit == 10000000000000000000000000000000000000int / (m as int),
                10000000000000000000000000000000000000int == (m as int) * limit + 10000000000000000000000000000000000000int % (m as int),
                10000000000000000000000000000000000000int % (m as int) >= 0,
        ;
        assert(limit >= 10000000000000000000) by (nonlinear_arith)
            requires
                10000000000000000000000000000000000000int == (m as int) * limit + 10000000000000000000000000000000000000int % (m as int),
                10000000000000000000000000000000000000int % (m as int) < m,
                0 < m < 1000000000000000000,
        ;
        assert(pow_int(m as int, 1) == m * pow_int(m as int, 0));
    }
    let mut lo: i128 = m;
    let mut hi: i128 = m;
    let mut a: u32 = 0;
    let mut i: u128 = 1;
    while i < k
        invariant
            1 <= i <= k <= 200,
            m == x.mantissa,
            0 < m < 1000000000000000000,
            limit * m <= 10000000000000000000000000000000000000,
            limit >= 10000000000000000000,
            0 <= lo <= hi <= limit,
            a <= i * 40,
            power_bounds(m as int, i as nat, a as nat, lo as int, hi as int),
        decreases k - i,
    {
        proof {
            assert(lo * m <= hi * m && hi * m <= limit * m) by (nonlinear_arith)
                requires
                    0 <= lo <= hi <= limit,
                    m > 0,
            ;
            assert(lo * m >= 0) by (nonlinear_arith)
                requires
                    lo >= 0,
                    m > 0,
            ;
            let e = pow_int(m as int, i as nat);
            assert(pow_int(m as int, (i + 1) as nat) == m * e);
            assert(lo * m * pow10(a as nat) <= m * e && m * e <= hi * m * pow10(a as nat))
                by (nonlinear_arith)
                requires
                    lo * pow10(a as nat) <= e,
                    e <= hi * pow10(a as nat),
                    m > 0,
            ;
        }
        let mut l2: i128 = lo * m;
        let mut h2: i128 = hi * m;
        let mut j: u32 = 0;
        while h2 > limit && j < 40
            invariant
                0 <= l2 <= h2 <= 10000000000000000000000000000000000000,
                limit >= 10000000000000000000,
                j <= 40,
                l2 * pow10((a + j) as nat) <= pow_int(m as int, (i + 1) as nat),
                pow_int(m as int, (i + 1) as nat) <= h2 * pow10((a + j) as nat),
            decreases 40 - j,
        {
            let l3 = l2 / 10;
            let h3 = (h2 + 9) / 10;
            proof {
                assert(pow10((a + j + 1) as nat) == 10 * pow10((a + j) as nat));
                lemma_pow10_positive((a + j) as nat);
                let q = pow10((a + j) as nat);
                assert(l3 * 10 <= l2 && h2 <= h3 * 10);
                assert(l3 * (10 * q) <= l2 * q && h2 * q <= h3 * (10 * q)) by (nonlinear_arith)
                    requires
                        l3 * 10 <= l2,
                        h2 <= h3 * 10,
                        q > 0,
                ;
            }
            l2 = l3;
            h2 = h3;
            j = j + 1;
        }
        if h2 > limit {
            return None;
        }
        lo = l2;
        hi = h2;
        a = a + j;
        i = i + 1;
    }
    let ghost e = pow_int(m as int, k as nat);
    proof {
        assert(x.scale * (k - 1) <= 18 * 200) by (nonlinear_arith)
            requires
                x.scale <= 18,
                1 <= k <= 200,
        ;
    }
    let d: u128 = x.scale as u128 * (k - 1);
    if d < a as u128 || d - a as u128 > 38 {
        return None;
    }
    let t: u32 = (d - a as u128) as u32;
    let g = pow10_exec(t);
    proof {
        lemma_pow10_le(t as nat, 38);
        lemma_pow10_positive(t as nat);
        lemma_pow10_positive(a as nat);
        lemma_pow10_positive((a + t) as nat);
        lemma_pow10_add(a as nat, t as nat);
        lemma_pow_pos(m as int, k as nat);
        assert(lo * pow10((a + t) as nat) <= e * g && e * g <= hi * pow10((a + t) as nat))
            by (nonlinear_arith)
            requires
                lo * pow10(a as nat) <= e,
                e <= hi * pow10(a as nat),
                pow10((a + t) as nat) == pow10(a as nat) * g,
                g > 0,
        ;
        assert((a + t) as nat == x.scale * ((k - 1) as nat));
        lemma_round_div_monotone(lo as int, g as int, e, pow10((a + t) as nat));
        lemma_round_div_monotone(e, pow10((a + t) as nat), hi as int, g as int);
    }
    let r1 = round_div_exec(lo, g);
    let r2 = round_div_exec(hi, g);
    if r1 == r2 {
        Some(r1)
    } else {
        None
    }
}

} // verus!
