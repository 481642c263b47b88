//! Numeric literals: `base [E [sign] exponent] [unit]`, valued exactly, with no
//! bound on the number of digits.
use vstd::prelude::*;
use vstd::string::*;
use crate::error::{Error, ErrorHandler, ErrorType, SpecError};
use crate::lexer::chars_of;
use crate::token::{SpecToken, Token, TokenType};

verus! {

/// Mathematical view of a `Power`.
pub struct SpecPower {
    pub negative: bool,
    pub whole: Seq<u8>,
    pub fraction: Seq<u8>,
}

/// Mathematical view of a `Decimal`.
pub struct SpecDecimal {
    pub digits: Seq<u8>,
    pub exponent: int,
    pub power: Option<SpecPower>,
}

/// An exponent kept as written, `±whole.fraction`: the digits before the `.`
/// without leading zeros and those after it without trailing zeros.
#[derive(Debug)]
pub struct Power {
    pub negative: bool,
    pub whole: Vec<u8>,
    pub fraction: Vec<u8>,
}

impl View for Power {
    type V = SpecPower;

    open spec fn view(&self) -> SpecPower {
        SpecPower { negative: self.negative, whole: self.whole@, fraction: self.fraction@ }
    }
}

/// An exact value `digits × 10^exponent × 10^power`. `digits` are the
/// significant decimal digits, most significant first, with no leading or
/// trailing zero (none for zero). `power` is the exponent written after `E` when
/// it has a fractional part or more than 18 digits; otherwise that exponent is
/// part of `exponent` and `power` is `None`. Zero is `[] × 10^0`.
#[derive(Debug)]
pub struct Decimal {
    pub digits: Vec<u8>,
    pub exponent: i128,
    pub power: Option<Power>,
}

pub open spec fn power_view(p: Option<Power>) -> Option<SpecPower> {
    match p {
        Some(x) => Some(x@),
        None => None,
    }
}

impl View for Decimal {
    type V = SpecDecimal;

    open spec fn view(&self) -> SpecDecimal {
        SpecDecimal { digits: self.digits@, exponent: self.exponent as int, power: power_view(self.power) }
    }
}

pub open spec fn zero_value() -> SpecDecimal {
    SpecDecimal { digits: seq![], exponent: 0, power: None }
}

/// The value of a decimal digit (0 for any other character).
pub open spec fn digit_value(c: char) -> u8 {
    if '0' <= c && c <= '9' {
        ((c as u32) - ('0' as u32)) as u8
    } else {
        0
    }
}

/// Reads a decimal lexeme left to right: the digits before the `.`, the digits
/// after it, and whether a `.` was seen.
pub open spec fn split_parts(s: Seq<char>) -> (Seq<u8>, Seq<u8>, bool)
    decreases s.len(),
{
    if s.len() == 0 {
        (seq![], seq![], false)
    } else {
        let (w, f, seen) = split_parts(s.drop_last());
        let c = s.last();
        if c == '.' {
            (w, f, true)
        } else if seen {
            (w, f.push(digit_value(c)), true)
        } else {
            (w.push(digit_value(c)), f, false)
        }
    }
}

pub open spec fn strip_leading(d: Seq<u8>) -> Seq<u8>
    decreases d.len(),
{
    if d.len() > 0 && d[0] == 0 {
        strip_leading(d.subrange(1, d.len() as int))
    } else {
        d
    }
}

pub open spec fn strip_trailing(d: Seq<u8>) -> Seq<u8>
    decreases d.len(),
{
    if d.len() > 0 && d.last() == 0 {
        strip_trailing(d.drop_last())
    } else {
        d
    }
}

pub open spec fn trailing_zeros(d: Seq<u8>) -> nat
    decreases d.len(),
{
    if d.len() > 0 && d.last() == 0 {
        trailing_zeros(d.drop_last()) + 1
    } else {
        0
    }
}

/// The integer that a sequence of digits writes.
pub open spec fn nat_of(d: Seq<u8>) -> nat
    decreases d.len(),
{
    if d.len() == 0 {
        0
    } else {
        nat_of(d.drop_last()) * 10 + d.last() as nat
    }
}

pub open spec fn pow10(n: nat) -> nat
    decreases n,
{
    if n == 0 {
        1
    } else {
        pow10((n - 1) as nat) * 10
    }
}

pub open spec fn small_digits(d: Seq<u8>) -> bool {
    forall|i: int| 0 <= i < d.len() ==> #[trigger] d[i] < 10
}

/// The longest exponent, in digits, that is folded into `Decimal::exponent`.
pub const FOLDED_DIGITS: usize = 18;

/// The power of ten that a unit suffix stands for: the longest prefix found in
/// the table `T G MEG K M U N P F` (letters as written, `MEG` tried before `M`);
/// 0 for a suffix that no entry begins.
pub open spec fn unit_exponent(u: Seq<char>) -> int {
    if u.len() >= 3 && u.take(3) == "MEG"@ {
        6
    } else if u.len() == 0 {
        0
    } else {
        let c = u[0];
        if c == 'T' {
            12
        } else if c == 'G' {
            9
        } else if c == 'K' {
            3
        } else if c == 'M' {
            -3
        } else if c == 'U' {
            -6
        } else if c == 'N' {
            -9
        } else if c == 'P' {
            -12
        } else if c == 'F' {
            -15
        } else {
            0
        }
    }
}

pub open spec fn syntax_error(message: Seq<char>, t: SpecToken) -> SpecError {
    SpecError { kind: ErrorType::Syntax, message, line: t.line, column: t.column }
}

/// The token that an error at position `i` of a card points at: the token
/// there, or the card's last token past its end.
pub open spec fn token_at(c: Seq<SpecToken>, i: int) -> SpecToken {
    if 0 <= i < c.len() {
        c[i]
    } else {
        c.last()
    }
}

/// What reading a numeric literal at position `i` of a card gives.
pub struct Literal {
    pub value: SpecDecimal,
    pub errors: Seq<SpecError>,
    pub next: nat,
}

/// The exponent after the `E` at position `j`: as an integer when it is one of
/// at most 18 digits, else kept as written; its errors; the position after it.
pub open spec fn exponent_at(c: Seq<SpecToken>, j: nat) -> (int, Option<SpecPower>, Seq<SpecError>, nat) {
    let k = j + 1;
    let has_sign = k < c.len() && (c[k as int].kind == TokenType::Minus || c[k as int].kind
        == TokenType::Add);
    let neg = has_sign && c[k as int].kind == TokenType::Minus;
    let k2: nat = if has_sign { k + 1 } else { k };
    if k2 < c.len() && c[k2 as int].kind == TokenType::Number {
        let (xw, xf, seen) = split_parts(c[k2 as int].lexeme);
        let w = strip_leading(xw);
        let f = strip_trailing(xf);
        if f.len() == 0 && w.len() <= FOLDED_DIGITS {
            (if neg { -nat_of(w) } else { nat_of(w) as int }, None, seq![], k2 + 1)
        } else {
            (0, Some(SpecPower { negative: neg, whole: w, fraction: f }), seq![], k2 + 1)
        }
    } else {
        (0, None, seq![syntax_error("Expected number after E"@, token_at(c, k as int))], k2)
    }
}

/// Reads the numeric literal at position `i` of card `c`: its value is
/// `base × 10^exponent × unit scale`, exactly. A token that is not a number is
/// consumed and gives 0 and a syntax error; an `E` with no number after it is
/// an error and leaves the base unscaled by it. An unrecognized unit suffix is
/// consumed and leaves the value unscaled.
pub open spec fn literal_at(c: Seq<SpecToken>, i: nat) -> Literal {
    if !(i < c.len() && c[i as int].kind == TokenType::Number) {
        Literal {
            value: zero_value(),
            errors: seq![syntax_error("Expected number"@, token_at(c, i as int))],
            next: if i < c.len() { i + 1 } else { i },
        }
    } else {
        let (bw, bf, seen) = split_parts(c[i as int].lexeme);
        let d = strip_leading(bw + bf);
        let digits = strip_trailing(d);
        let j = i + 1;
        let has_exp = j < c.len() && c[j as int].kind == TokenType::E;
        let (x, power, x_errors, j2) = if has_exp {
            exponent_at(c, j)
        } else {
            (0int, None, seq![], j)
        };
        let has_unit = j2 < c.len() && c[j2 as int].kind == TokenType::Unit;
        let u = if has_unit { unit_exponent(c[j2 as int].lexeme) } else { 0 };
        let next: nat = if has_unit { j2 + 1 } else { j2 };
        let value = if digits.len() == 0 {
            zero_value()
        } else {
            SpecDecimal { digits, exponent: trailing_zeros(d) - bf.len() + u + x, power }
        };
        Literal { value, errors: x_errors, next }
    }
}

proof fn lemma_nat_of_bound(d: Seq<u8>)
    requires
        small_digits(d),
    ensures
        nat_of(d) < pow10(d.len()),
    decreases d.len(),
{
    if d.len() > 0 {
        let p = d.drop_last();
        assert(small_digits(p)) by {
            assert forall|i: int| 0 <= i < p.len() implies #[trigger] p[i] < 10 by {
                assert(p[i] == d[i]);
            }
        }
        lemma_nat_of_bound(p);
        let a = nat_of(p);
        let b = pow10(p.len());
        let x = d.last() as nat;
        assert(x < 10);
        assert(a * 10 + x < b * 10) by (nonlinear_arith)
            requires
                a < b,
                x < 10,
        ;
    }
}

proof fn lemma_pow10_mono(a: nat, b: nat)
    requires
        a <= b,
    ensures
        pow10(a) <= pow10(b),
    decreases b,
{
    if a < b {
        lemma_pow10_mono(a, (b - 1) as nat);
    }
}

/// Splits a number lexeme into the digits before and after its `.`.
fn split_digits(text: &String) -> (r: (Vec<u8>, Vec<u8>))
    ensures
        r.0@ == split_parts(text@).0,
        r.1@ == split_parts(text@).1,
        small_digits(r.0@),
        small_digits(r.1@),
{
    let s = chars_of(text);
    let mut w: Vec<u8> = Vec::new();
    let mut f: Vec<u8> = Vec::new();
    let mut seen = false;
    let mut k: usize = 0;
    while k < s.len()
        invariant
            k <= s@.len(),
            s@ == text@,
            (w@, f@, seen) == split_parts(s@.take(k as int)),
            small_digits(w@),
            small_digits(f@),
        decreases s@.len() - k,
    {
        assert(s@.take(k as int + 1).drop_last() =~= s@.take(k as int));
        let c = s[k];
        if c == '.' {
            seen = true;
        } else {
            let d: u8 = if '0' <= c && c <= '9' {
                ((c as u32) - ('0' as u32)) as u8
            } else {
                0
            };
            if seen {
                f.push(d);
            } else {
                w.push(d);
            }
        }
        k += 1;
    }
    assert(s@.take(k as int) =~= text@);
    (w, f)
}

fn copy_range(d: &Vec<u8>, from: usize, to: usize) -> (r: Vec<u8>)
    requires
        from <= to <= d@.len(),
    ensures
        r@ == d@.subrange(from as int, to as int),
{
    let mut r: Vec<u8> = Vec::new();
    let mut k = from;
    while k < to
        invariant
            from <= k <= to <= d@.len(),
            r@ == d@.subrange(from as int, k as int),
        decreases to - k,
    {
        r.push(d[k]);
        k += 1;
        assert(r@ =~= d@.subrange(from as int, k as int));
    }
    r
}

fn strip_leading_exec(d: &Vec<u8>) -> (r: Vec<u8>)
    requires
        small_digits(d@),
    ensures
        r@ == strip_leading(d@),
        small_digits(r@),
{
    let mut p: usize = 0;
    assert(d@.subrange(0, d@.len() as int) =~= d@);
    while p < d.len() && d[p] == 0
        invariant
            p <= d@.len(),
            strip_leading(d@.subrange(p as int, d@.len() as int)) == strip_leading(d@),
        decreases d@.len() - p,
    {
        let ghost t = d@.subrange(p as int, d@.len() as int);
        assert(t.subrange(1, t.len() as int) =~= d@.subrange(p + 1, d@.len() as int));
        p += 1;
    }
    let r = copy_range(d, p, d.len());
    assert forall|i: int| 0 <= i < r@.len() implies #[trigger] r@[i] < 10 by {
        assert(r@[i] == d@[p + i]);
    }
    r
}

fn strip_trailing_exec(d: &Vec<u8>) -> (r: (Vec<u8>, usize))
    requires
        small_digits(d@),
    ensures
        r.0@ == strip_trailing(d@),
        r.1 == trailing_zeros(d@),
        small_digits(r.0@),
{
    let mut q: usize = d.len();
    assert(d@.take(q as int) =~= d@);
    while q > 0 && d[q - 1] == 0
        invariant
            q <= d@.len(),
            strip_trailing(d@.take(q as int)) == strip_trailing(d@),
            trailing_zeros(d@.take(q as int)) + (d@.len() - q) == trailing_zeros(d@),
        decreases q,
    {
        assert(d@.take(q as int).drop_last() =~= d@.take(q as int - 1));
        q -= 1;
    }
    let r = copy_range(d, 0, q);
    assert(d@.subrange(0, q as int) =~= d@.take(q as int));
    assert forall|i: int| 0 <= i < r@.len() implies #[trigger] r@[i] < 10 by {
        assert(r@[i] == d@[i]);
    }
    (r, d.len() - q)
}

fn nat_of_exec(d: &Vec<u8>) -> (r: u64)
    requires
        small_digits(d@),
        d@.len() <= FOLDED_DIGITS,
    ensures
        r == nat_of(d@),
{
    let mut acc: u64 = 0;
    let mut k: usize = 0;
    proof {
        reveal_with_fuel(pow10, 19);
        lemma_pow10_mono(d@.len(), 18);
    }
    assert(pow10(18) == 1000000000000000000nat);
    while k < d.len()
        invariant
            k <= d@.len() <= 18,
            small_digits(d@),
            pow10(d@.len()) <= 1000000000000000000nat,
            acc == nat_of(d@.take(k as int)),
        decreases d@.len() - k,
    {
        let ghost t = d@.take(k as int + 1);
        assert(t.drop_last() =~= d@.take(k as int));
        proof {
            assert(small_digits(t)) by {
                assert forall|i: int| 0 <= i < t.len() implies #[trigger] t[i] < 10 by {
                    assert(t[i] == d@[i]);
                }
            }
            lemma_nat_of_bound(t);
            lemma_pow10_mono(t.len(), d@.len());
        }
        acc = acc * 10 + d[k] as u64;
        k += 1;
    }
    assert(d@.take(k as int) =~= d@);
    acc
}

fn same_bytes(a: &Vec<u8>, b: &Vec<u8>) -> (r: bool)
    ensures
        r == (a@ == b@),
{
    if a.len() != b.len() {
        return false;
    }
    let mut k: usize = 0;
    while k < a.len()
        invariant
            a@.len() == b@.len(),
            k <= a@.len(),
            forall|i: int| 0 <= i < k ==> a@[i] == b@[i],
        decreases a@.len() - k,
    {
        if a[k] != b[k] {
            return false;
        }
        k += 1;
    }
    assert(a@ =~= b@);
    true
}

impl Power {
    pub fn duplicate(&self) -> (r: Power)
        ensures
            r@ == self@,
    {
        assert(self.whole@.subrange(0, self.whole@.len() as int) =~= self.whole@);
        assert(self.fraction@.subrange(0, self.fraction@.len() as int) =~= self.fraction@);
        Power {
            negative: self.negative,
            whole: copy_range(&self.whole, 0, self.whole.len()),
            fraction: copy_range(&self.fraction, 0, self.fraction.len()),
        }
    }
}

impl Decimal {
    /// Zero.
    pub fn zero() -> (r: Decimal)
        ensures
            r@ == zero_value(),
    {
        let r = Decimal { digits: Vec::new(), exponent: 0, power: None };
        assert(r@.digits =~= seq![]);
        r
    }

    pub fn duplicate(&self) -> (r: Decimal)
        ensures
            r@ == self@,
    {
        let power = match &self.power {
            Some(p) => Some(p.duplicate()),
            None => None,
        };
        let r = Decimal { digits: copy_range(&self.digits, 0, self.digits.len()), exponent: self.exponent, power };
        assert(self.digits@.subrange(0, self.digits@.len() as int) =~= self.digits@);
        r
    }

    /// Whether the two are written the same in this exact form.
    pub fn same(&self, other: &Decimal) -> (r: bool)
        ensures
            r == (self@ == other@),
    {
        if self.exponent != other.exponent || !same_bytes(&self.digits, &other.digits) {
            return false;
        }
        match (&self.power, &other.power) {
            (None, None) => true,
            (Some(a), Some(b)) => a.negative == b.negative && same_bytes(&a.whole, &b.whole) && same_bytes(
                &a.fraction,
                &b.fraction,
            ),
            _ => false,
        }
    }
}

/// Scans the unit table; `u` is a unit suffix.
fn unit_exponent_exec(u: &String) -> (r: i128)
    ensures
        r == unit_exponent(u@),
{
    let s = chars_of(u);
    proof {
        reveal_strlit("MEG");
    }
    if s.len() >= 3 && s[0] == 'M' && s[1] == 'E' && s[2] == 'G' {
        assert(s@.take(3) =~= "MEG"@);
        return 6;
    }
    if s.len() >= 3 {
        assert(s@.take(3)[0] == s@[0] && s@.take(3)[1] == s@[1] && s@.take(3)[2] == s@[2]);
    }
    if s.len() == 0 {
        return 0;
    }
    let c = s[0];
    if c == 'T' {
        12
    } else if c == 'G' {
        9
    } else if c == 'K' {
        3
    } else if c == 'M' {
        -3
    } else if c == 'U' {
        -6
    } else if c == 'N' {
        -9
    } else if c == 'P' {
        -12
    } else if c == 'F' {
        -15
    } else {
        0
    }
}

pub(crate) fn error_at(c: &Vec<Token>, i: usize, message: &str) -> (r: Error)
    requires
        c@.len() > 0,
    ensures
        r@ == syntax_error(message@, token_at(crate::token::token_views(c@), i as int)),
{
    let t = if i < c.len() {
        &c[i]
    } else {
        &c[c.len() - 1]
    };
    Error::new(ErrorType::Syntax, String::from_str(message), t.line, t.column)
}

/// Reads the numeric literal at position `i` of a card, adding its errors.
pub fn parse_literal(c: &Vec<Token>, i: usize, errors: &mut ErrorHandler) -> (r: (Decimal, usize))
    requires
        c@.len() > 0,
    ensures
        ({
            let lit = literal_at(crate::token::token_views(c@), i as nat);
            &&& r.0@ == lit.value
            &&& r.1 == lit.next
            &&& final(errors)@ == old(errors)@ + lit.errors
        }),
{
    let ghost cv = crate::token::token_views(c@);
    let n = c.len();
    if !(i < n && c[i].token_type == TokenType::Number) {
        errors.add_error(error_at(c, i, "Expected number"));
        let next = if i < n {
            i + 1
        } else {
            i
        };
        return (Decimal::zero(), next);
    }
    let (mut bw, mut bf) = split_digits(&c[i].content);
    let flen = bf.len();
    let ghost wv = bw@;
    let ghost fv = bf@;
    bw.append(&mut bf);
    assert(small_digits(bw@)) by {
        assert forall|k: int| 0 <= k < bw@.len() implies #[trigger] bw@[k] < 10 by {
            if k < wv.len() {
                assert(bw@[k] == wv[k]);
            } else {
                assert(bw@[k] == fv[k - wv.len()]);
            }
        }
    }
    let d = strip_leading_exec(&bw);
    let (digits, t) = strip_trailing_exec(&d);
    let j = i + 1;
    let mut x: i128 = 0;
    let mut power: Option<Power> = None;
    let mut j2 = j;
    if j < n && c[j].token_type == TokenType::E {
        let k = j + 1;
        let has_sign = k < n && (c[k].token_type == TokenType::Minus || c[k].token_type
            == TokenType::Add);
        let neg = has_sign && c[k].token_type == TokenType::Minus;
        let k2 = if has_sign {
            k + 1
        } else {
            k
        };
        if k2 < n && c[k2].token_type == TokenType::Number {
            let (xw, xf) = split_digits(&c[k2].content);
            let w = strip_leading_exec(&xw);
            let (f, _) = strip_trailing_exec(&xf);
            if f.len() == 0 && w.len() <= FOLDED_DIGITS {
                let v = nat_of_exec(&w);
                x = if neg {
                    -(v as i128)
                } else {
                    v as i128
                };
            } else {
                power = Some(Power { negative: neg, whole: w, fraction: f });
            }
            j2 = k2 + 1;
        } else {
            errors.add_error(error_at(c, k, "Expected number after E"));
            j2 = k2;
        }
    }
    let has_unit = j2 < n && c[j2].token_type == TokenType::Unit;
    let u: i128 = if has_unit {
        unit_exponent_exec(&c[j2].content)
    } else {
        0
    };
    let next = if has_unit {
        j2 + 1
    } else {
        j2
    };
    if digits.len() == 0 {
        return (Decimal::zero(), next);
    }
    (Decimal { digits, exponent: (t as i128) - (flen as i128) + u + x, power }, next)
}

} // verus!
