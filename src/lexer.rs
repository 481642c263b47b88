//! The tokenizer: source text to tokens and lexical errors.
use vstd::prelude::*;
use vstd::string::*;
use crate::error::{Error, ErrorHandler, ErrorType, SpecError, push_char};
use crate::token::{Card, SpecToken, Token, TokenType, tok};

verus! {

// ----- character classes -----

pub open spec fn is_digit_char(c: char) -> bool {
    '0' <= c && c <= '9'
}

/// Whether `c` has Unicode's Uppercase property (`char::is_uppercase`).
pub uninterp spec fn is_upper_of(c: char) -> bool;

/// Whether `c` has Unicode's Lowercase property (`char::is_lowercase`).
pub uninterp spec fn is_lower_of(c: char) -> bool;

/// The Unicode lowercase mapping of a text (`str::to_lowercase`).
pub uninterp spec fn to_lower_of(s: Seq<char>) -> Seq<char>;

pub open spec fn is_ascii_char(c: char) -> bool {
    (c as u32) < 128
}

pub open spec fn all_ascii(w: Seq<char>) -> bool {
    forall|i: int| 0 <= i < w.len() ==> is_ascii_char(#[trigger] w[i])
}

/// A letter (an uppercase or a lowercase character) or `_`. Among ASCII
/// characters the letters are `a`-`z` and `A`-`Z`.
pub open spec fn is_alpha_char(c: char) -> bool {
    if is_ascii_char(c) {
        ('a' <= c && c <= 'z') || ('A' <= c && c <= 'Z') || c == '_'
    } else {
        is_upper_of(c) || is_lower_of(c)
    }
}

pub open spec fn is_alnum_char(c: char) -> bool {
    is_alpha_char(c) || is_digit_char(c)
}

pub open spec fn lower_char(c: char) -> char {
    if 'A' <= c && c <= 'Z' {
        ((c as u32) + 32) as char
    } else {
        c
    }
}

pub open spec fn lower(w: Seq<char>) -> Seq<char> {
    w.map_values(|c: char| lower_char(c))
}

/// The lowercase form of a directive word: for ASCII text, `A`-`Z` become
/// `a`-`z`; otherwise the Unicode lowercase mapping.
pub open spec fn word_lower(w: Seq<char>) -> Seq<char> {
    if all_ascii(w) {
        lower(w)
    } else {
        to_lower_of(w)
    }
}

/// The punctuation token that a single character forms, if any.
pub open spec fn punct_kind(c: char) -> Option<TokenType> {
    if c == '-' {
        Some(TokenType::Minus)
    } else if c == '+' {
        Some(TokenType::Add)
    } else if c == '(' {
        Some(TokenType::LParen)
    } else if c == ')' {
        Some(TokenType::RParen)
    } else if c == '{' {
        Some(TokenType::LBrace)
    } else if c == '}' {
        Some(TokenType::RBrace)
    } else if c == '=' {
        Some(TokenType::Equal)
    } else if c == ',' {
        Some(TokenType::Comma)
    } else {
        None
    }
}

/// The directive that a lowercase word (with its leading `.`) names, if any.
pub open spec fn keyword_kind(w: Seq<char>) -> Option<TokenType> {
    if w == ".end"@ {
        Some(TokenType::End)
    } else if w == ".ends"@ {
        Some(TokenType::Ends)
    } else if w == ".tran"@ {
        Some(TokenType::Tran)
    } else if w == ".dc"@ {
        Some(TokenType::Dc)
    } else if w == ".ac"@ {
        Some(TokenType::Ac)
    } else if w == ".op"@ {
        Some(TokenType::Op)
    } else if w == ".subckt"@ {
        Some(TokenType::Subckt)
    } else if w == ".plot"@ {
        Some(TokenType::Plot)
    } else if w == ".wave"@ {
        Some(TokenType::Wave)
    } else {
        None
    }
}

// ----- runs of characters -----

/// The end of the run of digits that starts at `i`.
pub open spec fn digits_end(s: Seq<char>, i: nat) -> nat
    decreases s.len() - i,
{
    if i < s.len() && is_digit_char(s[i as int]) {
        digits_end(s, i + 1)
    } else {
        i
    }
}

/// The end of the run of letters that starts at `i`.
pub open spec fn alpha_end(s: Seq<char>, i: nat) -> nat
    decreases s.len() - i,
{
    if i < s.len() && is_alpha_char(s[i as int]) {
        alpha_end(s, i + 1)
    } else {
        i
    }
}

/// The end of the run of letters and digits that starts at `i`.
pub open spec fn alnum_end(s: Seq<char>, i: nat) -> nat
    decreases s.len() - i,
{
    if i < s.len() && is_alnum_char(s[i as int]) {
        alnum_end(s, i + 1)
    } else {
        i
    }
}

/// The position of the first newline at or after `i`, or the end of the text.
pub open spec fn line_end(s: Seq<char>, i: nat) -> nat
    decreases s.len() - i,
{
    if i < s.len() && s[i as int] != '\n' {
        line_end(s, i + 1)
    } else {
        i
    }
}

/// The end of an unsigned decimal starting at `i`: digits, then `.` and digits if
/// a digit follows the `.`.
pub open spec fn number_end(s: Seq<char>, i: nat) -> nat {
    let j = digits_end(s, i);
    if j + 1 < s.len() && s[j as int] == '.' && is_digit_char(s[j + 1int]) {
        digits_end(s, j + 1)
    } else {
        j
    }
}

/// The end of a unit suffix at `j`: a letter followed by letters and digits.
pub open spec fn unit_end(s: Seq<char>, j: nat) -> nat {
    if j < s.len() && is_alpha_char(s[j as int]) {
        alnum_end(s, j)
    } else {
        j
    }
}

/// At `j` stands an exponent marker: a lone `E` or `e` (no letter follows it).
pub open spec fn is_exp_marker(s: Seq<char>, j: nat) -> bool {
    j < s.len() && (s[j as int] == 'e' || s[j as int] == 'E') && !(j + 1 < s.len()
        && is_alpha_char(s[j + 1int]))
}

pub open spec fn unit_tokens(s: Seq<char>, j: nat, line: nat, col: nat) -> Seq<SpecToken> {
    if unit_end(s, j) > j {
        seq![tok(TokenType::Unit, line, col, s.subrange(j as int, unit_end(s, j) as int))]
    } else {
        seq![]
    }
}

pub open spec fn sign_kind(c: char) -> TokenType {
    if c == '-' {
        TokenType::Minus
    } else {
        TokenType::Add
    }
}

/// The first part of a numeric literal at the digit `i` (column `col`): the
/// number, then either a lone `E`/`e` that follows its last digit with a sign
/// if any, or a unit suffix if one follows. Also the position after that part,
/// and whether an exponent, itself a numeric literal, starts there.
pub open spec fn number_head(s: Seq<char>, i: nat, line: nat, col: nat) -> (Seq<SpecToken>, nat, bool) {
    let j = number_end(s, i);
    let num = tok(TokenType::Number, line, col, s.subrange(i as int, j as int));
    let cj = (col + j - i) as nat;
    if is_exp_marker(s, j) {
        let e = tok(TokenType::E, line, cj, s.subrange(j as int, j + 1int));
        let k = (j + 1) as nat;
        let has_sign = k < s.len() && (s[k as int] == '-' || s[k as int] == '+');
        let sign = if has_sign {
            seq![tok(sign_kind(s[k as int]), line, (col + k - i) as nat, s.subrange(k as int, k + 1int))]
        } else {
            seq![]
        };
        let k2 = if has_sign { (k + 1) as nat } else { k };
        (seq![num, e] + sign, k2, i < k2 && k2 < s.len() && is_digit_char(s[k2 as int]))
    } else {
        (seq![num] + unit_tokens(s, j, line, cj), unit_end(s, j), false)
    }
}

/// The tokens of the numeric literal that starts with the digit at `i`, whose
/// column is `col`, and the position after it. An exponent is read as a
/// numeric literal in turn, so it may carry an exponent or a unit of its own.
pub open spec fn number_step(s: Seq<char>, i: nat, line: nat, col: nat) -> (Seq<SpecToken>, nat)
    decreases s.len() - i,
{
    let (h, next, more) = number_head(s, i, line, col);
    if more {
        let (rest, n) = number_step(s, next, line, (col + next - i) as nat);
        (h + rest, n)
    } else {
        (h, next)
    }
}

/// What one scanning step at position `i` produces.
pub struct Step {
    pub tokens: Seq<SpecToken>,
    pub errors: Seq<SpecError>,
    pub next: nat,
    pub line: nat,
    pub column: nat,
}

pub open spec fn lex_error(message: Seq<char>, line: nat, column: nat) -> SpecError {
    SpecError { kind: ErrorType::Lexical, message, line, column }
}

/// One scanning step at position `i` (line `line`, column `col`).
#[verifier::opaque]
pub open spec fn step(s: Seq<char>, i: nat, line: nat, col: nat) -> Step {
    let c = s[i as int];
    if c == '*' || c == ';' {
        let e = line_end(s, i);
        Step { tokens: seq![], errors: seq![], next: e, line, column: (col + e - i) as nat }
    } else if punct_kind(c).is_some() {
        Step {
            tokens: seq![tok(punct_kind(c).unwrap(), line, col, seq![c])],
            errors: seq![],
            next: i + 1,
            line,
            column: col + 1,
        }
    } else if c == '.' {
        let a = alpha_end(s, i + 1);
        let w = word_lower(s.subrange(i as int, a as int));
        let col2 = (col + a - i) as nat;
        match keyword_kind(w) {
            Some(k) => Step { tokens: seq![tok(k, line, col, w)], errors: seq![], next: a, line, column: col2 },
            None => Step {
                tokens: seq![],
                errors: seq![lex_error("Unexpected command: "@ + w, line, col)],
                next: a,
                line,
                column: col2,
            },
        }
    } else if c == ' ' || c == '\r' || c == '\t' {
        Step { tokens: seq![], errors: seq![], next: i + 1, line, column: col + 1 }
    } else if c == '\n' {
        Step { tokens: seq![], errors: seq![], next: i + 1, line: line + 1, column: 1 }
    } else if is_alpha_char(c) {
        let a = alnum_end(s, i);
        Step {
            tokens: seq![tok(TokenType::Identifier, line, col, s.subrange(i as int, a as int))],
            errors: seq![],
            next: a,
            line,
            column: (col + a - i) as nat,
        }
    } else if is_digit_char(c) {
        let (t, n) = number_step(s, i, line, col);
        Step { tokens: t, errors: seq![], next: n, line, column: (col + n - i) as nat }
    } else {
        Step {
            tokens: seq![],
            errors: seq![lex_error("Unexpected character: "@.push(c), line, col)],
            next: i + 1,
            line,
            column: col + 1,
        }
    }
}

pub open spec fn ends_with_end(t: Seq<SpecToken>) -> bool {
    t.len() > 0 && t.last().kind == TokenType::End
}

/// The result of scanning from a position to the end of the text or to `.end`.
pub struct Scan {
    pub tokens: Seq<SpecToken>,
    pub errors: Seq<SpecError>,
    pub line: nat,
    pub column: nat,
}

/// Scans from position `i`; stops at the end of the text or after an `.end`
/// directive. (Each step advances within the text: the guard on `next` never
/// fires.)
pub open spec fn scan_from(s: Seq<char>, i: nat, line: nat, col: nat) -> Scan
    decreases s.len() - i,
{
    if i >= s.len() {
        Scan { tokens: seq![], errors: seq![], line, column: col }
    } else {
        let st = step(s, i, line, col);
        if st.next <= i || st.next > s.len() || ends_with_end(st.tokens) {
            Scan { tokens: st.tokens, errors: st.errors, line: st.line, column: st.column }
        } else {
            let r = scan_from(s, st.next, st.line, st.column);
            Scan {
                tokens: st.tokens + r.tokens,
                errors: st.errors + r.errors,
                line: r.line,
                column: r.column,
            }
        }
    }
}

/// The tokens of a source text, ending with the end-of-file token.
pub open spec fn lex_tokens(s: Seq<char>) -> Seq<SpecToken> {
    let r = scan_from(s, 0, 1, 1);
    r.tokens.push(tok(TokenType::Eof, r.line, r.column, seq![]))
}

/// The lexical errors of a source text, in source order.
pub open spec fn lex_errors(s: Seq<char>) -> Seq<SpecError> {
    scan_from(s, 0, 1, 1).errors
}

// ----- executable scanning helpers -----

fn digits_end_exec(s: &Vec<char>, i: usize) -> (r: usize)
    requires
        i <= s@.len(),
    ensures
        r == digits_end(s@, i as nat),
        i <= r <= s@.len(),
        i < s@.len() && is_digit_char(s@[i as int]) ==> r > i,
{
    let mut j = i;
    while j < s.len() && is_digit(s[j])
        invariant
            i <= j <= s@.len(),
            digits_end(s@, j as nat) == digits_end(s@, i as nat),
        decreases s@.len() - j,
    {
        j += 1;
    }
    j
}

fn alpha_end_exec(s: &Vec<char>, i: usize) -> (r: usize)
    requires
        i <= s@.len(),
    ensures
        r == alpha_end(s@, i as nat),
        i <= r <= s@.len(),
{
    let mut j = i;
    while j < s.len() && is_alpha(s[j])
        invariant
            i <= j <= s@.len(),
            alpha_end(s@, j as nat) == alpha_end(s@, i as nat),
        decreases s@.len() - j,
    {
        j += 1;
    }
    j
}

fn alnum_end_exec(s: &Vec<char>, i: usize) -> (r: usize)
    requires
        i <= s@.len(),
    ensures
        r == alnum_end(s@, i as nat),
        i <= r <= s@.len(),
{
    let mut j = i;
    while j < s.len() && is_alphanumeric(s[j])
        invariant
            i <= j <= s@.len(),
            alnum_end(s@, j as nat) == alnum_end(s@, i as nat),
        decreases s@.len() - j,
    {
        j += 1;
    }
    j
}

fn line_end_exec(s: &Vec<char>, i: usize) -> (r: usize)
    requires
        i <= s@.len(),
    ensures
        r == line_end(s@, i as nat),
        i <= r <= s@.len(),
{
    let mut j = i;
    while j < s.len() && s[j] != '\n'
        invariant
            i <= j <= s@.len(),
            line_end(s@, j as nat) == line_end(s@, i as nat),
        decreases s@.len() - j,
    {
        j += 1;
    }
    j
}

fn number_end_exec(s: &Vec<char>, i: usize) -> (r: usize)
    requires
        i <= s@.len(),
    ensures
        r == number_end(s@, i as nat),
        i <= r <= s@.len(),
        i < s@.len() && is_digit_char(s@[i as int]) ==> r > i,
{
    let j = digits_end_exec(s, i);
    if j < s.len() && s[j] == '.' && j + 1 < s.len() && is_digit(s[j + 1]) {
        digits_end_exec(s, j + 1)
    } else {
        j
    }
}

fn unit_end_exec(s: &Vec<char>, j: usize) -> (r: usize)
    requires
        j <= s@.len(),
    ensures
        r == unit_end(s@, j as nat),
        j <= r <= s@.len(),
{
    if j < s.len() && is_alpha(s[j]) {
        alnum_end_exec(s, j)
    } else {
        j
    }
}

/// The characters `from..to` as a string.
fn slice_text(s: &Vec<char>, from: usize, to: usize) -> (r: String)
    requires
        from <= to <= s@.len(),
    ensures
        r@ == s@.subrange(from as int, to as int),
{
    let mut r = String::new();
    let mut k = from;
    while k < to
        invariant
            from <= k <= to <= s@.len(),
            r@ == s@.subrange(from as int, k as int),
        decreases to - k,
    {
        push_char(&mut r, s[k]);
        k += 1;
        assert(r@ =~= s@.subrange(from as int, k as int));
    }
    r
}

/// The lowercase form of the characters `from..to`.
pub(crate) fn lower_text(s: &Vec<char>, from: usize, to: usize) -> (r: String)
    requires
        from <= to <= s@.len(),
    ensures
        r@ == lower(s@.subrange(from as int, to as int)),
{
    let mut r = String::new();
    let mut k = from;
    while k < to
        invariant
            from <= k <= to <= s@.len(),
            r@ == lower(s@.subrange(from as int, k as int)),
        decreases to - k,
    {
        let c = s[k];
        let lc = if 'A' <= c && c <= 'Z' {
            ((c as u8) + 32) as char
        } else {
            c
        };
        assert(lc == lower_char(c));
        push_char(&mut r, lc);
        k += 1;
        assert(r@ =~= lower(s@.subrange(from as int, k as int)));
    }
    r
}

pub fn is_digit(c: char) -> (r: bool)
    ensures
        r == is_digit_char(c),
{
    '0' <= c && c <= '9'
}

/// Relies on char::is_uppercase: whether the character has the Uppercase property.
#[verifier::external_body]
fn char_is_uppercase(c: char) -> (r: bool)
    ensures
        r == is_upper_of(c),
{
    c.is_uppercase()
}

/// Relies on char::is_lowercase: whether the character has the Lowercase property.
#[verifier::external_body]
fn char_is_lowercase(c: char) -> (r: bool)
    ensures
        r == is_lower_of(c),
{
    c.is_lowercase()
}

/// Relies on str::to_lowercase: the Unicode lowercase mapping of the text.
#[verifier::external_body]
fn text_to_lowercase(s: &String) -> (r: String)
    ensures
        r@ == to_lower_of(s@),
{
    s.to_lowercase()
}

pub fn is_alpha(c: char) -> (r: bool)
    ensures
        r == is_alpha_char(c),
{
    if (c as u32) < 128 {
        ('a' <= c && c <= 'z') || ('A' <= c && c <= 'Z') || c == '_'
    } else {
        char_is_uppercase(c) || char_is_lowercase(c)
    }
}

/// The lowercase form of the directive word `from..to`.
fn word_lower_text(s: &Vec<char>, from: usize, to: usize) -> (r: String)
    requires
        from <= to <= s@.len(),
    ensures
        r@ == word_lower(s@.subrange(from as int, to as int)),
{
    let ghost w = s@.subrange(from as int, to as int);
    let mut k = from;
    while k < to
        invariant
            from <= k <= to <= s@.len(),
            w == s@.subrange(from as int, to as int),
            forall|i: int| from <= i < k ==> is_ascii_char(#[trigger] s@[i]),
        decreases to - k,
    {
        if (s[k] as u32) >= 128 {
            assert(!is_ascii_char(w[k - from]));
            let text = slice_text(s, from, to);
            return text_to_lowercase(&text);
        }
        k += 1;
    }
    assert(all_ascii(w)) by {
        assert forall|i: int| 0 <= i < w.len() implies is_ascii_char(#[trigger] w[i]) by {
            assert(w[i] == s@[from + i]);
        }
    }
    lower_text(s, from, to)
}

pub fn is_alphanumeric(c: char) -> (r: bool)
    ensures
        r == is_alnum_char(c),
{
    is_alpha(c) || is_digit(c)
}

} // verus!

verus! {

/// Scanner state over the characters of one source text.
pub struct Lexer {
    content: Vec<char>,
    current: usize,
    line: usize,
    column: usize,
    tokens: Vec<Token>,
    error_handler: ErrorHandler,
}

/// Relies on str::chars: the characters of the text, in order.
#[verifier::external_body]
pub(crate) fn chars_of(s: &String) -> (r: Vec<char>)
    ensures
        r@ == s@,
{
    s.chars().collect()
}

/// The directive kind of a lowercase word, if it names one.
fn keyword_kind_exec(w: &String) -> (r: Option<TokenType>)
    ensures
        r == keyword_kind(w@),
{
    if *w == String::from_str(".end") {
        Some(TokenType::End)
    } else if *w == String::from_str(".ends") {
        Some(TokenType::Ends)
    } else if *w == String::from_str(".tran") {
        Some(TokenType::Tran)
    } else if *w == String::from_str(".dc") {
        Some(TokenType::Dc)
    } else if *w == String::from_str(".ac") {
        Some(TokenType::Ac)
    } else if *w == String::from_str(".op") {
        Some(TokenType::Op)
    } else if *w == String::from_str(".subckt") {
        Some(TokenType::Subckt)
    } else if *w == String::from_str(".plot") {
        Some(TokenType::Plot)
    } else if *w == String::from_str(".wave") {
        Some(TokenType::Wave)
    } else {
        None
    }
}

fn punct_kind_exec(c: char) -> (r: Option<TokenType>)
    ensures
        r == punct_kind(c),
{
    if c == '-' {
        Some(TokenType::Minus)
    } else if c == '+' {
        Some(TokenType::Add)
    } else if c == '(' {
        Some(TokenType::LParen)
    } else if c == ')' {
        Some(TokenType::RParen)
    } else if c == '{' {
        Some(TokenType::LBrace)
    } else if c == '}' {
        Some(TokenType::RBrace)
    } else if c == '=' {
        Some(TokenType::Equal)
    } else if c == ',' {
        Some(TokenType::Comma)
    } else {
        None
    }
}

impl Lexer {
    /// The text being scanned.
    pub closed spec fn source(&self) -> Seq<char> {
        self.content@
    }

    /// The scanning position: the index of the next character, its line and
    /// its column.
    pub closed spec fn position(&self) -> (nat, nat, nat) {
        (self.current as nat, self.line as nat, self.column as nat)
    }

    /// The tokens produced so far.
    pub closed spec fn token_list(&self) -> Seq<SpecToken> {
        crate::token::token_views(self.tokens@)
    }

    /// The lexical errors found so far.
    pub closed spec fn error_list(&self) -> Seq<SpecError> {
        self.error_handler@
    }

    /// Nothing has been scanned yet: at the first character, line 1, column 1,
    /// with no token and no error.
    pub open spec fn is_fresh(&self) -> bool {
        &&& self.position() == (0nat, 1nat, 1nat)
        &&& self.token_list().len() == 0
        &&& self.error_list().len() == 0
    }

    spec fn inv(&self) -> bool {
        &&& self.current <= self.content@.len() < usize::MAX
        &&& self.line <= self.current + 1
        &&& self.column <= self.current + 1
    }

    spec fn emitted(&self) -> Seq<SpecToken> {
        crate::token::token_views(self.tokens@)
    }

    pub fn new(source: String) -> (r: Self)
        ensures
            r.source() == source@,
            r.is_fresh(),
    {
        Lexer {
            content: chars_of(&source),
            current: 0,
            line: 1,
            column: 1,
            tokens: Vec::new(),
            error_handler: ErrorHandler::new(),
        }
    }

    fn is_eof(&self) -> (r: bool)
        ensures
            r == (self.current >= self.content@.len()),
    {
        self.current >= self.content.len()
    }

    fn add_token(&mut self, token_type: TokenType, line: usize, column: usize, content: String)
        ensures
            final(self).emitted() == old(self).emitted().push(tok(token_type, line as nat, column as nat, content@)),
            final(self).content == old(self).content,
            final(self).current == old(self).current,
            final(self).line == old(self).line,
            final(self).column == old(self).column,
            final(self).error_handler@ == old(self).error_handler@,
    {
        let t = Token::new(token_type, line, column, content);
        self.tokens.push(t);
        assert(self.emitted() =~= old(self).emitted().push(t@));
    }

    /// Emits a unit suffix starting at `j`, if one stands there; returns its end.
    fn unit(&mut self, j: usize, line: usize, column: usize) -> (u: usize)
        requires
            j <= old(self).content@.len(),
        ensures
            u == unit_end(old(self).content@, j as nat),
            j <= u <= old(self).content@.len(),
            final(self).emitted() == old(self).emitted() + unit_tokens(
                old(self).content@,
                j as nat,
                line as nat,
                column as nat,
            ),
            final(self).content == old(self).content,
            final(self).current == old(self).current,
            final(self).line == old(self).line,
            final(self).column == old(self).column,
            final(self).error_handler@ == old(self).error_handler@,
    {
        let u = unit_end_exec(&self.content, j);
        if u > j {
            let text = slice_text(&self.content, j, u);
            self.add_token(TokenType::Unit, line, column, text);
        }
        assert(self.emitted() =~= old(self).emitted() + unit_tokens(
            old(self).content@,
            j as nat,
            line as nat,
            column as nat,
        ));
        u
    }

    /// Emits the first part of the numeric literal at `i` (see `number_head`);
    /// returns the position after it and whether an exponent starts there.
    fn number_head(&mut self, i: usize, line: usize, col: usize) -> (r: (usize, bool))
        requires
            i < old(self).content@.len() < usize::MAX,
            is_digit_char(old(self).content@[i as int]),
            col <= i + 1,
        ensures
            ({
                let h = number_head(old(self).content@, i as nat, line as nat, col as nat);
                &&& final(self).emitted() == old(self).emitted() + h.0
                &&& r.0 == h.1
                &&& r.1 == h.2
                &&& i < r.0 <= old(self).content@.len()
                &&& forall|k: int| 0 <= k < h.0.len() ==> #[trigger] h.0[k].kind != TokenType::End
            }),
            final(self).content == old(self).content,
            final(self).current == old(self).current,
            final(self).line == old(self).line,
            final(self).column == old(self).column,
            final(self).error_handler@ == old(self).error_handler@,
    {
        let ghost s = self.content@;
        let ghost h = number_head(s, i as nat, line as nat, col as nat);
        let n = self.content.len();
        let j = number_end_exec(&self.content, i);
        let text = slice_text(&self.content, i, j);
        self.add_token(TokenType::Number, line, col, text);
        let marker = j < n && (self.content[j] == 'e' || self.content[j] == 'E') && !(j + 1 < n
            && is_alpha(self.content[j + 1]));
        if marker {
            let text = slice_text(&self.content, j, j + 1);
            self.add_token(TokenType::E, line, col + (j - i), text);
            let mut k = j + 1;
            if k < n && (self.content[k] == '-' || self.content[k] == '+') {
                let kind = if self.content[k] == '-' {
                    TokenType::Minus
                } else {
                    TokenType::Add
                };
                let text = slice_text(&self.content, k, k + 1);
                self.add_token(kind, line, col + (k - i), text);
                k = k + 1;
            }
            assert(self.emitted() =~= old(self).emitted() + h.0);
            (k, k < n && is_digit(self.content[k]))
        } else {
            let u = self.unit(j, line, col + (j - i));
            assert(self.emitted() =~= old(self).emitted() + h.0);
            (u, false)
        }
    }

    /// Scans a numeric literal at the cursor: the number, and an exponent (read
    /// the same way) or a unit suffix where one follows it directly.
    fn number(&mut self)
        requires
            old(self).inv(),
            old(self).current < old(self).content@.len(),
            is_digit_char(old(self).content@[old(self).current as int]),
        ensures
            final(self).inv(),
            final(self).content == old(self).content,
            final(self).line == old(self).line,
            final(self).error_handler@ == old(self).error_handler@,
            ({
                let (t, n) = number_step(
                    old(self).content@,
                    old(self).current as nat,
                    old(self).line as nat,
                    old(self).column as nat,
                );
                &&& final(self).emitted() == old(self).emitted() + t
                &&& final(self).current == n
                &&& n > old(self).current
                &&& final(self).column == old(self).column + n - old(self).current
                &&& !ends_with_end(t)
            }),
    {
        let ghost s = self.content@;
        let start = self.current;
        let line = self.line;
        let col0 = self.column;
        let ghost total = number_step(s, start as nat, line as nat, col0 as nat);
        let ghost base = self.emitted();
        let ghost mut done: Seq<SpecToken> = seq![];
        assert(self.emitted() =~= base + done);
        let mut i = start;
        let mut col = col0;
        loop
            invariant_except_break
                self.content == old(self).content,
                self.current == start,
                self.line == line,
                self.column == col0,
                self.error_handler@ == old(self).error_handler@,
                col0 <= start + 1,
                s.len() < usize::MAX,
                start <= i < s.len(),
                s == self.content@,
                is_digit_char(s[i as int]),
                col == col0 + (i - start),
                self.emitted() == base + done,
                forall|k: int| 0 <= k < done.len() ==> #[trigger] done[k].kind != TokenType::End,
                done + number_step(s, i as nat, line as nat, col as nat).0 == total.0,
                number_step(s, i as nat, line as nat, col as nat).1 == total.1,
            ensures
                self.content == old(self).content,
                self.line == line,
                self.error_handler@ == old(self).error_handler@,
                self.emitted() == base + done,
                done == total.0,
                forall|k: int| 0 <= k < done.len() ==> #[trigger] done[k].kind != TokenType::End,
                self.current == total.1,
                total.1 > start,
                total.1 <= s.len(),
                self.column == col0 + total.1 - start,
            decreases s.len() - i,
        {
            let ghost h = number_head(s, i as nat, line as nat, col as nat);
            let (next, more) = self.number_head(i, line, col);
            proof {
                assert(self.emitted() =~= base + (done + h.0));
                done = done + h.0;
            }
            if more {
                col = col + (next - i);
                i = next;
                assert(done + number_step(s, i as nat, line as nat, col as nat).0 =~= total.0);
            } else {
                assert(done =~= total.0);
                self.current = next;
                self.column = col0 + (next - start);
                break;
            }
        }
        proof {
            let t = total.0;
            if t.len() > 0 {
                assert(t.last() == done[done.len() - 1]);
            }
        }
    }

    /// Scans an identifier at the cursor.
    fn identifier(&mut self)
        requires
            old(self).inv(),
            old(self).current < old(self).content@.len(),
            is_alpha_char(old(self).content@[old(self).current as int]),
        ensures
            final(self).inv(),
            final(self).content == old(self).content,
            final(self).line == old(self).line,
            final(self).error_handler@ == old(self).error_handler@,
            ({
                let a = alnum_end(old(self).content@, old(self).current as nat);
                &&& final(self).emitted() == old(self).emitted().push(
                    tok(
                        TokenType::Identifier,
                        old(self).line as nat,
                        old(self).column as nat,
                        old(self).content@.subrange(old(self).current as int, a as int),
                    ),
                )
                &&& final(self).current == a
                &&& a > old(self).current
                &&& final(self).column == old(self).column + a - old(self).current
            }),
    {
        let i = self.current;
        let a = alnum_end_exec(&self.content, i + 1);
        let text = slice_text(&self.content, i, a);
        self.add_token(TokenType::Identifier, self.line, self.column, text);
        self.current = a;
        self.column = self.column + (a - i);
    }

    /// Scans a directive at the `.` under the cursor; returns whether it is `.end`.
    fn command(&mut self) -> (ended: bool)
        requires
            old(self).inv(),
            old(self).current < old(self).content@.len(),
            old(self).content@[old(self).current as int] == '.',
        ensures
            final(self).inv(),
            final(self).content == old(self).content,
            ({
                let st = step(
                    old(self).content@,
                    old(self).current as nat,
                    old(self).line as nat,
                    old(self).column as nat,
                );
                &&& final(self).emitted() == old(self).emitted() + st.tokens
                &&& final(self).error_handler@ == old(self).error_handler@ + st.errors
                &&& final(self).current == st.next
                &&& st.next > old(self).current
                &&& final(self).line == st.line
                &&& final(self).column == st.column
                &&& ended == ends_with_end(st.tokens)
            }),
    {
        reveal(step);
        let ghost s = self.content@;
        let i = self.current;
        let line = self.line;
        let col = self.column;
        let a = alpha_end_exec(&self.content, i + 1);
        let w = word_lower_text(&self.content, i, a);
        let kind = keyword_kind_exec(&w);
        let ended;
        match kind {
            Some(k) => {
                self.add_token(k, line, col, w);
                ended = k == TokenType::End;
            },
            None => {
                let mut msg = String::from_str("Unexpected command: ");
                msg.append(w.as_str());
                self.error_handler.add_error(Error::new(ErrorType::Lexical, msg, line, col));
                ended = false;
            },
        }
        self.current = a;
        self.column = col + (a - i);
        let ghost st = step(s, i as nat, line as nat, col as nat);
        assert(self.emitted() =~= old(self).emitted() + st.tokens);
        assert(self.error_handler@ =~= old(self).error_handler@ + st.errors);
        ended
    }

    /// One scanning step at the cursor; returns whether it produced `.end`.
    fn scan_token(&mut self) -> (ended: bool)
        requires
            old(self).inv(),
            old(self).current < old(self).content@.len(),
        ensures
            final(self).inv(),
            final(self).content == old(self).content,
            ({
                let st = step(
                    old(self).content@,
                    old(self).current as nat,
                    old(self).line as nat,
                    old(self).column as nat,
                );
                &&& final(self).emitted() == old(self).emitted() + st.tokens
                &&& final(self).error_handler@ == old(self).error_handler@ + st.errors
                &&& final(self).current == st.next
                &&& st.next > old(self).current
                &&& final(self).line == st.line
                &&& final(self).column == st.column
                &&& ended == ends_with_end(st.tokens)
            }),
    {
        reveal(step);
        let ghost s = self.content@;
        let ghost st = step(s, self.current as nat, self.line as nat, self.column as nat);
        let i = self.current;
        let c = self.content[i];
        if c == '*' || c == ';' {
            let e = line_end_exec(&self.content, i + 1);
            self.column = self.column + (e - i);
            self.current = e;
            assert(self.emitted() =~= old(self).emitted() + st.tokens);
            assert(self.error_handler@ =~= old(self).error_handler@ + st.errors);
            false
        } else if let Some(k) = punct_kind_exec(c) {
            let text = slice_text(&self.content, i, i + 1);
            assert(text@ =~= seq![c]);
            self.add_token(k, self.line, self.column, text);
            self.current = i + 1;
            self.column = self.column + 1;
            assert(self.error_handler@ =~= old(self).error_handler@ + st.errors);
            false
        } else if c == '.' {
            self.command()
        } else if c == ' ' || c == '\r' || c == '\t' {
            self.current = i + 1;
            self.column = self.column + 1;
            assert(self.emitted() =~= old(self).emitted() + st.tokens);
            assert(self.error_handler@ =~= old(self).error_handler@ + st.errors);
            false
        } else if c == '\n' {
            self.current = i + 1;
            self.line = self.line + 1;
            self.column = 1;
            assert(self.emitted() =~= old(self).emitted() + st.tokens);
            assert(self.error_handler@ =~= old(self).error_handler@ + st.errors);
            false
        } else if is_alpha(c) {
            self.identifier();
            assert(self.emitted() =~= old(self).emitted() + st.tokens);
            assert(self.error_handler@ =~= old(self).error_handler@ + st.errors);
            false
        } else if is_digit(c) {
            self.number();
            assert(self.error_handler@ =~= old(self).error_handler@ + st.errors);
            false
        } else {
            let mut msg = String::from_str("Unexpected character: ");
            push_char(&mut msg, c);
            self.error_handler.add_error(Error::new(ErrorType::Lexical, msg, self.line, self.column));
            self.current = i + 1;
            self.column = self.column + 1;
            assert(self.emitted() =~= old(self).emitted() + st.tokens);
            assert(self.error_handler@ =~= old(self).error_handler@ + st.errors);
            false
        }
    }

    /// Scans the whole text: the tokens, ending with the end-of-file token, and
    /// the lexical errors, in source order. Scanning stops after `.end`.
    pub fn tokenize(self) -> (r: (Vec<Token>, ErrorHandler))
        requires
            self.is_fresh(),
            self.source().len() < usize::MAX,
        ensures
            crate::token::token_views(r.0@) == lex_tokens(self.source()),
            r.1@ == lex_errors(self.source()),
    {
        let mut lx = self;
        let ghost s = lx.content@;
        let ghost total = scan_from(s, 0, 1, 1);
        assert(lx.emitted() =~= seq![]);
        assert(lx.error_handler@ =~= seq![]);
        loop
            invariant_except_break
                lx.inv(),
                lx.content@ == s,
                lx.emitted() + scan_from(s, lx.current as nat, lx.line as nat, lx.column as nat).tokens
                    == total.tokens,
                lx.error_handler@ + scan_from(s, lx.current as nat, lx.line as nat, lx.column as nat).errors
                    == total.errors,
                scan_from(s, lx.current as nat, lx.line as nat, lx.column as nat).line == total.line,
                scan_from(s, lx.current as nat, lx.line as nat, lx.column as nat).column == total.column,
            ensures
                lx.inv(),
                lx.content@ == s,
                lx.emitted() == total.tokens,
                lx.error_handler@ == total.errors,
                lx.line == total.line,
                lx.column == total.column,
            decreases s.len() - lx.current,
        {
            if lx.is_eof() {
                assert(lx.emitted() =~= total.tokens);
                assert(lx.error_handler@ =~= total.errors);
                break;
            }
            let ghost before_t = lx.emitted();
            let ghost before_e = lx.error_handler@;
            let ghost st = step(s, lx.current as nat, lx.line as nat, lx.column as nat);
            let ghost rest = scan_from(s, st.next, st.line, st.column);
            let ended = lx.scan_token();
            if ended {
                break;
            }
            assert(before_t + (st.tokens + rest.tokens) =~= lx.emitted() + rest.tokens);
            assert(before_e + (st.errors + rest.errors) =~= lx.error_handler@ + rest.errors);
        }
        let eof = Token::new(TokenType::Eof, lx.line, lx.column, String::new());
        lx.tokens.push(eof);
        assert(lx.emitted() =~= lex_tokens(s));
        (lx.tokens, lx.error_handler)
    }

    /// Scans the whole text and groups the tokens into cards; returns the cards
    /// and the lexical errors.
    pub fn scan(self) -> (r: (Vec<Card>, ErrorHandler))
        requires
            self.is_fresh(),
            self.source().len() < usize::MAX,
        ensures
            crate::token::card_views(r.0@) == cards_of(lex_tokens(self.source())),
            r.1@ == lex_errors(self.source()),
    {
        let (tokens, errors) = self.tokenize();
        (assemble_cards(&tokens), errors)
    }

    /// The cards of the text when it has no lexical error, else the errors.
    pub fn scan_tokens(self) -> (r: Result<Vec<Card>, ErrorHandler>)
        requires
            self.is_fresh(),
            self.source().len() < usize::MAX,
        ensures
            lex_errors(self.source()).len() == 0 <==> r is Ok,
            r matches Ok(cards) ==> crate::token::card_views(cards@) == cards_of(lex_tokens(self.source())),
            r matches Err(e) ==> e@ == lex_errors(self.source()),
    {
        let (cards, errors) = self.scan();
        if errors.has_errors() {
            Err(errors)
        } else {
            Ok(cards)
        }
    }
}

// ----- cards -----

/// Token `k` is a continuation marker: a `+` that begins a new line.
pub open spec fn is_continuation(t: Seq<SpecToken>, k: int) -> bool {
    0 < k < t.len() && t[k].kind == TokenType::Add && t[k].line != t[k - 1].line
}

/// Token `k` begins a new card: the first token, the end-of-file token, or the
/// first token of a line that is not a continuation.
pub open spec fn starts_card(t: Seq<SpecToken>, k: int) -> bool {
    k == 0 || t[k].kind == TokenType::Eof || (t[k].line != t[k - 1].line && !is_continuation(t, k))
}

/// The tokens grouped into cards: a card per logical statement, the
/// continuation markers dropped, and the end-of-file token in a card of its own.
pub open spec fn cards_of(t: Seq<SpecToken>) -> Seq<Seq<SpecToken>>
    decreases t.len(),
{
    if t.len() == 0 {
        seq![]
    } else {
        let prev = cards_of(t.drop_last());
        let k = t.len() - 1;
        if starts_card(t, k) || prev.len() == 0 {
            prev.push(seq![t[k]])
        } else if is_continuation(t, k) {
            prev
        } else {
            prev.update(prev.len() - 1, prev.last().push(t[k]))
        }
    }
}

/// Groups tokens into cards.
pub fn assemble_cards(tokens: &Vec<Token>) -> (r: Vec<Card>)
    ensures
        crate::token::card_views(r@) == cards_of(crate::token::token_views(tokens@)),
{
    let ghost tv = crate::token::token_views(tokens@);
    let mut cards: Vec<Card> = Vec::new();
    let mut cur: Vec<Token> = Vec::new();
    let mut k: usize = 0;
    while k < tokens.len()
        invariant
            k <= tokens@.len(),
            tv == crate::token::token_views(tokens@),
            k == 0 ==> cards@.len() == 0 && cur@.len() == 0,
            (if k == 0 {
                crate::token::card_views(cards@)
            } else {
                crate::token::card_views(cards@).push(crate::token::token_views(cur@))
            }) == cards_of(tv.take(k as int)),
        decreases tokens@.len() - k,
    {
        let ghost prev = cards_of(tv.take(k as int));
        assert(tv.take(k as int + 1).drop_last() =~= tv.take(k as int));
        let t = tokens[k].duplicate();
        let ghost x = t@;
        let ghost tk = tv.take(k as int + 1);
        assert(tk[k as int] == x);
        assert(k > 0 ==> tk[k as int - 1] == tv[k as int - 1]);
        assert(k > 0 ==> prev.len() > 0);
        assert(k == 0 ==> prev =~= seq![]);
        if k == 0 {
            cur.push(t);
            assert(crate::token::token_views(cur@) =~= seq![x]);
            assert(crate::token::card_views(cards@).push(crate::token::token_views(cur@)) =~= cards_of(
                tv.take(1),
            ));
        } else {
            let new_card = t.token_type == TokenType::Eof || tokens[k].line != tokens[k - 1].line
                && !(t.token_type == TokenType::Add);
            let continuation = t.token_type == TokenType::Add && tokens[k].line != tokens[k - 1].line;
            if new_card {
                let ghost old_cards = crate::token::card_views(cards@);
                let ghost old_cur = crate::token::token_views(cur@);
                let done = Card { tokens: cur };
                cards.push(done);
                cur = Vec::new();
                cur.push(t);
                assert(crate::token::card_views(cards@) =~= old_cards.push(old_cur));
                assert(crate::token::token_views(cur@) =~= seq![x]);
                assert(crate::token::card_views(cards@).push(crate::token::token_views(cur@)) =~= cards_of(
                    tv.take(k as int + 1),
                ));
            } else if continuation {
                assert(crate::token::card_views(cards@).push(crate::token::token_views(cur@)) =~= cards_of(
                    tv.take(k as int + 1),
                ));
            } else {
                let ghost old_cur = cur@;
                cur.push(t);
                assert(crate::token::token_views(cur@) =~= crate::token::token_views(old_cur).push(x));
                assert(crate::token::card_views(cards@).push(crate::token::token_views(cur@)) =~= cards_of(
                    tv.take(k as int + 1),
                ));
            }
        }
        k += 1;
    }
    if k > 0 {
        let done = Card { tokens: cur };
        cards.push(done);
    }
    assert(tv.take(k as int) =~= tv);
    assert(crate::token::card_views(cards@) =~= cards_of(tv));
    cards
}

} // verus!
