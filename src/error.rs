//! Structured diagnostics shared by the tokenizer and the parser.
use vstd::prelude::*;
use vstd::string::*;

verus! {

/// The class of a diagnostic.
#[derive(Debug, Clone, Copy, PartialEq, Eq, Structural)]
pub enum ErrorType {
    Lexical,
    Syntax,
    Semantic,
    Runtime,
    IOError,
}

/// Mathematical view of a diagnostic.
pub struct SpecError {
    pub kind: ErrorType,
    pub message: Seq<char>,
    pub line: nat,
    pub column: nat,
}

/// A diagnostic with its source position (1-based line and column).
#[derive(Debug)]
pub struct Error {
    pub error_type: ErrorType,
    pub message: String,
    pub line: usize,
    pub column: usize,
}

impl View for Error {
    type V = SpecError;

    open spec fn view(&self) -> SpecError {
        SpecError {
            kind: self.error_type,
            message: self.message@,
            line: self.line as nat,
            column: self.column as nat,
        }
    }
}

/// The character that writes decimal digit `d`.
pub open spec fn digit_char(d: nat) -> char {
    ((d % 10) + 48) as char
}

/// The decimal numeral of `n`, without leading zeros.
pub open spec fn decimal(n: nat) -> Seq<char>
    decreases n,
{
    if n < 10 {
        seq![digit_char(n)]
    } else {
        decimal(n / 10).push(digit_char(n % 10))
    }
}

/// The name under which an error class is displayed.
pub open spec fn kind_name(k: ErrorType) -> Seq<char> {
    match k {
        ErrorType::Lexical => "Lexical"@,
        ErrorType::Syntax => "Syntax"@,
        ErrorType::Semantic => "Semantic"@,
        ErrorType::Runtime => "Runtime"@,
        ErrorType::IOError => "IOError"@,
    }
}

/// `[<Kind> Error] Line: <L>, Column: <C>: <message>`
pub open spec fn error_text(e: SpecError) -> Seq<char> {
    "["@ + kind_name(e.kind) + " Error] Line: "@ + decimal(e.line) + ", Column: "@
        + decimal(e.column) + ": "@ + e.message
}

/// Relies on String::push: appends one character at the end.
#[verifier::external_body]
pub(crate) fn push_char(s: &mut String, c: char)
    ensures
        final(s)@ == old(s)@.push(c),
{
    s.push(c)
}

/// Appends the decimal numeral of `n`.
pub(crate) fn push_decimal(s: &mut String, n: usize)
    ensures
        final(s)@ == old(s)@ + decimal(n as nat),
    decreases n,
{
    if n >= 10 {
        push_decimal(s, n / 10);
    }
    let d = (n % 10) as u8;
    let c = (d + 48) as char;
    assert(c == digit_char(n as nat));
    push_char(s, c);
    assert(final(s)@ =~= old(s)@ + decimal(n as nat));
}

impl Error {
    pub fn new(error_type: ErrorType, message: String, line: usize, column: usize) -> (r: Self)
        ensures
            r.error_type == error_type,
            r.message@ == message@,
            r.line == line,
            r.column == column,
    {
        Error { error_type, message, line, column }
    }

    /// The display form `[<Kind> Error] Line: <L>, Column: <C>: <message>`.
    pub fn format(&self) -> (r: String)
        ensures
            r@ == error_text(self@),
    {
        let mut s = String::from_str("[");
        let name = match self.error_type {
            ErrorType::Lexical => "Lexical",
            ErrorType::Syntax => "Syntax",
            ErrorType::Semantic => "Semantic",
            ErrorType::Runtime => "Runtime",
            ErrorType::IOError => "IOError",
        };
        s.append(name);
        s.append(" Error] Line: ");
        push_decimal(&mut s, self.line);
        s.append(", Column: ");
        push_decimal(&mut s, self.column);
        s.append(": ");
        s.append(self.message.as_str());
        assert(s@ =~= error_text(self@));
        s
    }
}

/// Accumulates diagnostics in the order in which they are found.
#[derive(Debug)]
pub struct ErrorHandler {
    errors: Vec<Error>,
}

impl View for ErrorHandler {
    type V = Seq<SpecError>;

    closed spec fn view(&self) -> Seq<SpecError> {
        self.errors@.map_values(|e: Error| e@)
    }
}

impl ErrorHandler {
    pub fn new() -> (r: Self)
        ensures
            r@ == Seq::<SpecError>::empty(),
    {
        ErrorHandler { errors: Vec::new() }
    }

    pub fn add_error(&mut self, error: Error)
        ensures
            final(self)@ == old(self)@.push(error@),
    {
        self.errors.push(error);
        assert(final(self)@ =~= old(self)@.push(error@));
    }

    pub fn has_errors(&self) -> (r: bool)
        ensures
            r == (self@.len() > 0),
    {
        self.errors.len() > 0
    }

    /// Moves all of `other`'s diagnostics after this handler's own.
    pub fn absorb(&mut self, other: ErrorHandler)
        ensures
            final(self)@ == old(self)@ + other@,
    {
        let mut v = other.errors;
        let ghost a = self.errors@;
        let ghost b = v@;
        self.errors.append(&mut v);
        assert(self.errors@ == a + b);
        assert(final(self)@ =~= old(self)@ + other@);
    }

    /// The diagnostics, in the order in which they were added.
    pub fn errors(&self) -> (r: &Vec<Error>)
        ensures
            r@.map_values(|e: Error| e@) == self@,
    {
        &self.errors
    }
}

} // verus!
