//! Lexical tokens and cards (logical statements).
use vstd::prelude::*;

verus! {

/// The kind of a lexical token.
#[derive(Debug, Clone, Copy, PartialEq, Eq, Structural)]
pub enum TokenType {
    Identifier,
    Number,
    Unit,
    /// The exponent marker `E`/`e` of a numeric literal.
    E,
    // Directives
    End,
    Ends,
    Tran,
    Dc,
    Ac,
    Op,
    Subckt,
    Plot,
    Wave,
    // Punctuation
    Equal,
    LParen,
    RParen,
    LBrace,
    RBrace,
    Comma,
    /// `+`; at the start of a line it marks a continuation.
    Add,
    Minus,
    Eof,
}

/// Mathematical view of a token.
pub struct SpecToken {
    pub kind: TokenType,
    pub line: nat,
    pub column: nat,
    pub lexeme: Seq<char>,
}

pub open spec fn tok(kind: TokenType, line: nat, column: nat, lexeme: Seq<char>) -> SpecToken {
    SpecToken { kind, line, column, lexeme }
}

/// A token with the 1-based line and column of its first character.
#[derive(Debug)]
pub struct Token {
    pub token_type: TokenType,
    pub line: usize,
    pub column: usize,
    pub content: String,
}

impl View for Token {
    type V = SpecToken;

    open spec fn view(&self) -> SpecToken {
        tok(self.token_type, self.line as nat, self.column as nat, self.content@)
    }
}

impl Token {
    pub fn new(token_type: TokenType, line: usize, column: usize, content: String) -> (r: Self)
        ensures
            r@ == tok(token_type, line as nat, column as nat, content@),
    {
        Token { token_type, line, column, content }
    }

    /// A token equal to this one.
    pub fn duplicate(&self) -> (r: Self)
        ensures
            r@ == self@,
    {
        Token {
            token_type: self.token_type,
            line: self.line,
            column: self.column,
            content: self.content.clone(),
        }
    }
}

/// One logical statement: the tokens of a line and of its continuation lines.
#[derive(Debug)]
pub struct Card {
    pub tokens: Vec<Token>,
}

pub open spec fn token_views(v: Seq<Token>) -> Seq<SpecToken> {
    v.map_values(|t: Token| t@)
}

impl View for Card {
    type V = Seq<SpecToken>;

    open spec fn view(&self) -> Seq<SpecToken> {
        token_views(self.tokens@)
    }
}

pub open spec fn card_views(v: Seq<Card>) -> Seq<Seq<SpecToken>> {
    v.map_values(|c: Card| c@)
}

} // verus!
