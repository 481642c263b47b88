use nim_spice::lexer::Lexer;
use nim_spice::token::{Card, Token, TokenType};

fn cards(src: &str) -> Vec<Card> {
    match Lexer::new(src.to_string()).scan_tokens() {
        Ok(c) => c,
        Err(e) => {
            for x in e.errors() {
                println!("{}", x.format());
            }
            panic!("lexical errors")
        }
    }
}

fn tokens(src: &str) -> Vec<Token> {
    let (t, e) = Lexer::new(src.to_string()).tokenize();
    assert!(!e.has_errors());
    t
}

fn total(cards: &[Card]) -> usize {
    cards.iter().map(|c| c.tokens.len()).sum()
}

fn kinds(t: &[Token]) -> Vec<TokenType> {
    t.iter().map(|t| t.token_type).collect()
}

fn texts(t: &[Token]) -> Vec<String> {
    t.iter().map(|t| t.content.clone()).collect()
}

#[test]
fn test_lexer_1() {
    let source = "* This is a comment\n.end\n";
    let lexer = Lexer::new(source.into());
    match lexer.scan_tokens() {
        Ok(tokens) => {
            assert_eq!(tokens.len(), 1 + 1);
            assert_eq!(tokens[0].tokens[0].token_type, TokenType::End);
        }
        Err(errors) => {
            for e in errors.errors() {
                println!("{}", e.format());
            }
            panic!();
        }
    }
}

#[test]
fn lexer_test_lexer_1() {
    let source = "* This is a comment\n.end\n";
    let lexer = Lexer::new(source.into());
    let (tokens, errors) = lexer.tokenize();
    assert!(!errors.has_errors());
    assert_eq!(tokens.len(), 1 + 1);
    assert_eq!(tokens[0].token_type, TokenType::End);
}

#[test]
fn test_pure_comment() {
    let source = "* This is a comment\n";
    let c = cards(source);
    assert_eq!(c.len(), 1);
    assert_eq!(c[0].tokens[0].token_type, TokenType::Eof);
}

#[test]
fn test_lexer_2() {
    let source = "R1 R1_1 R1_2 13.12e6m;This is a comment\nV1 R1_1 GND 1 \n.wave V(XSC1_A) V(XSC1_B)\n.end\n";
    let c = cards(source);
    assert_eq!(total(&c), 22);
}

#[test]
fn lexer_test_lexer_2() {
    let source = "R1 R1_1 R1_2 13.12e6m;This is a comment\nV1 R1_1 GND 1 \n.wave V(XSC1_A) V(XSC1_B)\n.end\n";
    let t = tokens(source);
    // R1 R1_1 R1_2 13.12 E 6 m | V1 R1_1 GND 1 | .wave V ( XSC1_A ) V ( XSC1_B ) | .end | eof
    assert_eq!(t.len(), 22);
    assert_eq!(
        kinds(&t[3..7]),
        vec![TokenType::Number, TokenType::E, TokenType::Number, TokenType::Unit]
    );
}

const SHEET: &str = "** Sheet_1 ** \n R1 R1_1 R1_2 1K\n C1 C1_1 R1_2 1SADF\n L2 GND C1_1 1M\n XSC1 C1_1 GND GND GND R1_1 GND XSC1_A XSC1_B OSCILLOSCOPE \n V1 R1_1 GND 1\n .wave V(XSC1_A) V(XSC1_B) \n .SUBCKT  OSCILLOSCOPE 1  2  3 4 5 6 7 8\n B1 7 GND V=V(1,2)\n B2 8 GND V=V(3,4)\n .ENDS\n\n.tran 10m\n ";

#[test]
fn test_lexer_3() {
    let c = cards(SHEET);
    assert_eq!(total(&c), 75);
}

#[test]
fn lexer_test_lexer_3() {
    let t = tokens(SHEET);
    assert_eq!(t.len(), 75);
}

#[test]
fn test_number() {
    let source = "-1.2E+3.4m";
    let lexer = Lexer::new(source.into());
    let result = lexer.scan_tokens();
    let c = result.unwrap();
    assert_eq!(
        kinds(&c[0].tokens),
        vec![
            TokenType::Minus,
            TokenType::Number,
            TokenType::E,
            TokenType::Add,
            TokenType::Number,
            TokenType::Unit
        ]
    );
}

#[test]
fn lexer_test_number() {
    let source = "1.2E3.4m";
    let lexer = Lexer::new(source.into());
    let result = lexer.scan_tokens();
    let c = result.unwrap();
    assert_eq!(texts(&c[0].tokens), vec!["1.2", "E", "3.4", "m"]);
}

#[test]
fn digit_string_is_one_number() {
    for d in ["0", "7", "42", "000123", "98765432109876543210"] {
        let c = cards(d);
        assert_eq!(c.len(), 2);
        assert_eq!(c[0].tokens.len(), 1);
        assert_eq!(c[0].tokens[0].token_type, TokenType::Number);
        assert_eq!(c[0].tokens[0].content, d);
        assert_eq!(c[1].tokens[0].token_type, TokenType::Eof);
    }
}

#[test]
fn comment_length_does_not_matter() {
    for src in ["*\n.end\n", "* a much longer comment ; with * marks\n.end\n"] {
        let c = cards(src);
        assert_eq!(c.len(), 2);
        assert_eq!(c[0].tokens.len(), 1);
        assert_eq!(c[0].tokens[0].token_type, TokenType::End);
        assert_eq!((c[0].tokens[0].line, c[0].tokens[0].column), (2, 1));
        assert_eq!(c[1].tokens[0].token_type, TokenType::Eof);
    }
}

#[test]
fn continuation_merges_cards() {
    let src = "R1 a b\n+ 1K\nC1 a 0\n+ 1U\n+ \nV1 a 0 5\n";
    let c = cards(src);
    // three statements and the end-of-file card
    assert_eq!(c.len(), 4);
    assert_eq!(texts(&c[0].tokens), vec!["R1", "a", "b", "1", "K"]);
    assert_eq!(texts(&c[1].tokens), vec!["C1", "a", "0", "1", "U"]);
    assert_eq!(texts(&c[2].tokens), vec!["V1", "a", "0", "5"]);
}

#[test]
fn plus_inside_a_line_is_kept() {
    let c = cards("R1 a + b\n");
    assert_eq!(kinds(&c[0].tokens)[2], TokenType::Add);
}

#[test]
fn exponent_after_digit_only() {
    let t = tokens("1.2E3");
    assert_eq!(texts(&t[..3]), vec!["1.2", "E", "3"]);
    assert_eq!(kinds(&t[..3]), vec![TokenType::Number, TokenType::E, TokenType::Number]);
    let t = tokens("E1 e2 1 E3");
    assert_eq!(
        kinds(&t),
        vec![
            TokenType::Identifier,
            TokenType::Identifier,
            TokenType::Number,
            TokenType::Identifier,
            TokenType::Eof
        ]
    );
    // a letter run longer than `E` is a unit suffix
    let t = tokens("1EX");
    assert_eq!(kinds(&t[..2]), vec![TokenType::Number, TokenType::Unit]);
    assert_eq!(t[1].content, "EX");
}

#[test]
fn unit_suffix_and_identifier() {
    let t = tokens("10MEG 10 MEG");
    assert_eq!(
        kinds(&t),
        vec![
            TokenType::Number,
            TokenType::Unit,
            TokenType::Number,
            TokenType::Identifier,
            TokenType::Eof
        ]
    );
}

#[test]
fn three_bad_characters_three_errors() {
    let src = "R1 a b 1 $\nC1 # a 1\n  @\n";
    let (_, errors) = Lexer::new(src.to_string()).scan();
    let e = errors.errors();
    assert_eq!(e.len(), 3);
    let pos: Vec<(usize, usize)> = e.iter().map(|e| (e.line, e.column)).collect();
    assert_eq!(pos, vec![(1, 10), (2, 4), (3, 3)]);
    assert_eq!(e[0].message, "Unexpected character: $");
    assert!(e.iter().all(|e| e.error_type == nim_spice::error::ErrorType::Lexical));
}

#[test]
fn unknown_directive_is_an_error() {
    let (c, errors) = Lexer::new(".Foo 1\n.END\n".to_string()).scan();
    assert_eq!(errors.errors().len(), 1);
    assert_eq!(errors.errors()[0].message, "Unexpected command: .foo");
    assert_eq!(c[1].tokens[0].token_type, TokenType::End);
    assert_eq!(c[1].tokens[0].content, ".end");
    assert!(Lexer::new(".foo\n".to_string()).scan_tokens().is_err());
}

#[test]
fn scanning_stops_at_end() {
    let c = cards(".end\n$ # not scanned\n");
    assert_eq!(c.len(), 2);
    assert_eq!(c[1].tokens[0].token_type, TokenType::Eof);
    assert_eq!((c[1].tokens[0].line, c[1].tokens[0].column), (1, 5));
}

#[test]
fn positions_are_one_based() {
    let t = tokens("R1  a\n\tb=2");
    let pos: Vec<(usize, usize)> = t.iter().map(|t| (t.line, t.column)).collect();
    assert_eq!(pos, vec![(1, 1), (1, 5), (2, 2), (2, 3), (2, 4), (2, 5)]);
}

#[test]
fn exponent_of_an_exponent() {
    let t = tokens("1E2E3");
    assert_eq!(
        kinds(&t),
        vec![
            TokenType::Number,
            TokenType::E,
            TokenType::Number,
            TokenType::E,
            TokenType::Number,
            TokenType::Eof
        ]
    );
    let t = tokens("1E-2e+3K");
    assert_eq!(texts(&t[..7]), vec!["1", "E", "-", "2", "e", "+", "3"]);
    assert_eq!(t[7].token_type, TokenType::Unit);
}

#[test]
fn decimal_text_is_one_number() {
    for d in ["0.5", "22", "12.750"] {
        let c = cards(d);
        assert_eq!(c.len(), 2);
        assert_eq!(texts(&c[0].tokens), vec![d]);
    }
}

#[test]
fn unicode_letters() {
    let t = tokens("é Ré_1");
    assert_eq!(kinds(&t), vec![TokenType::Identifier, TokenType::Identifier, TokenType::Eof]);
    assert_eq!(texts(&t[..2]), vec!["é", "Ré_1"]);
    let t = tokens("1Eé");
    assert_eq!(kinds(&t), vec![TokenType::Number, TokenType::Unit, TokenType::Eof]);
    assert_eq!(t[1].content, "Eé");
    // the Kelvin sign lowercases to `k`
    let t = tokens(".subc\u{212A}t X 1\n");
    assert_eq!(t[0].token_type, TokenType::Subckt);
    assert_eq!(t[0].content, ".subckt");
    let (c, errors) = Lexer::new(".endé\nR1\n".to_string()).scan();
    assert_eq!(errors.errors().len(), 1);
    assert_eq!(errors.errors()[0].message, "Unexpected command: .endé");
    assert_eq!(c[0].tokens[0].content, "R1");
    assert!(Lexer::new("∑".to_string()).scan_tokens().is_err());
}
