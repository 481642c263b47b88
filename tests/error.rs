use nim_spice::error::{Error, ErrorHandler, ErrorType};

#[test]
fn test_error_format() {
    let error = Error::new(ErrorType::Lexical, "Unexpected character".to_string(), 1, 1);
    assert_eq!(
        error.format(),
        "[Lexical Error] Line: 1, Column: 1: Unexpected character"
    );
}

#[test]
fn test_error_handler() {
    let mut error_handler = ErrorHandler::new();
    let error = Error::new(ErrorType::Lexical, "Unexpected character".to_string(), 1, 1);
    error_handler.add_error(error);
    assert!(error_handler.has_errors());
}

#[test]
fn error_format_multi_digit_positions() {
    let error = Error::new(ErrorType::Semantic, "Undefined symbol: OSC".to_string(), 120, 7);
    assert_eq!(
        error.format(),
        "[Semantic Error] Line: 120, Column: 7: Undefined symbol: OSC"
    );
    let error = Error::new(ErrorType::IOError, "x".to_string(), 10, 0);
    assert_eq!(error.format(), "[IOError Error] Line: 10, Column: 0: x");
}

#[test]
fn error_handler_keeps_order() {
    let mut h = ErrorHandler::new();
    assert!(!h.has_errors());
    h.add_error(Error::new(ErrorType::Syntax, "a".to_string(), 1, 2));
    h.add_error(Error::new(ErrorType::Runtime, "b".to_string(), 3, 4));
    let v = h.errors();
    assert_eq!(v.len(), 2);
    assert_eq!(v[0].message, "a");
    assert_eq!(v[1].error_type, ErrorType::Runtime);
}
