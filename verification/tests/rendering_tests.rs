use biloxi::report::decimal_string;
use biloxi::report::error;
use biloxi::report::report;
use biloxi::scanner::Literal;
use biloxi::scanner::Scanner;
use biloxi::scanner::keyword_type;
use biloxi::token::Token;
use biloxi::token_type::TokenType;
use biloxi::token_type::kind_name_str;

#[test]
fn decimal_rendering() {
    assert_eq!(decimal_string(0), "0");
    assert_eq!(decimal_string(7), "7");
    assert_eq!(decimal_string(10), "10");
    assert_eq!(decimal_string(120), "120");
    assert_eq!(decimal_string(98765), "98765");
}

#[test]
fn report_line_format() {
    assert_eq!(
        report(1, "", "Unexpected character."),
        "[line 1] error : Unexpected character."
    );
    assert_eq!(
        report(12, "at end", "Expect expression."),
        "[line 12] error at end: Expect expression."
    );
}

#[test]
fn error_is_report_without_location() {
    assert_eq!(error(3, "Unterminated string."), "[line 3] error : Unterminated string.");
}

#[test]
fn rendering_a_scanned_error_report() {
    let mut scanner = Scanner::new("\"open");
    let _ = scanner.scan_tokens();
    assert_eq!(scanner.errors.len(), 1);
    let e = &scanner.errors[0];
    assert_eq!(error(e.line, e.message()), "[line 1] error : Unterminated string.");
}

#[test]
fn token_rendering() {
    let number = Token::new(
        TokenType::Number,
        "12.5",
        Some(Literal::Number("12.5".to_string())),
        1,
    );
    assert_eq!(number.to_string(), "Number 12.5 12.5");

    let string = Token::new(
        TokenType::String,
        "\"hi\"",
        Some(Literal::String("hi".to_string())),
        2,
    );
    assert_eq!(string.to_string(), "String \"hi\" hi");

    let plain = Token::new(TokenType::LeftParen, "(", None, 1);
    assert_eq!(plain.to_string(), "LeftParen ( none");

    let eof = Token::new(TokenType::Eof, "", None, 9);
    assert_eq!(eof.to_string(), "Eof  none");
}

#[test]
fn kind_names() {
    assert_eq!(kind_name_str(TokenType::BangEqual), "BangEqual");
    assert_eq!(kind_name_str(TokenType::Identifier), "Identifier");
    assert_eq!(kind_name_str(TokenType::Eof), "Eof");
}

#[test]
fn keyword_table_lookup() {
    assert_eq!(keyword_type(&"or".to_string()), Some(TokenType::Or));
    assert_eq!(keyword_type(&"while".to_string()), Some(TokenType::While));
    assert_eq!(keyword_type(&"orchid".to_string()), None);
    assert_eq!(keyword_type(&"Or".to_string()), None);
    assert_eq!(keyword_type(&"".to_string()), None);
}
