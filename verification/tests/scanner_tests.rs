use biloxi::scanner::Literal;
use biloxi::scanner::LexicalError;
use biloxi::scanner::Scanner;
use biloxi::token::Token;
use biloxi::token_type::TokenType;

fn scan(source: &str) -> (Vec<Token>, Vec<biloxi::scanner::ErrorReport>) {
    let mut scanner = Scanner::new(source);
    let tokens = scanner.scan_tokens();
    (tokens, scanner.errors)
}

#[test]
fn empty_source_yields_single_eof() {
    let (tokens, errors) = scan("");
    assert_eq!(tokens.len(), 1);
    assert_eq!(tokens[0].type_, TokenType::Eof);
    assert_eq!(tokens[0].lexeme, "");
    assert_eq!(tokens[0].literal, None);
    assert_eq!(tokens[0].line, 1);
    assert!(errors.is_empty());
}

#[test]
fn every_scan_ends_in_eof() {
    for source in ["", "(", "\"open", "1 + 2", "@#$", "// only a comment"] {
        let (tokens, _) = scan(source);
        assert!(!tokens.is_empty());
        assert_eq!(tokens.last().unwrap().type_, TokenType::Eof);
        assert_eq!(tokens.last().unwrap().lexeme, "");
        let eofs = tokens
            .iter()
            .filter(|t| t.type_ == TokenType::Eof)
            .count();
        assert_eq!(eofs, 1);
    }
}

#[test]
fn single_character_punctuation() {
    let cases = [
        ("(", TokenType::LeftParen),
        (")", TokenType::RightParen),
        ("{", TokenType::LeftBrace),
        ("}", TokenType::RightBrace),
        (",", TokenType::Comma),
        (".", TokenType::Dot),
        ("-", TokenType::Minus),
        ("+", TokenType::Plus),
        (";", TokenType::Semicolon),
        ("*", TokenType::Star),
        ("/", TokenType::Slash),
    ];
    for (source, expected) in cases {
        let (tokens, errors) = scan(source);
        assert_eq!(tokens.len(), 2, "source {:?}", source);
        assert_eq!(tokens[0].type_, expected);
        assert_eq!(tokens[0].lexeme, source);
        assert_eq!(tokens[0].literal, None);
        assert_eq!(tokens[0].line, 1);
        assert_eq!(tokens[1].type_, TokenType::Eof);
        assert!(errors.is_empty());
    }
}

#[test]
fn one_or_two_character_operators() {
    let cases = [
        ("!=", TokenType::BangEqual),
        ("!", TokenType::Bang),
        ("==", TokenType::EqualEqual),
        ("=", TokenType::Equal),
        ("<=", TokenType::LessEqual),
        ("<", TokenType::Less),
        (">=", TokenType::GreaterEqual),
        (">", TokenType::Greater),
    ];
    for (source, expected) in cases {
        let (tokens, errors) = scan(source);
        assert_eq!(tokens.len(), 2, "source {:?}", source);
        assert_eq!(tokens[0].type_, expected);
        assert_eq!(tokens[0].lexeme, source);
        assert!(errors.is_empty());
    }
}

#[test]
fn operator_lookahead_is_one_character() {
    // `===` is `==` followed by `=`: the two-character form is taken greedily.
    let (tokens, _) = scan("===");
    assert_eq!(tokens.len(), 3);
    assert_eq!(tokens[0].type_, TokenType::EqualEqual);
    assert_eq!(tokens[1].type_, TokenType::Equal);
}

#[test]
fn comment_is_dropped_and_line_advances() {
    let (tokens, errors) = scan("// comment\n123");
    assert_eq!(tokens.len(), 2);
    assert_eq!(tokens[0].type_, TokenType::Number);
    assert_eq!(tokens[0].lexeme, "123");
    assert_eq!(tokens[0].literal, Some(Literal::Number("123".to_string())));
    assert_eq!(tokens[0].line, 2);
    assert_eq!(tokens[1].type_, TokenType::Eof);
    assert_eq!(tokens[1].line, 2);
    assert!(errors.is_empty());
}

#[test]
fn comment_to_end_of_source() {
    let (tokens, errors) = scan("//x");
    assert_eq!(tokens.len(), 1);
    assert_eq!(tokens[0].type_, TokenType::Eof);
    assert!(errors.is_empty());
}

#[test]
fn slash_alone_is_division() {
    let (tokens, _) = scan("1/2");
    let kinds: Vec<TokenType> = tokens.iter().map(|t| t.type_).collect();
    assert_eq!(
        kinds,
        vec![TokenType::Number, TokenType::Slash, TokenType::Number, TokenType::Eof]
    );
}

#[test]
fn string_literal_excludes_quotes() {
    let (tokens, errors) = scan("\"hello\"");
    assert_eq!(tokens.len(), 2);
    assert_eq!(tokens[0].type_, TokenType::String);
    assert_eq!(tokens[0].lexeme, "\"hello\"");
    assert_eq!(tokens[0].literal, Some(Literal::String("hello".to_string())));
    assert_eq!(tokens[1].type_, TokenType::Eof);
    assert!(errors.is_empty());
}

#[test]
fn unterminated_string_reports_and_yields_no_literal() {
    let (tokens, errors) = scan("\"unterminated");
    assert_eq!(tokens.len(), 1);
    assert_eq!(tokens[0].type_, TokenType::Eof);
    assert_eq!(errors.len(), 1);
    assert_eq!(errors[0].kind, LexicalError::UnterminatedString);
    assert_eq!(errors[0].line, 1);
    assert_eq!(errors[0].message(), "Unterminated string.");
}

#[test]
fn unterminated_string_reports_at_final_line() {
    let (tokens, errors) = scan("\"a\nb\nc");
    assert_eq!(tokens.len(), 1);
    assert_eq!(errors.len(), 1);
    assert_eq!(errors[0].kind, LexicalError::UnterminatedString);
    assert_eq!(errors[0].line, 3);
}

#[test]
fn multi_line_string_is_permitted() {
    // The token carries the line of its first character; the newline inside
    // the literal still advances the counter for what follows.
    let (tokens, errors) = scan("\"a\nb\" x");
    assert_eq!(tokens.len(), 3);
    assert_eq!(tokens[0].type_, TokenType::String);
    assert_eq!(tokens[0].literal, Some(Literal::String("a\nb".to_string())));
    assert_eq!(tokens[0].line, 1);
    assert_eq!(tokens[1].type_, TokenType::Identifier);
    assert_eq!(tokens[1].lexeme, "x");
    assert_eq!(tokens[1].line, 2);
    assert!(errors.is_empty());
}

#[test]
fn number_with_fraction() {
    let (tokens, errors) = scan("123.45");
    assert_eq!(tokens.len(), 2);
    assert_eq!(tokens[0].type_, TokenType::Number);
    assert_eq!(tokens[0].lexeme, "123.45");
    assert_eq!(tokens[0].literal, Some(Literal::Number("123.45".to_string())));
    assert!(errors.is_empty());
    let Some(Literal::Number(digits)) = &tokens[0].literal else {
        panic!("number literal expected");
    };
    assert_eq!(digits.parse::<f64>().unwrap(), 123.45);
}

#[test]
fn trailing_dot_is_not_part_of_the_number() {
    let (tokens, errors) = scan("123.");
    assert_eq!(tokens.len(), 3);
    assert_eq!(tokens[0].type_, TokenType::Number);
    assert_eq!(tokens[0].lexeme, "123");
    assert_eq!(tokens[0].literal, Some(Literal::Number("123".to_string())));
    assert_eq!(tokens[1].type_, TokenType::Dot);
    assert_eq!(tokens[1].lexeme, ".");
    assert_eq!(tokens[2].type_, TokenType::Eof);
    assert!(errors.is_empty());
}

#[test]
fn integer_number() {
    let (tokens, _) = scan("42");
    assert_eq!(tokens[0].type_, TokenType::Number);
    assert_eq!(tokens[0].literal, Some(Literal::Number("42".to_string())));
    let Some(Literal::Number(digits)) = &tokens[0].literal else {
        panic!("number literal expected");
    };
    assert_eq!(digits.parse::<f64>().unwrap(), 42.0);
}

#[test]
fn reserved_word_and_longest_match_identifier() {
    let (tokens, _) = scan("for");
    assert_eq!(tokens.len(), 2);
    assert_eq!(tokens[0].type_, TokenType::For);
    assert_eq!(tokens[0].lexeme, "for");
    assert_eq!(tokens[0].literal, None);

    let (tokens, _) = scan("forest");
    assert_eq!(tokens.len(), 2);
    assert_eq!(tokens[0].type_, TokenType::Identifier);
    assert_eq!(tokens[0].lexeme, "forest");
}

#[test]
fn all_sixteen_reserved_words() {
    let cases = [
        ("and", TokenType::And),
        ("class", TokenType::Class),
        ("else", TokenType::Else),
        ("false", TokenType::False),
        ("for", TokenType::For),
        ("fun", TokenType::Fun),
        ("if", TokenType::If),
        ("nil", TokenType::Nil),
        ("or", TokenType::Or),
        ("print", TokenType::Print),
        ("return", TokenType::Return),
        ("super", TokenType::Super),
        ("this", TokenType::This),
        ("true", TokenType::True),
        ("var", TokenType::Var),
        ("while", TokenType::While),
    ];
    for (source, expected) in cases {
        let (tokens, _) = scan(source);
        assert_eq!(tokens.len(), 2, "source {:?}", source);
        assert_eq!(tokens[0].type_, expected);
        assert_eq!(tokens[0].lexeme, source);
    }
}

#[test]
fn keywords_are_case_sensitive() {
    let (tokens, _) = scan("For");
    assert_eq!(tokens[0].type_, TokenType::Identifier);
}

#[test]
fn underscore_starts_an_identifier() {
    let (tokens, _) = scan("_tmp1");
    assert_eq!(tokens.len(), 2);
    assert_eq!(tokens[0].type_, TokenType::Identifier);
    assert_eq!(tokens[0].lexeme, "_tmp1");
}

#[test]
fn newlines_increment_the_line_once_each() {
    let (tokens, errors) = scan("a\nb\n\nc");
    assert_eq!(tokens.len(), 4);
    assert_eq!(tokens[0].lexeme, "a");
    assert_eq!(tokens[0].line, 1);
    assert_eq!(tokens[1].lexeme, "b");
    assert_eq!(tokens[1].line, 2);
    assert_eq!(tokens[2].lexeme, "c");
    assert_eq!(tokens[2].line, 4);
    assert_eq!(tokens[3].type_, TokenType::Eof);
    assert_eq!(tokens[3].line, 4);
    assert!(errors.is_empty());
}

#[test]
fn whitespace_yields_no_tokens() {
    let (tokens, errors) = scan(" \t\r ");
    assert_eq!(tokens.len(), 1);
    assert_eq!(tokens[0].type_, TokenType::Eof);
    assert!(errors.is_empty());
}

#[test]
fn unexpected_character_is_reported_and_skipped() {
    let (tokens, errors) = scan("@(");
    assert_eq!(tokens.len(), 2);
    assert_eq!(tokens[0].type_, TokenType::LeftParen);
    assert_eq!(errors.len(), 1);
    assert_eq!(errors[0].kind, LexicalError::UnexpectedCharacter);
    assert_eq!(errors[0].line, 1);
    assert_eq!(errors[0].message(), "Unexpected character.");
}

#[test]
fn scan_continues_past_several_errors() {
    let (tokens, errors) = scan("#\n$ var");
    assert_eq!(errors.len(), 2);
    assert_eq!(errors[0].line, 1);
    assert_eq!(errors[1].line, 2);
    assert_eq!(tokens.len(), 2);
    assert_eq!(tokens[0].type_, TokenType::Var);
    assert_eq!(tokens[0].line, 2);
}

#[test]
fn classification_is_idempotent() {
    let source = "var x = 12.5; // set\nwhile (x > 0) { print \"hi\"; x = x - 1; }";
    let mut first = Scanner::new(source);
    let tokens_first = first.scan_tokens();
    let mut second = Scanner::new(source);
    let tokens_second = second.scan_tokens();
    assert_eq!(tokens_first, tokens_second);
    assert_eq!(first.errors, second.errors);
}

#[test]
fn mixed_statement() {
    let (tokens, errors) = scan("var answer = 6 * 7;");
    let kinds: Vec<TokenType> = tokens.iter().map(|t| t.type_).collect();
    assert_eq!(
        kinds,
        vec![
            TokenType::Var,
            TokenType::Identifier,
            TokenType::Equal,
            TokenType::Number,
            TokenType::Star,
            TokenType::Number,
            TokenType::Semicolon,
            TokenType::Eof,
        ]
    );
    assert_eq!(tokens[1].lexeme, "answer");
    assert!(errors.is_empty());
}

#[test]
fn non_ascii_source_is_sliced_by_character() {
    // The source is indexed by character, not by byte: a multi-byte character
    // is a single unexpected character and what follows is intact.
    let (tokens, errors) = scan("\u{00e9} var");
    assert_eq!(errors.len(), 1);
    assert_eq!(errors[0].kind, LexicalError::UnexpectedCharacter);
    assert_eq!(tokens.len(), 2);
    assert_eq!(tokens[0].type_, TokenType::Var);
    assert_eq!(tokens[0].lexeme, "var");
}
