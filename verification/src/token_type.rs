//! The closed enumeration of lexeme categories produced by the scanner, and
//! the character classes the scanner's dispatch is built on.

use vstd::prelude::*;

verus! {

/// Category of a lexeme: single-character punctuation, one-or-two-character
/// operators, literal categories, reserved words, and the terminal `Eof`.
#[derive(Clone, Copy, PartialEq, Eq, Structural, Debug)]
pub enum TokenType {
    LeftParen,
    RightParen,
    LeftBrace,
    RightBrace,
    Comma,
    Dot,
    Minus,
    Plus,
    Semicolon,
    Star,
    Slash,
    Bang,
    BangEqual,
    Equal,
    EqualEqual,
    Less,
    LessEqual,
    Greater,
    GreaterEqual,
    Identifier,
    String,
    Number,
    And,
    Class,
    Else,
    False,
    Fun,
    For,
    If,
    Nil,
    Or,
    Print,
    Return,
    Super,
    This,
    True,
    Var,
    While,
    Eof,
}

/// The display name of a token kind, as diagnostics spell it.
pub open spec fn kind_name(t: TokenType) -> Seq<char> {
    match t {
        TokenType::LeftParen => "LeftParen"@,
        TokenType::RightParen => "RightParen"@,
        TokenType::LeftBrace => "LeftBrace"@,
        TokenType::RightBrace => "RightBrace"@,
        TokenType::Comma => "Comma"@,
        TokenType::Dot => "Dot"@,
        TokenType::Minus => "Minus"@,
        TokenType::Plus => "Plus"@,
        TokenType::Semicolon => "Semicolon"@,
        TokenType::Star => "Star"@,
        TokenType::Slash => "Slash"@,
        TokenType::Bang => "Bang"@,
        TokenType::BangEqual => "BangEqual"@,
        TokenType::Equal => "Equal"@,
        TokenType::EqualEqual => "EqualEqual"@,
        TokenType::Less => "Less"@,
        TokenType::LessEqual => "LessEqual"@,
        TokenType::Greater => "Greater"@,
        TokenType::GreaterEqual => "GreaterEqual"@,
        TokenType::Identifier => "Identifier"@,
        TokenType::String => "String"@,
        TokenType::Number => "Number"@,
        TokenType::And => "And"@,
        TokenType::Class => "Class"@,
        TokenType::Else => "Else"@,
        TokenType::False => "False"@,
        TokenType::Fun => "Fun"@,
        TokenType::For => "For"@,
        TokenType::If => "If"@,
        TokenType::Nil => "Nil"@,
        TokenType::Or => "Or"@,
        TokenType::Print => "Print"@,
        TokenType::Return => "Return"@,
        TokenType::Super => "Super"@,
        TokenType::This => "This"@,
        TokenType::True => "True"@,
        TokenType::Var => "Var"@,
        TokenType::While => "While"@,
        TokenType::Eof => "Eof"@,
    }
}

/// Runtime counterpart of [`kind_name`].
pub fn kind_name_str(t: TokenType) -> (r: &'static str)
    ensures
        r@ == kind_name(t),
{
    match t {
        TokenType::LeftParen => "LeftParen",
        TokenType::RightParen => "RightParen",
        TokenType::LeftBrace => "LeftBrace",
        TokenType::RightBrace => "RightBrace",
        TokenType::Comma => "Comma",
        TokenType::Dot => "Dot",
        TokenType::Minus => "Minus",
        TokenType::Plus => "Plus",
        TokenType::Semicolon => "Semicolon",
        TokenType::Star => "Star",
        TokenType::Slash => "Slash",
        TokenType::Bang => "Bang",
        TokenType::BangEqual => "BangEqual",
        TokenType::Equal => "Equal",
        TokenType::EqualEqual => "EqualEqual",
        TokenType::Less => "Less",
        TokenType::LessEqual => "LessEqual",
        TokenType::Greater => "Greater",
        TokenType::GreaterEqual => "GreaterEqual",
        TokenType::Identifier => "Identifier",
        TokenType::String => "String",
        TokenType::Number => "Number",
        TokenType::And => "And",
        TokenType::Class => "Class",
        TokenType::Else => "Else",
        TokenType::False => "False",
        TokenType::Fun => "Fun",
        TokenType::For => "For",
        TokenType::If => "If",
        TokenType::Nil => "Nil",
        TokenType::Or => "Or",
        TokenType::Print => "Print",
        TokenType::Return => "Return",
        TokenType::Super => "Super",
        TokenType::This => "This",
        TokenType::True => "True",
        TokenType::Var => "Var",
        TokenType::While => "While",
        TokenType::Eof => "Eof",
    }
}

/// A decimal digit, `'0'` through `'9'`.
pub open spec fn is_digit_char(c: char) -> bool {
    '0' <= c && c <= '9'
}

/// An ASCII letter or underscore: the characters that may begin an
/// identifier.
pub open spec fn is_alpha_char(c: char) -> bool {
    ('a' <= c && c <= 'z') || ('A' <= c && c <= 'Z') || c == '_'
}

/// A character that may continue an identifier: letter, underscore or digit.
pub open spec fn is_ident_char(c: char) -> bool {
    is_alpha_char(c) || is_digit_char(c)
}

/// Runtime test for [`is_digit_char`].
pub fn digit_char(c: char) -> (r: bool)
    ensures
        r == is_digit_char(c),
{
    '0' <= c && c <= '9'
}

/// Runtime test for [`is_alpha_char`].
pub fn alpha_char(c: char) -> (r: bool)
    ensures
        r == is_alpha_char(c),
{
    ('a' <= c && c <= 'z') || ('A' <= c && c <= 'Z') || c == '_'
}

/// Runtime test for [`is_ident_char`].
pub fn ident_char(c: char) -> (r: bool)
    ensures
        r == is_ident_char(c),
{
    alpha_char(c) || digit_char(c)
}

} // verus!
