//! The immutable token record produced by the scanner.

use vstd::prelude::*;
use vstd::string::StringExecFns;
use crate::scanner::Literal;
use crate::scanner::SpecLiteral;
use crate::token_type::TokenType;
use crate::token_type::kind_name;
use crate::token_type::kind_name_str;

verus! {

/// The literal part of a token's diagnostic rendering: a string literal's
/// text, a number literal's digits, and `none` for tokens that carry no
/// literal.
pub open spec fn literal_text(l: Option<SpecLiteral>) -> Seq<char> {
    match l {
        Some(SpecLiteral::Str(s)) => s,
        Some(SpecLiteral::Num(d)) => d,
        None => "none"@,
    }
}

/// A token's diagnostic rendering: `KIND LEXEME LITERAL`, with `none` in the
/// literal place for tokens that carry no literal.
pub open spec fn token_text(t: SpecToken) -> Seq<char> {
    kind_name(t.type_) + " "@ + t.lexeme + " "@ + literal_text(t.literal)
}

/// Mathematical value of a [`Token`]: the same record over sequences of
/// characters.
#[verifier::ext_equal]
pub struct SpecToken {
    pub type_: TokenType,
    pub lexeme: Seq<char>,
    pub literal: Option<SpecLiteral>,
    pub line: int,
}

/// An immutable record of one recognized lexeme: its category, the verbatim
/// source slice it was read from, an optional semantic value (present only
/// for string and number literals), and the 1-based source line of its first
/// character. The lexeme is empty only for the synthetic end-of-file token.
#[derive(Clone, Debug, PartialEq)]
pub struct Token {
    pub type_: TokenType,
    pub lexeme: String,
    pub literal: Option<Literal>,
    pub line: usize,
}

impl View for Token {
    type V = SpecToken;

    open spec fn view(&self) -> SpecToken {
        SpecToken {
            type_: self.type_,
            lexeme: self.lexeme@,
            literal: match self.literal {
                Some(l) => Some(l@),
                None => None,
            },
            line: self.line as int,
        }
    }
}

impl Token {
    /// Builds a token from its parts; the lexeme is copied out of the source.
    /// Lines are 1-based, so the line must be positive.
    pub fn new(type_: TokenType, lexeme: &str, literal: Option<Literal>, line: usize) -> (r: Self)
        requires
            1 <= line,
        ensures
            r@ == (SpecToken {
                type_: type_,
                lexeme: lexeme@,
                literal: match literal {
                    Some(l) => Some(l@),
                    None => None,
                },
                line: line as int,
            }),
    {
        Token { type_, lexeme: lexeme.to_owned(), literal, line }
    }

    /// The token rendered for diagnostics: its kind's name, its lexeme and
    /// its literal (or `none`), separated by single spaces.
    pub fn to_string(&self) -> (r: String)
        ensures
            r@ == token_text(self@),
    {
        let mut s = kind_name_str(self.type_).to_owned();
        s.append(" ");
        s.append(self.lexeme.as_str());
        s.append(" ");
        match &self.literal {
            Some(Literal::String(v)) => s.append(v.as_str()),
            Some(Literal::Number(v)) => s.append(v.as_str()),
            None => s.append("none"),
        }
        proof {
            assert(s@ =~= token_text(self@));
        }
        s
    }
}

} // verus!
