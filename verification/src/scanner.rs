//! The scanner: transforms a complete source string into a finite, ordered
//! sequence of tokens terminated by exactly one end-of-file token, tolerating
//! and reporting lexical errors without halting.
//!
//! The intended output is pinned down by the spec function [`scan_result`],
//! a direct mathematical restatement of the per-character dispatch: each
//! public method's contract relates the scanner's state to it.

use vstd::prelude::*;
use crate::token::SpecToken;
use crate::token::Token;
use crate::token_type::TokenType;
use crate::token_type::is_alpha_char;
use crate::token_type::is_digit_char;
use crate::token_type::is_ident_char;
use crate::token_type::alpha_char;
use crate::token_type::digit_char;
use crate::token_type::ident_char;

verus! {

/// Mathematical value of a [`Literal`]: the payload as a sequence of
/// characters.
#[verifier::ext_equal]
pub enum SpecLiteral {
    Str(Seq<char>),
    Num(Seq<char>),
}

/// Semantic value carried by a literal token: for a string token the exact
/// text between the quotes; for a number token the numeric lexeme itself
/// (a maximal digit run, optionally followed by `.` and a second digit run),
/// whose decimal reading is the token's numeric value. Turning the digits
/// into machine floating point is left to the consumer of the tokens.
#[derive(Clone, Debug, PartialEq)]
pub enum Literal {
    String(String),
    Number(String),
}

impl View for Literal {
    type V = SpecLiteral;

    open spec fn view(&self) -> SpecLiteral {
        match self {
            Literal::String(s) => SpecLiteral::Str(s@),
            Literal::Number(s) => SpecLiteral::Num(s@),
        }
    }
}

/// The two recoverable lexical errors: an input character matching no
/// recognized rule, and a string literal not closed before end of source.
#[derive(Clone, Copy, PartialEq, Eq, Structural, Debug)]
pub enum LexicalError {
    UnexpectedCharacter,
    UnterminatedString,
}

/// Mathematical value of an [`ErrorReport`].
#[verifier::ext_equal]
pub struct SpecError {
    pub kind: LexicalError,
    pub line: int,
}

/// One report handed to the error channel: which error occurred and the
/// 1-based source line it was noticed on.
#[derive(Clone, Copy, PartialEq, Eq, Structural, Debug)]
pub struct ErrorReport {
    pub kind: LexicalError,
    pub line: usize,
}

impl View for ErrorReport {
    type V = SpecError;

    open spec fn view(&self) -> SpecError {
        SpecError { kind: self.kind, line: self.line as int }
    }
}

impl ErrorReport {
    /// The human-readable message of this report, as the error channel
    /// renders it.
    pub fn message(&self) -> (r: &'static str)
        ensures
            r@ == message_of(self.kind),
    {
        match self.kind {
            LexicalError::UnexpectedCharacter => "Unexpected character.",
            LexicalError::UnterminatedString => "Unterminated string.",
        }
    }
}

/// Message text for each lexical error.
pub open spec fn message_of(kind: LexicalError) -> Seq<char> {
    match kind {
        LexicalError::UnexpectedCharacter => "Unexpected character."@,
        LexicalError::UnterminatedString => "Unterminated string."@,
    }
}

/// The whole outcome of a scan: the token sequence and the error reports, in
/// the order they are produced.
#[verifier::ext_equal]
pub struct ScanOut {
    pub toks: Seq<SpecToken>,
    pub errs: Seq<SpecError>,
}

/// First index at or after `pos` whose character satisfies `stop`, or the
/// length of `src` if there is none.
pub open spec fn run_end(src: Seq<char>, pos: int, stop: spec_fn(char) -> bool) -> int
    decreases src.len() - pos,
{
    if pos < 0 || pos >= src.len() {
        src.len() as int
    } else if stop(src[pos]) {
        pos
    } else {
        run_end(src, pos + 1, stop)
    }
}

/// `run_end` is the first stop index: it lies between `pos` and the length,
/// nothing before it stops the run, and it stops the run itself unless it is
/// the end of the source.
pub proof fn lemma_run_end(src: Seq<char>, pos: int, stop: spec_fn(char) -> bool)
    requires
        0 <= pos <= src.len(),
    ensures
        pos <= run_end(src, pos, stop) <= src.len(),
        forall|i: int| pos <= i < run_end(src, pos, stop) ==> !stop(#[trigger] src[i]),
        run_end(src, pos, stop) < src.len() ==> stop(src[run_end(src, pos, stop)]),
    decreases src.len() - pos,
{
    if pos < src.len() && !stop(src[pos]) {
        lemma_run_end(src, pos + 1, stop);
    }
}

/// Any index with the three properties of [`lemma_run_end`] is `run_end`.
pub proof fn lemma_run_end_is(src: Seq<char>, pos: int, stop: spec_fn(char) -> bool, e: int)
    requires
        0 <= pos <= e <= src.len(),
        forall|i: int| pos <= i < e ==> !stop(#[trigger] src[i]),
        e < src.len() ==> stop(src[e]),
    ensures
        run_end(src, pos, stop) == e,
    decreases e - pos,
{
    if pos < e {
        lemma_run_end_is(src, pos + 1, stop, e);
    }
}

/// Number of newline characters of `src` in the index range `[from, to)`.
pub open spec fn newline_count(src: Seq<char>, from: int, to: int) -> int
    decreases to - from,
{
    if from < 0 || from >= to || to > src.len() {
        0
    } else {
        (if src[from] == '\n' { 1int } else { 0int }) + newline_count(src, from + 1, to)
    }
}

/// The newline count of a range is at least zero and at most the range's
/// width.
pub proof fn lemma_newline_count_bounds(src: Seq<char>, from: int, to: int)
    ensures
        0 <= newline_count(src, from, to),
        newline_count(src, from, to) <= (if to - from >= 0 { to - from } else { 0 }),
    decreases to - from,
{
    if !(from < 0 || from >= to || to > src.len()) {
        lemma_newline_count_bounds(src, from + 1, to);
    }
}

/// Extending a range by one index on the right adds one to the count exactly
/// when the new character is a newline.
pub proof fn lemma_newline_count_snoc(src: Seq<char>, from: int, to: int)
    requires
        0 <= from <= to < src.len(),
    ensures
        newline_count(src, from, to + 1) == newline_count(src, from, to) + (
        if src[to] == '\n' {
            1int
        } else {
            0int
        }),
    decreases to - from,
{
    if from < to {
        lemma_newline_count_snoc(src, from + 1, to);
    } else {
        assert(newline_count(src, to + 1, to + 1) == 0);
    }
}

/// A range without newline characters counts zero.
pub proof fn lemma_newline_count_zero(src: Seq<char>, from: int, to: int)
    requires
        forall|i: int| from <= i < to ==> #[trigger] src[i] != '\n',
    ensures
        newline_count(src, from, to) == 0,
    decreases to - from,
{
    if !(from < 0 || from >= to || to > src.len()) {
        lemma_newline_count_zero(src, from + 1, to);
    }
}

/// Adjacent ranges add their newline counts.
pub proof fn lemma_newline_count_split(src: Seq<char>, from: int, mid: int, to: int)
    requires
        0 <= from <= mid <= to <= src.len(),
    ensures
        newline_count(src, from, to) == newline_count(src, from, mid) + newline_count(
            src,
            mid,
            to,
        ),
    decreases mid - from,
{
    if from < mid {
        lemma_newline_count_split(src, from + 1, mid, to);
    }
}

/// Kind of a single-character punctuation lexeme, if `c` is one. The slash is
/// not here: it doubles as the start of a line comment and has its own rule.
pub open spec fn punct_type(c: char) -> Option<TokenType> {
    if c == '(' {
        Some(TokenType::LeftParen)
    } else if c == ')' {
        Some(TokenType::RightParen)
    } else if c == '{' {
        Some(TokenType::LeftBrace)
    } else if c == '}' {
        Some(TokenType::RightBrace)
    } else if c == ',' {
        Some(TokenType::Comma)
    } else if c == '.' {
        Some(TokenType::Dot)
    } else if c == '-' {
        Some(TokenType::Minus)
    } else if c == '+' {
        Some(TokenType::Plus)
    } else if c == ';' {
        Some(TokenType::Semicolon)
    } else if c == '*' {
        Some(TokenType::Star)
    } else {
        None
    }
}

/// The one- and two-character kinds of the four operator heads `!`, `=`,
/// `<`, `>`: the kind of the head alone, and of the head followed by `=`.
pub open spec fn operator_types(c: char) -> (TokenType, TokenType) {
    if c == '!' {
        (TokenType::Bang, TokenType::BangEqual)
    } else if c == '=' {
        (TokenType::Equal, TokenType::EqualEqual)
    } else if c == '<' {
        (TokenType::Less, TokenType::LessEqual)
    } else {
        (TokenType::Greater, TokenType::GreaterEqual)
    }
}

/// The reserved kind of a reserved-word spelling, or `None` for every other
/// spelling: the keyword table, consulted after a maximal identifier run.
pub open spec fn keyword_type_spec(s: Seq<char>) -> Option<TokenType> {
    if s == "and"@ {
        Some(TokenType::And)
    } else if s == "class"@ {
        Some(TokenType::Class)
    } else if s == "else"@ {
        Some(TokenType::Else)
    } else if s == "false"@ {
        Some(TokenType::False)
    } else if s == "for"@ {
        Some(TokenType::For)
    } else if s == "fun"@ {
        Some(TokenType::Fun)
    } else if s == "if"@ {
        Some(TokenType::If)
    } else if s == "nil"@ {
        Some(TokenType::Nil)
    } else if s == "or"@ {
        Some(TokenType::Or)
    } else if s == "print"@ {
        Some(TokenType::Print)
    } else if s == "return"@ {
        Some(TokenType::Return)
    } else if s == "super"@ {
        Some(TokenType::Super)
    } else if s == "this"@ {
        Some(TokenType::This)
    } else if s == "true"@ {
        Some(TokenType::True)
    } else if s == "var"@ {
        Some(TokenType::Var)
    } else if s == "while"@ {
        Some(TokenType::While)
    } else {
        None
    }
}

/// Kind of an identifier lexeme: its reserved kind if it is a reserved word,
/// else `Identifier`.
pub open spec fn ident_type(lex: Seq<char>) -> TokenType {
    match keyword_type_spec(lex) {
        Some(t) => t,
        None => TokenType::Identifier,
    }
}

/// The synthetic end-of-file token: empty lexeme, no literal.
pub open spec fn eof_token(line: int) -> SpecToken {
    SpecToken { type_: TokenType::Eof, lexeme: Seq::empty(), literal: None, line }
}

/// A token without a literal whose lexeme is the source slice `[from, to)`.
pub open spec fn plain_token(t: TokenType, src: Seq<char>, from: int, to: int, line: int) -> SpecToken {
    SpecToken { type_: t, lexeme: src.subrange(from, to), literal: None, line }
}

/// Prepends a token to a scan outcome.
pub open spec fn with_tok(t: SpecToken, rest: ScanOut) -> ScanOut {
    ScanOut { toks: seq![t] + rest.toks, errs: rest.errs }
}

/// Prepends an error report to a scan outcome.
pub open spec fn with_err(e: SpecError, rest: ScanOut) -> ScanOut {
    ScanOut { toks: rest.toks, errs: seq![e] + rest.errs }
}

/// End of a line comment opened at `pos` (`src[pos]` and `src[pos + 1]` are
/// both `/`): the index of the next newline, which is left unconsumed, or the
/// end of the source.
pub open spec fn comment_end(src: Seq<char>, pos: int) -> int {
    run_end(src, pos + 2, |c: char| c == '\n')
}

/// Index of the closing quote of a string literal opened at `pos`, or the
/// length of `src` if the literal is unterminated.
pub open spec fn string_close(src: Seq<char>, pos: int) -> int {
    run_end(src, pos + 1, |c: char| c == '"')
}

/// End of the maximal decimal digit run starting at `pos`.
pub open spec fn digit_run_end(src: Seq<char>, pos: int) -> int {
    run_end(src, pos, |c: char| !is_digit_char(c))
}

/// End of a number lexeme whose first digit stands at `pos`: the maximal
/// digit run, extended by a fractional part only where a `.` follows the run
/// and a digit follows the `.`.
pub open spec fn number_end(src: Seq<char>, pos: int) -> int {
    let ie = digit_run_end(src, pos + 1);
    if ie < src.len() && src[ie] == '.' && ie + 1 < src.len() && is_digit_char(src[ie + 1]) {
        digit_run_end(src, ie + 1)
    } else {
        ie
    }
}

/// End of the maximal identifier run whose first character stands at `pos`.
pub open spec fn ident_end(src: Seq<char>, pos: int) -> int {
    run_end(src, pos + 1, |c: char| !is_ident_char(c))
}

/// The outcome of scanning `src` from position `pos` onward with the line
/// counter at `line`: one case per rule of the per-character dispatch, ending
/// in exactly one end-of-file token. This is the mathematical meaning of the
/// scan; `Scanner::scan_tokens` is proved to return exactly this.
pub open spec fn scan_at(src: Seq<char>, pos: int, line: int) -> ScanOut
    decreases src.len() - pos,
{
    if pos < 0 || pos >= src.len() {
        ScanOut { toks: seq![eof_token(line)], errs: Seq::empty() }
    } else {
        let c = src[pos];
        match punct_type(c) {
            Some(t) => with_tok(plain_token(t, src, pos, pos + 1, line), scan_at(src, pos + 1, line)),
            None => if c == '!' || c == '=' || c == '<' || c == '>' {
                if pos + 1 < src.len() && src[pos + 1] == '=' {
                    with_tok(
                        plain_token(operator_types(c).1, src, pos, pos + 2, line),
                        scan_at(src, pos + 2, line),
                    )
                } else {
                    with_tok(
                        plain_token(operator_types(c).0, src, pos, pos + 1, line),
                        scan_at(src, pos + 1, line),
                    )
                }
            } else if c == '/' {
                if pos + 1 < src.len() && src[pos + 1] == '/' {
                    proof {
                        lemma_run_end(src, pos + 2, |ch: char| ch == '\n');
                    }
                    scan_at(src, comment_end(src, pos), line)
                } else {
                    with_tok(
                        plain_token(TokenType::Slash, src, pos, pos + 1, line),
                        scan_at(src, pos + 1, line),
                    )
                }
            } else if c == ' ' || c == '\r' || c == '\t' {
                scan_at(src, pos + 1, line)
            } else if c == '\n' {
                scan_at(src, pos + 1, line + 1)
            } else if c == '"' {
                proof {
                    lemma_run_end(src, pos + 1, |ch: char| ch == '"');
                }
                let close = string_close(src, pos);
                let nl = newline_count(src, pos + 1, close);
                if close >= src.len() {
                    with_err(
                        SpecError { kind: LexicalError::UnterminatedString, line: line + nl },
                        scan_at(src, src.len() as int, line + nl),
                    )
                } else {
                    with_tok(
                        SpecToken {
                            type_: TokenType::String,
                            lexeme: src.subrange(pos, close + 1),
                            literal: Some(SpecLiteral::Str(src.subrange(pos + 1, close))),
                            line: line,
                        },
                        scan_at(src, close + 1, line + nl),
                    )
                }
            } else if is_digit_char(c) {
                proof {
                    lemma_run_end(src, pos + 1, |ch: char| !is_digit_char(ch));
                    let ie = digit_run_end(src, pos + 1);
                    if ie < src.len() && src[ie] == '.' && ie + 1 < src.len() && is_digit_char(
                        src[ie + 1],
                    ) {
                        lemma_run_end(src, ie + 1, |ch: char| !is_digit_char(ch));
                    }
                }
                let e = number_end(src, pos);
                with_tok(
                    SpecToken {
                        type_: TokenType::Number,
                        lexeme: src.subrange(pos, e),
                        literal: Some(SpecLiteral::Num(src.subrange(pos, e))),
                        line: line,
                    },
                    scan_at(src, e, line),
                )
            } else if is_alpha_char(c) {
                proof {
                    lemma_run_end(src, pos + 1, |ch: char| !is_ident_char(ch));
                }
                let e = ident_end(src, pos);
                with_tok(
                    SpecToken {
                        type_: ident_type(src.subrange(pos, e)),
                        lexeme: src.subrange(pos, e),
                        literal: None,
                        line: line,
                    },
                    scan_at(src, e, line),
                )
            } else {
                with_err(
                    SpecError { kind: LexicalError::UnexpectedCharacter, line: line },
                    scan_at(src, pos + 1, line),
                )
            },
        }
    }
}

/// The outcome of scanning all of `src`, cursor at the start, line counter
/// at one.
pub open spec fn scan_result(src: Seq<char>) -> ScanOut {
    scan_at(src, 0, 1)
}

/// The start index of each token that scanning `src` from `pos` onward still
/// produces: one entry per token, in order, mirroring the case analysis of
/// [`scan_at`]. The end-of-file token's entry is the source length.
pub open spec fn token_starts(src: Seq<char>, pos: int) -> Seq<int>
    decreases src.len() - pos,
{
    if pos < 0 || pos >= src.len() {
        seq![src.len() as int]
    } else {
        let c = src[pos];
        match punct_type(c) {
            Some(_) => seq![pos] + token_starts(src, pos + 1),
            None => if c == '!' || c == '=' || c == '<' || c == '>' {
                if pos + 1 < src.len() && src[pos + 1] == '=' {
                    seq![pos] + token_starts(src, pos + 2)
                } else {
                    seq![pos] + token_starts(src, pos + 1)
                }
            } else if c == '/' {
                if pos + 1 < src.len() && src[pos + 1] == '/' {
                    proof {
                        lemma_run_end(src, pos + 2, |ch: char| ch == '\n');
                    }
                    token_starts(src, comment_end(src, pos))
                } else {
                    seq![pos] + token_starts(src, pos + 1)
                }
            } else if c == ' ' || c == '\r' || c == '\t' {
                token_starts(src, pos + 1)
            } else if c == '\n' {
                token_starts(src, pos + 1)
            } else if c == '"' {
                proof {
                    lemma_run_end(src, pos + 1, |ch: char| ch == '"');
                }
                let close = string_close(src, pos);
                if close >= src.len() {
                    token_starts(src, src.len() as int)
                } else {
                    seq![pos] + token_starts(src, close + 1)
                }
            } else if is_digit_char(c) {
                proof {
                    lemma_run_end(src, pos + 1, |ch: char| !is_digit_char(ch));
                    let ie = digit_run_end(src, pos + 1);
                    if ie < src.len() && src[ie] == '.' && ie + 1 < src.len() && is_digit_char(
                        src[ie + 1],
                    ) {
                        lemma_run_end(src, ie + 1, |ch: char| !is_digit_char(ch));
                    }
                }
                seq![pos] + token_starts(src, number_end(src, pos))
            } else if is_alpha_char(c) {
                proof {
                    lemma_run_end(src, pos + 1, |ch: char| !is_ident_char(ch));
                }
                seq![pos] + token_starts(src, ident_end(src, pos))
            } else {
                token_starts(src, pos + 1)
            },
        }
    }
}

/// The starts relation: scanning from `pos` with the counter at `line`, each
/// produced token's start index is in range, the token's lexeme is the source
/// slice standing at its start, and the token's line is `line` plus one per
/// newline character strictly before its start.
pub open spec fn starts_ok(
    src: Seq<char>,
    pos: int,
    line: int,
    toks: Seq<SpecToken>,
    starts: Seq<int>,
) -> bool {
    &&& starts.len() == toks.len()
    &&& forall|i: int| 0 <= i < starts.len() ==> pos <= #[trigger] starts[i] <= src.len()
    &&& forall|i: int|
        0 <= i < starts.len() ==> toks[i].line == line + newline_count(
            src,
            pos,
            #[trigger] starts[i],
        )
    &&& forall|i: int|
        0 <= i < starts.len() ==> toks[i].lexeme == src.subrange(
            #[trigger] starts[i],
            starts[i] + toks[i].lexeme.len() as int,
        )
}

/// The outcome of one step of the dispatch: where the cursor and the line
/// counter move, the at most one token recorded, and the at most one error
/// report recorded.
#[verifier::ext_equal]
pub struct StepOut {
    pub next: int,
    pub line: int,
    pub tok: Option<SpecToken>,
    pub err: Option<SpecError>,
}

/// The outcome of the one dispatch step at `pos` with the line counter at
/// `line`: the same case analysis as [`scan_at`], for a single lexeme.
/// Exactly one token is recorded for punctuation, operators, a lone slash, a
/// terminated string, a number and an identifier; nothing is recorded for
/// whitespace, a newline (which adds one line) and a comment (which stops at
/// the newline that ends it, leaving it unconsumed); exactly one report and
/// one consumed character for an unexpected character; and exactly one report
/// for an unterminated string, which consumes the rest of the source. The
/// line counter grows by exactly the number of newline characters consumed.
pub open spec fn step_at(src: Seq<char>, pos: int, line: int) -> StepOut
    recommends
        0 <= pos < src.len(),
{
    let c = src[pos];
    match punct_type(c) {
        Some(t) => StepOut {
            next: pos + 1,
            line: line,
            tok: Some(plain_token(t, src, pos, pos + 1, line)),
            err: None,
        },
        None => if c == '!' || c == '=' || c == '<' || c == '>' {
            if pos + 1 < src.len() && src[pos + 1] == '=' {
                StepOut {
                    next: pos + 2,
                    line: line,
                    tok: Some(plain_token(operator_types(c).1, src, pos, pos + 2, line)),
                    err: None,
                }
            } else {
                StepOut {
                    next: pos + 1,
                    line: line,
                    tok: Some(plain_token(operator_types(c).0, src, pos, pos + 1, line)),
                    err: None,
                }
            }
        } else if c == '/' {
            if pos + 1 < src.len() && src[pos + 1] == '/' {
                StepOut { next: comment_end(src, pos), line: line, tok: None, err: None }
            } else {
                StepOut {
                    next: pos + 1,
                    line: line,
                    tok: Some(plain_token(TokenType::Slash, src, pos, pos + 1, line)),
                    err: None,
                }
            }
        } else if c == ' ' || c == '\r' || c == '\t' {
            StepOut { next: pos + 1, line: line, tok: None, err: None }
        } else if c == '\n' {
            StepOut { next: pos + 1, line: line + 1, tok: None, err: None }
        } else if c == '"' {
            let close = string_close(src, pos);
            let nl = newline_count(src, pos + 1, close);
            if close >= src.len() {
                StepOut {
                    next: src.len() as int,
                    line: line + nl,
                    tok: None,
                    err: Some(
                        SpecError { kind: LexicalError::UnterminatedString, line: line + nl },
                    ),
                }
            } else {
                StepOut {
                    next: close + 1,
                    line: line + nl,
                    tok: Some(
                        SpecToken {
                            type_: TokenType::String,
                            lexeme: src.subrange(pos, close + 1),
                            literal: Some(SpecLiteral::Str(src.subrange(pos + 1, close))),
                            line: line,
                        },
                    ),
                    err: None,
                }
            }
        } else if is_digit_char(c) {
            let e = number_end(src, pos);
            StepOut {
                next: e,
                line: line,
                tok: Some(
                    SpecToken {
                        type_: TokenType::Number,
                        lexeme: src.subrange(pos, e),
                        literal: Some(SpecLiteral::Num(src.subrange(pos, e))),
                        line: line,
                    },
                ),
                err: None,
            }
        } else if is_alpha_char(c) {
            let e = ident_end(src, pos);
            StepOut {
                next: e,
                line: line,
                tok: Some(
                    SpecToken {
                        type_: ident_type(src.subrange(pos, e)),
                        lexeme: src.subrange(pos, e),
                        literal: None,
                        line: line,
                    },
                ),
                err: None,
            }
        } else {
            StepOut {
                next: pos + 1,
                line: line,
                tok: None,
                err: Some(SpecError { kind: LexicalError::UnexpectedCharacter, line: line }),
            }
        },
    }
}

/// From wherever the scan stands, the token sequence it still produces is
/// never empty, its last element is the synthetic end-of-file token (empty
/// lexeme, no literal), and no earlier element has the end-of-file kind.
pub proof fn lemma_scan_at_ends_in_eof(src: Seq<char>, pos: int, line: int)
    ensures
        scan_at(src, pos, line).toks.len() >= 1,
        scan_at(src, pos, line).toks.last().type_ == TokenType::Eof,
        scan_at(src, pos, line).toks.last().lexeme.len() == 0,
        scan_at(src, pos, line).toks.last().literal is None,
        forall|i: int|
            0 <= i < scan_at(src, pos, line).toks.len() - 1 ==> (#[trigger] scan_at(
                src,
                pos,
                line,
            ).toks[i]).type_ != TokenType::Eof,
    decreases src.len() - pos,
{
    if !(pos < 0 || pos >= src.len()) {
        let c = src[pos];
        match punct_type(c) {
            Some(t) => lemma_scan_at_ends_in_eof(src, pos + 1, line),
            None => if c == '!' || c == '=' || c == '<' || c == '>' {
                if pos + 1 < src.len() && src[pos + 1] == '=' {
                    lemma_scan_at_ends_in_eof(src, pos + 2, line);
                } else {
                    lemma_scan_at_ends_in_eof(src, pos + 1, line);
                }
            } else if c == '/' {
                if pos + 1 < src.len() && src[pos + 1] == '/' {
                    lemma_run_end(src, pos + 2, |ch: char| ch == '\n');
                    lemma_scan_at_ends_in_eof(src, comment_end(src, pos), line);
                } else {
                    lemma_scan_at_ends_in_eof(src, pos + 1, line);
                }
            } else if c == ' ' || c == '\r' || c == '\t' {
                lemma_scan_at_ends_in_eof(src, pos + 1, line);
            } else if c == '\n' {
                lemma_scan_at_ends_in_eof(src, pos + 1, line + 1);
            } else if c == '"' {
                lemma_run_end(src, pos + 1, |ch: char| ch == '"');
                let close = string_close(src, pos);
                let nl = newline_count(src, pos + 1, close);
                if close >= src.len() {
                    lemma_scan_at_ends_in_eof(src, src.len() as int, line + nl);
                } else {
                    lemma_scan_at_ends_in_eof(src, close + 1, line + nl);
                }
            } else if is_digit_char(c) {
                lemma_run_end(src, pos + 1, |ch: char| !is_digit_char(ch));
                let ie = digit_run_end(src, pos + 1);
                if ie < src.len() && src[ie] == '.' && ie + 1 < src.len() && is_digit_char(
                    src[ie + 1],
                ) {
                    lemma_run_end(src, ie + 1, |ch: char| !is_digit_char(ch));
                }
                lemma_scan_at_ends_in_eof(src, number_end(src, pos), line);
            } else if is_alpha_char(c) {
                lemma_run_end(src, pos + 1, |ch: char| !is_ident_char(ch));
                lemma_scan_at_ends_in_eof(src, ident_end(src, pos), line);
            } else {
                lemma_scan_at_ends_in_eof(src, pos + 1, line);
            },
        }
    }
}

/// Law: for every source the scan yields at least one token, the last one is
/// the end-of-file token with empty lexeme and no literal, and it is the only
/// token of that kind.
pub proof fn lemma_scan_ends_in_eof(src: Seq<char>)
    ensures
        scan_result(src).toks.len() >= 1,
        scan_result(src).toks.last().type_ == TokenType::Eof,
        scan_result(src).toks.last().lexeme.len() == 0,
        scan_result(src).toks.last().literal is None,
        forall|i: int|
            0 <= i < scan_result(src).toks.len() - 1 ==> (#[trigger] scan_result(
                src,
            ).toks[i]).type_ != TokenType::Eof,
{
    lemma_scan_at_ends_in_eof(src, 0, 1);
}

/// Law: scanning the empty source yields exactly one token, the end-of-file
/// token at line one, and no error report.
pub proof fn lemma_scan_empty_source()
    ensures
        scan_result(Seq::<char>::empty()) == (ScanOut {
            toks: seq![eof_token(1)],
            errs: Seq::<SpecError>::empty(),
        }),
{
    assert(scan_result(Seq::<char>::empty()) =~= (ScanOut {
        toks: seq![eof_token(1)],
        errs: Seq::<SpecError>::empty(),
    }));
}

/// A token the scanner may emit is well formed: the lexeme is empty exactly
/// for the end-of-file token, and a literal value is present exactly for
/// string and number tokens — a string payload for the former, a numeric
/// lexeme for the latter.
pub open spec fn wf_token(t: SpecToken) -> bool {
    &&& (t.type_ == TokenType::Eof <==> t.lexeme.len() == 0)
    &&& match t.literal {
        Some(SpecLiteral::Str(_)) => t.type_ == TokenType::String,
        Some(SpecLiteral::Num(_)) => t.type_ == TokenType::Number,
        None => t.type_ != TokenType::String && t.type_ != TokenType::Number,
    }
}

/// Prepending a well-formed token to an outcome of well-formed tokens yields
/// an outcome of well-formed tokens.
proof fn lemma_wf_cons(t: SpecToken, a: ScanOut, b: ScanOut)
    requires
        b == with_tok(t, a),
        wf_token(t),
        forall|i: int| 0 <= i < a.toks.len() ==> wf_token(#[trigger] a.toks[i]),
    ensures
        forall|i: int| 0 <= i < b.toks.len() ==> wf_token(#[trigger] b.toks[i]),
{
    assert forall|i: int| 0 <= i < b.toks.len() implies wf_token(#[trigger] b.toks[i]) by {
        if i > 0 {
            assert(b.toks[i] == a.toks[i - 1]);
        } else {
            assert(b.toks[0] == t);
        }
    }
}

/// Two outcomes with the same token sequence have well-formed tokens
/// together.
proof fn lemma_wf_same(a: ScanOut, b: ScanOut)
    requires
        b.toks == a.toks,
        forall|i: int| 0 <= i < a.toks.len() ==> wf_token(#[trigger] a.toks[i]),
    ensures
        forall|i: int| 0 <= i < b.toks.len() ==> wf_token(#[trigger] b.toks[i]),
{
    assert forall|i: int| 0 <= i < b.toks.len() implies wf_token(#[trigger] b.toks[i]) by {
        assert(b.toks[i] == a.toks[i]);
    }
}

/// From wherever the scan stands, every token it still produces is well
/// formed.
pub proof fn lemma_scan_at_tokens_wf(src: Seq<char>, pos: int, line: int)
    requires
        0 <= pos <= src.len(),
    ensures
        forall|i: int|
            0 <= i < scan_at(src, pos, line).toks.len() ==> wf_token(
                #[trigger] scan_at(src, pos, line).toks[i],
            ),
    decreases src.len() - pos,
{
    if !(pos < 0 || pos >= src.len()) {
        let c = src[pos];
        match punct_type(c) {
            Some(t) => {
                lemma_scan_at_tokens_wf(src, pos + 1, line);
                lemma_wf_cons(
                    plain_token(t, src, pos, pos + 1, line),
                    scan_at(src, pos + 1, line),
                    scan_at(src, pos, line),
                );
            },
            None => if c == '!' || c == '=' || c == '<' || c == '>' {
                if pos + 1 < src.len() && src[pos + 1] == '=' {
                    lemma_scan_at_tokens_wf(src, pos + 2, line);
                    lemma_wf_cons(
                        plain_token(operator_types(c).1, src, pos, pos + 2, line),
                        scan_at(src, pos + 2, line),
                        scan_at(src, pos, line),
                    );
                } else {
                    lemma_scan_at_tokens_wf(src, pos + 1, line);
                    lemma_wf_cons(
                        plain_token(operator_types(c).0, src, pos, pos + 1, line),
                        scan_at(src, pos + 1, line),
                        scan_at(src, pos, line),
                    );
                }
            } else if c == '/' {
                if pos + 1 < src.len() && src[pos + 1] == '/' {
                    lemma_run_end(src, pos + 2, |ch: char| ch == '\n');
                    lemma_scan_at_tokens_wf(src, comment_end(src, pos), line);
                    lemma_wf_same(
                        scan_at(src, comment_end(src, pos), line),
                        scan_at(src, pos, line),
                    );
                } else {
                    lemma_scan_at_tokens_wf(src, pos + 1, line);
                    lemma_wf_cons(
                        plain_token(TokenType::Slash, src, pos, pos + 1, line),
                        scan_at(src, pos + 1, line),
                        scan_at(src, pos, line),
                    );
                }
            } else if c == ' ' || c == '\r' || c == '\t' {
                lemma_scan_at_tokens_wf(src, pos + 1, line);
                lemma_wf_same(scan_at(src, pos + 1, line), scan_at(src, pos, line));
            } else if c == '\n' {
                lemma_scan_at_tokens_wf(src, pos + 1, line + 1);
                lemma_wf_same(scan_at(src, pos + 1, line + 1), scan_at(src, pos, line));
            } else if c == '"' {
                lemma_run_end(src, pos + 1, |ch: char| ch == '"');
                let close = string_close(src, pos);
                let nl = newline_count(src, pos + 1, close);
                if close >= src.len() {
                    lemma_scan_at_tokens_wf(src, src.len() as int, line + nl);
                    lemma_wf_same(
                        scan_at(src, src.len() as int, line + nl),
                        scan_at(src, pos, line),
                    );
                } else {
                    lemma_scan_at_tokens_wf(src, close + 1, line + nl);
                    lemma_wf_cons(
                        SpecToken {
                            type_: TokenType::String,
                            lexeme: src.subrange(pos, close + 1),
                            literal: Some(SpecLiteral::Str(src.subrange(pos + 1, close))),
                            line: line,
                        },
                        scan_at(src, close + 1, line + nl),
                        scan_at(src, pos, line),
                    );
                }
            } else if is_digit_char(c) {
                lemma_run_end(src, pos + 1, |ch: char| !is_digit_char(ch));
                let ie = digit_run_end(src, pos + 1);
                if ie < src.len() && src[ie] == '.' && ie + 1 < src.len() && is_digit_char(
                    src[ie + 1],
                ) {
                    lemma_run_end(src, ie + 1, |ch: char| !is_digit_char(ch));
                }
                let e = number_end(src, pos);
                lemma_scan_at_tokens_wf(src, e, line);
                lemma_wf_cons(
                    SpecToken {
                        type_: TokenType::Number,
                        lexeme: src.subrange(pos, e),
                        literal: Some(SpecLiteral::Num(src.subrange(pos, e))),
                        line: line,
                    },
                    scan_at(src, e, line),
                    scan_at(src, pos, line),
                );
            } else if is_alpha_char(c) {
                lemma_run_end(src, pos + 1, |ch: char| !is_ident_char(ch));
                let e = ident_end(src, pos);
                lemma_scan_at_tokens_wf(src, e, line);
                lemma_wf_cons(
                    SpecToken {
                        type_: ident_type(src.subrange(pos, e)),
                        lexeme: src.subrange(pos, e),
                        literal: None,
                        line: line,
                    },
                    scan_at(src, e, line),
                    scan_at(src, pos, line),
                );
            } else {
                lemma_scan_at_tokens_wf(src, pos + 1, line);
                lemma_wf_same(scan_at(src, pos + 1, line), scan_at(src, pos, line));
            },
        }
    }
}

/// Law: every token of a scan is well formed in the sense of [`wf_token`].
pub proof fn lemma_tokens_wf(src: Seq<char>)
    ensures
        forall|i: int|
            0 <= i < scan_result(src).toks.len() ==> wf_token(
                #[trigger] scan_result(src).toks[i],
            ),
{
    lemma_scan_at_tokens_wf(src, 0, 1);
}

/// Consuming characters none of which is a newline leaves the newline count
/// to the end of the source unchanged.
proof fn lemma_count_to_end_skip(src: Seq<char>, pos: int, next: int)
    requires
        0 <= pos <= next <= src.len(),
        forall|i: int| pos <= i < next ==> #[trigger] src[i] != '\n',
    ensures
        newline_count(src, pos, src.len() as int) == newline_count(src, next, src.len() as int),
{
    lemma_newline_count_split(src, pos, next, src.len() as int);
    lemma_newline_count_zero(src, pos, next);
}

/// From wherever the scan stands, the end-of-file token's line is the current
/// line plus one per remaining newline character, and every produced token's
/// line lies between the current line and that bound.
pub proof fn lemma_scan_at_lines(src: Seq<char>, pos: int, line: int)
    requires
        0 <= pos <= src.len(),
    ensures
        scan_at(src, pos, line).toks.len() >= 1,
        scan_at(src, pos, line).toks.last().line == line + newline_count(
            src,
            pos,
            src.len() as int,
        ),
        forall|i: int|
            0 <= i < scan_at(src, pos, line).toks.len() ==> line <= (#[trigger] scan_at(
                src,
                pos,
                line,
            ).toks[i]).line <= line + newline_count(src, pos, src.len() as int),
    decreases src.len() - pos,
{
    lemma_newline_count_bounds(src, pos, src.len() as int);
    if !(pos < 0 || pos >= src.len()) {
        let c = src[pos];
        let to_end = newline_count(src, pos, src.len() as int);
        match punct_type(c) {
            Some(t) => {
                lemma_count_to_end_skip(src, pos, pos + 1);
                lemma_scan_at_lines(src, pos + 1, line);
            },
            None => if c == '!' || c == '=' || c == '<' || c == '>' {
                if pos + 1 < src.len() && src[pos + 1] == '=' {
                    lemma_count_to_end_skip(src, pos, pos + 2);
                    lemma_scan_at_lines(src, pos + 2, line);
                } else {
                    lemma_count_to_end_skip(src, pos, pos + 1);
                    lemma_scan_at_lines(src, pos + 1, line);
                }
            } else if c == '/' {
                if pos + 1 < src.len() && src[pos + 1] == '/' {
                    lemma_run_end(src, pos + 2, |ch: char| ch == '\n');
                    let ce = comment_end(src, pos);
                    lemma_count_to_end_skip(src, pos, ce);
                    lemma_scan_at_lines(src, ce, line);
                } else {
                    lemma_count_to_end_skip(src, pos, pos + 1);
                    lemma_scan_at_lines(src, pos + 1, line);
                }
            } else if c == ' ' || c == '\r' || c == '\t' {
                lemma_count_to_end_skip(src, pos, pos + 1);
                lemma_scan_at_lines(src, pos + 1, line);
            } else if c == '\n' {
                assert(newline_count(src, pos, src.len() as int) == 1 + newline_count(
                    src,
                    pos + 1,
                    src.len() as int,
                ));
                lemma_scan_at_lines(src, pos + 1, line + 1);
            } else if c == '"' {
                lemma_run_end(src, pos + 1, |ch: char| ch == '"');
                let close = string_close(src, pos);
                let nl = newline_count(src, pos + 1, close);
                lemma_newline_count_bounds(src, pos + 1, close);
                assert(newline_count(src, pos, src.len() as int) == newline_count(
                    src,
                    pos + 1,
                    src.len() as int,
                ));
                lemma_newline_count_split(src, pos + 1, close, src.len() as int);
                if close >= src.len() {
                    lemma_scan_at_lines(src, src.len() as int, line + nl);
                } else {
                    lemma_count_to_end_skip(src, close, close + 1);
                    lemma_scan_at_lines(src, close + 1, line + nl);
                }
            } else if is_digit_char(c) {
                lemma_run_end(src, pos + 1, |ch: char| !is_digit_char(ch));
                let ie = digit_run_end(src, pos + 1);
                if ie < src.len() && src[ie] == '.' && ie + 1 < src.len() && is_digit_char(
                    src[ie + 1],
                ) {
                    lemma_run_end(src, ie + 1, |ch: char| !is_digit_char(ch));
                }
                let e = number_end(src, pos);
                assert forall|i: int| pos <= i < e implies #[trigger] src[i] != '\n' by {
                    if i > pos && i < ie {
                        assert(is_digit_char(src[i]));
                    }
                }
                lemma_count_to_end_skip(src, pos, e);
                lemma_scan_at_lines(src, e, line);
            } else if is_alpha_char(c) {
                lemma_run_end(src, pos + 1, |ch: char| !is_ident_char(ch));
                let e = ident_end(src, pos);
                assert forall|i: int| pos <= i < e implies #[trigger] src[i] != '\n' by {
                    if i > pos {
                        assert(is_ident_char(src[i]));
                    }
                }
                lemma_count_to_end_skip(src, pos, e);
                lemma_scan_at_lines(src, e, line);
            } else {
                lemma_count_to_end_skip(src, pos, pos + 1);
                lemma_scan_at_lines(src, pos + 1, line);
            },
        }
    }
}

/// Law: each newline character of the source increments the line counter
/// exactly once. The end-of-file token, scanned after all of them, carries
/// line one plus the source's newline count, and every token's line lies
/// between one and that bound.
pub proof fn lemma_line_counting(src: Seq<char>)
    ensures
        scan_result(src).toks.len() >= 1,
        scan_result(src).toks.last().line == 1 + newline_count(src, 0, src.len() as int),
        forall|i: int|
            0 <= i < scan_result(src).toks.len() ==> 1 <= (#[trigger] scan_result(
                src,
            ).toks[i]).line <= 1 + newline_count(src, 0, src.len() as int),
{
    lemma_scan_at_lines(src, 0, 1);
}

/// Prepending a token whose line is at or below every line of an outcome
/// whose tokens are ordered by line keeps the tokens ordered by line.
proof fn lemma_monotone_cons(t: SpecToken, a: ScanOut, b: ScanOut)
    requires
        b == with_tok(t, a),
        forall|i: int| 0 <= i < a.toks.len() ==> t.line <= (#[trigger] a.toks[i]).line,
        forall|i: int, j: int|
            0 <= i <= j < a.toks.len() ==> (#[trigger] a.toks[i]).line <= (#[trigger] a.toks[j]).line,
    ensures
        forall|i: int, j: int|
            0 <= i <= j < b.toks.len() ==> (#[trigger] b.toks[i]).line <= (#[trigger] b.toks[j]).line,
{
    assert forall|i: int, j: int| 0 <= i <= j < b.toks.len() implies (#[trigger] b.toks[i]).line
        <= (#[trigger] b.toks[j]).line by {
        if j > 0 {
            assert(b.toks[j] == a.toks[j - 1]);
        }
        if i > 0 {
            assert(b.toks[i] == a.toks[i - 1]);
        }
    }
}

/// Two outcomes with the same token sequence are ordered by line together.
proof fn lemma_monotone_same(a: ScanOut, b: ScanOut)
    requires
        b.toks == a.toks,
        forall|i: int, j: int|
            0 <= i <= j < a.toks.len() ==> (#[trigger] a.toks[i]).line <= (#[trigger] a.toks[j]).line,
    ensures
        forall|i: int, j: int|
            0 <= i <= j < b.toks.len() ==> (#[trigger] b.toks[i]).line <= (#[trigger] b.toks[j]).line,
{
    assert forall|i: int, j: int| 0 <= i <= j < b.toks.len() implies (#[trigger] b.toks[i]).line
        <= (#[trigger] b.toks[j]).line by {
        assert(b.toks[i] == a.toks[i]);
        assert(b.toks[j] == a.toks[j]);
    }
}

/// From wherever the scan stands, the produced tokens' lines never decrease
/// in output order.
pub proof fn lemma_scan_at_lines_monotone(src: Seq<char>, pos: int, line: int)
    requires
        0 <= pos <= src.len(),
    ensures
        forall|i: int, j: int|
            0 <= i <= j < scan_at(src, pos, line).toks.len() ==> (#[trigger] scan_at(
                src,
                pos,
                line,
            ).toks[i]).line <= (#[trigger] scan_at(src, pos, line).toks[j]).line,
    decreases src.len() - pos,
{
    if !(pos < 0 || pos >= src.len()) {
        let c = src[pos];
        match punct_type(c) {
            Some(t) => {
                lemma_scan_at_lines(src, pos + 1, line);
                lemma_scan_at_lines_monotone(src, pos + 1, line);
                lemma_monotone_cons(
                    plain_token(t, src, pos, pos + 1, line),
                    scan_at(src, pos + 1, line),
                    scan_at(src, pos, line),
                );
            },
            None => if c == '!' || c == '=' || c == '<' || c == '>' {
                if pos + 1 < src.len() && src[pos + 1] == '=' {
                    lemma_scan_at_lines(src, pos + 2, line);
                    lemma_scan_at_lines_monotone(src, pos + 2, line);
                    lemma_monotone_cons(
                        plain_token(operator_types(c).1, src, pos, pos + 2, line),
                        scan_at(src, pos + 2, line),
                        scan_at(src, pos, line),
                    );
                } else {
                    lemma_scan_at_lines(src, pos + 1, line);
                    lemma_scan_at_lines_monotone(src, pos + 1, line);
                    lemma_monotone_cons(
                        plain_token(operator_types(c).0, src, pos, pos + 1, line),
                        scan_at(src, pos + 1, line),
                        scan_at(src, pos, line),
                    );
                }
            } else if c == '/' {
                if pos + 1 < src.len() && src[pos + 1] == '/' {
                    lemma_run_end(src, pos + 2, |ch: char| ch == '\n');
                    lemma_scan_at_lines_monotone(src, comment_end(src, pos), line);
                    lemma_monotone_same(
                        scan_at(src, comment_end(src, pos), line),
                        scan_at(src, pos, line),
                    );
                } else {
                    lemma_scan_at_lines(src, pos + 1, line);
                    lemma_scan_at_lines_monotone(src, pos + 1, line);
                    lemma_monotone_cons(
                        plain_token(TokenType::Slash, src, pos, pos + 1, line),
                        scan_at(src, pos + 1, line),
                        scan_at(src, pos, line),
                    );
                }
            } else if c == ' ' || c == '\r' || c == '\t' {
                lemma_scan_at_lines_monotone(src, pos + 1, line);
                lemma_monotone_same(scan_at(src, pos + 1, line), scan_at(src, pos, line));
            } else if c == '\n' {
                lemma_scan_at_lines_monotone(src, pos + 1, line + 1);
                lemma_monotone_same(scan_at(src, pos + 1, line + 1), scan_at(src, pos, line));
            } else if c == '"' {
                lemma_run_end(src, pos + 1, |ch: char| ch == '"');
                let close = string_close(src, pos);
                let nl = newline_count(src, pos + 1, close);
                lemma_newline_count_bounds(src, pos + 1, close);
                if close >= src.len() {
                    lemma_scan_at_lines_monotone(src, src.len() as int, line + nl);
                    lemma_monotone_same(
                        scan_at(src, src.len() as int, line + nl),
                        scan_at(src, pos, line),
                    );
                } else {
                    lemma_scan_at_lines(src, close + 1, line + nl);
                    lemma_scan_at_lines_monotone(src, close + 1, line + nl);
                    lemma_monotone_cons(
                        SpecToken {
                            type_: TokenType::String,
                            lexeme: src.subrange(pos, close + 1),
                            literal: Some(SpecLiteral::Str(src.subrange(pos + 1, close))),
                            line: line,
                        },
                        scan_at(src, close + 1, line + nl),
                        scan_at(src, pos, line),
                    );
                }
            } else if is_digit_char(c) {
                lemma_run_end(src, pos + 1, |ch: char| !is_digit_char(ch));
                let ie = digit_run_end(src, pos + 1);
                if ie < src.len() && src[ie] == '.' && ie + 1 < src.len() && is_digit_char(
                    src[ie + 1],
                ) {
                    lemma_run_end(src, ie + 1, |ch: char| !is_digit_char(ch));
                }
                let e = number_end(src, pos);
                lemma_scan_at_lines(src, e, line);
                lemma_scan_at_lines_monotone(src, e, line);
                lemma_monotone_cons(
                    SpecToken {
                        type_: TokenType::Number,
                        lexeme: src.subrange(pos, e),
                        literal: Some(SpecLiteral::Num(src.subrange(pos, e))),
                        line: line,
                    },
                    scan_at(src, e, line),
                    scan_at(src, pos, line),
                );
            } else if is_alpha_char(c) {
                lemma_run_end(src, pos + 1, |ch: char| !is_ident_char(ch));
                let e = ident_end(src, pos);
                lemma_scan_at_lines(src, e, line);
                lemma_scan_at_lines_monotone(src, e, line);
                lemma_monotone_cons(
                    SpecToken {
                        type_: ident_type(src.subrange(pos, e)),
                        lexeme: src.subrange(pos, e),
                        literal: None,
                        line: line,
                    },
                    scan_at(src, e, line),
                    scan_at(src, pos, line),
                );
            } else {
                lemma_scan_at_lines_monotone(src, pos + 1, line);
                lemma_monotone_same(scan_at(src, pos + 1, line), scan_at(src, pos, line));
            },
        }
    }
}

/// Law: tokens come out in source order and their lines never decrease: a
/// token standing after more newline characters never reports an earlier
/// line.
pub proof fn lemma_lines_monotone(src: Seq<char>)
    ensures
        forall|i: int, j: int|
            0 <= i <= j < scan_result(src).toks.len() ==> (#[trigger] scan_result(
                src,
            ).toks[i]).line <= (#[trigger] scan_result(src).toks[j]).line,
{
    lemma_scan_at_lines_monotone(src, 0, 1);
}

/// Prepending a token that starts at `pos`, carries the line reached there
/// and holds the source slice at its start keeps the starts relation, moving
/// its base from `next` back to `pos`.
proof fn lemma_starts_cons(
    src: Seq<char>,
    pos: int,
    line: int,
    next: int,
    line2: int,
    t: SpecToken,
    a_toks: Seq<SpecToken>,
    a_starts: Seq<int>,
)
    requires
        0 <= pos <= next <= src.len(),
        line2 == line + newline_count(src, pos, next),
        t.line == line,
        t.lexeme == src.subrange(pos, pos + t.lexeme.len() as int),
        starts_ok(src, next, line2, a_toks, a_starts),
    ensures
        starts_ok(src, pos, line, seq![t] + a_toks, seq![pos] + a_starts),
{
    let b_toks = seq![t] + a_toks;
    let b_starts = seq![pos] + a_starts;
    assert(newline_count(src, pos, pos) == 0);
    assert forall|i: int| 0 <= i < b_starts.len() implies pos <= #[trigger] b_starts[i]
        <= src.len() by {
        if i > 0 {
            assert(b_starts[i] == a_starts[i - 1]);
        }
    }
    assert forall|i: int| 0 <= i < b_starts.len() implies b_toks[i].line == line + newline_count(
        src,
        pos,
        #[trigger] b_starts[i],
    ) by {
        if i > 0 {
            assert(b_starts[i] == a_starts[i - 1]);
            assert(b_toks[i] == a_toks[i - 1]);
            lemma_newline_count_split(src, pos, next, a_starts[i - 1]);
        }
    }
    assert forall|i: int| 0 <= i < b_starts.len() implies b_toks[i].lexeme == src.subrange(
        #[trigger] b_starts[i],
        b_starts[i] + b_toks[i].lexeme.len() as int,
    ) by {
        if i > 0 {
            assert(b_starts[i] == a_starts[i - 1]);
            assert(b_toks[i] == a_toks[i - 1]);
        }
    }
}

/// A step that recorded no token keeps the starts relation, moving its base
/// from `next` back to `pos`.
proof fn lemma_starts_same(
    src: Seq<char>,
    pos: int,
    line: int,
    next: int,
    line2: int,
    toks: Seq<SpecToken>,
    starts: Seq<int>,
)
    requires
        0 <= pos <= next <= src.len(),
        line2 == line + newline_count(src, pos, next),
        starts_ok(src, next, line2, toks, starts),
    ensures
        starts_ok(src, pos, line, toks, starts),
{
    assert forall|i: int| 0 <= i < starts.len() implies pos <= #[trigger] starts[i]
        <= src.len() by {
        assert(next <= starts[i]);
    }
    assert forall|i: int| 0 <= i < starts.len() implies toks[i].line == line + newline_count(
        src,
        pos,
        #[trigger] starts[i],
    ) by {
        lemma_newline_count_split(src, pos, next, starts[i]);
    }
}

/// From wherever the scan stands, the starts relation holds of its tokens and
/// their start indices.
pub proof fn lemma_scan_at_token_starts(src: Seq<char>, pos: int, line: int)
    requires
        0 <= pos <= src.len(),
    ensures
        starts_ok(src, pos, line, scan_at(src, pos, line).toks, token_starts(src, pos)),
    decreases src.len() - pos,
{
    if pos >= src.len() {
        assert(newline_count(src, pos, src.len() as int) == 0);
        assert(eof_token(line).lexeme =~= src.subrange(
            src.len() as int,
            src.len() as int + eof_token(line).lexeme.len() as int,
        ));
    } else {
        let c = src[pos];
        match punct_type(c) {
            Some(t) => {
                lemma_scan_at_token_starts(src, pos + 1, line);
                lemma_newline_count_zero(src, pos, pos + 1);
                lemma_starts_cons(
                    src,
                    pos,
                    line,
                    pos + 1,
                    line,
                    plain_token(t, src, pos, pos + 1, line),
                    scan_at(src, pos + 1, line).toks,
                    token_starts(src, pos + 1),
                );
            },
            None => if c == '!' || c == '=' || c == '<' || c == '>' {
                if pos + 1 < src.len() && src[pos + 1] == '=' {
                    lemma_scan_at_token_starts(src, pos + 2, line);
                    lemma_newline_count_zero(src, pos, pos + 2);
                    lemma_starts_cons(
                        src,
                        pos,
                        line,
                        pos + 2,
                        line,
                        plain_token(operator_types(c).1, src, pos, pos + 2, line),
                        scan_at(src, pos + 2, line).toks,
                        token_starts(src, pos + 2),
                    );
                } else {
                    lemma_scan_at_token_starts(src, pos + 1, line);
                    lemma_newline_count_zero(src, pos, pos + 1);
                    lemma_starts_cons(
                        src,
                        pos,
                        line,
                        pos + 1,
                        line,
                        plain_token(operator_types(c).0, src, pos, pos + 1, line),
                        scan_at(src, pos + 1, line).toks,
                        token_starts(src, pos + 1),
                    );
                }
            } else if c == '/' {
                if pos + 1 < src.len() && src[pos + 1] == '/' {
                    lemma_run_end(src, pos + 2, |ch: char| ch == '\n');
                    let ce = comment_end(src, pos);
                    lemma_scan_at_token_starts(src, ce, line);
                    lemma_newline_count_zero(src, pos, ce);
                    lemma_starts_same(
                        src,
                        pos,
                        line,
                        ce,
                        line,
                        scan_at(src, ce, line).toks,
                        token_starts(src, ce),
                    );
                } else {
                    lemma_scan_at_token_starts(src, pos + 1, line);
                    lemma_newline_count_zero(src, pos, pos + 1);
                    lemma_starts_cons(
                        src,
                        pos,
                        line,
                        pos + 1,
                        line,
                        plain_token(TokenType::Slash, src, pos, pos + 1, line),
                        scan_at(src, pos + 1, line).toks,
                        token_starts(src, pos + 1),
                    );
                }
            } else if c == ' ' || c == '\r' || c == '\t' {
                lemma_scan_at_token_starts(src, pos + 1, line);
                lemma_newline_count_zero(src, pos, pos + 1);
                lemma_starts_same(
                    src,
                    pos,
                    line,
                    pos + 1,
                    line,
                    scan_at(src, pos + 1, line).toks,
                    token_starts(src, pos + 1),
                );
            } else if c == '\n' {
                lemma_scan_at_token_starts(src, pos + 1, line + 1);
                assert(newline_count(src, pos + 1, pos + 1) == 0);
                assert(newline_count(src, pos, pos + 1) == 1);
                lemma_starts_same(
                    src,
                    pos,
                    line,
                    pos + 1,
                    line + 1,
                    scan_at(src, pos + 1, line + 1).toks,
                    token_starts(src, pos + 1),
                );
            } else if c == '"' {
                lemma_run_end(src, pos + 1, |ch: char| ch == '"');
                let close = string_close(src, pos);
                let nl = newline_count(src, pos + 1, close);
                lemma_newline_count_zero(src, pos, pos + 1);
                if close >= src.len() {
                    lemma_scan_at_token_starts(src, src.len() as int, line + nl);
                    lemma_newline_count_split(src, pos, pos + 1, src.len() as int);
                    lemma_starts_same(
                        src,
                        pos,
                        line,
                        src.len() as int,
                        line + nl,
                        scan_at(src, src.len() as int, line + nl).toks,
                        token_starts(src, src.len() as int),
                    );
                } else {
                    lemma_scan_at_token_starts(src, close + 1, line + nl);
                    lemma_newline_count_split(src, pos, pos + 1, close + 1);
                    lemma_newline_count_split(src, pos + 1, close, close + 1);
                    lemma_newline_count_zero(src, close, close + 1);
                    let t = SpecToken {
                        type_: TokenType::String,
                        lexeme: src.subrange(pos, close + 1),
                        literal: Some(SpecLiteral::Str(src.subrange(pos + 1, close))),
                        line: line,
                    };
                    assert(t.lexeme.len() == close + 1 - pos);
                    lemma_starts_cons(
                        src,
                        pos,
                        line,
                        close + 1,
                        line + nl,
                        t,
                        scan_at(src, close + 1, line + nl).toks,
                        token_starts(src, close + 1),
                    );
                }
            } else if is_digit_char(c) {
                lemma_run_end(src, pos + 1, |ch: char| !is_digit_char(ch));
                let ie = digit_run_end(src, pos + 1);
                if ie < src.len() && src[ie] == '.' && ie + 1 < src.len() && is_digit_char(
                    src[ie + 1],
                ) {
                    lemma_run_end(src, ie + 1, |ch: char| !is_digit_char(ch));
                }
                let e = number_end(src, pos);
                lemma_scan_at_token_starts(src, e, line);
                assert forall|i: int| pos <= i < e implies #[trigger] src[i] != '\n' by {
                    if i > pos && i < ie {
                        assert(is_digit_char(src[i]));
                    }
                }
                lemma_newline_count_zero(src, pos, e);
                let t = SpecToken {
                    type_: TokenType::Number,
                    lexeme: src.subrange(pos, e),
                    literal: Some(SpecLiteral::Num(src.subrange(pos, e))),
                    line: line,
                };
                assert(t.lexeme.len() == e - pos);
                lemma_starts_cons(
                    src,
                    pos,
                    line,
                    e,
                    line,
                    t,
                    scan_at(src, e, line).toks,
                    token_starts(src, e),
                );
            } else if is_alpha_char(c) {
                lemma_run_end(src, pos + 1, |ch: char| !is_ident_char(ch));
                let e = ident_end(src, pos);
                lemma_scan_at_token_starts(src, e, line);
                assert forall|i: int| pos <= i < e implies #[trigger] src[i] != '\n' by {
                    if i > pos {
                        assert(is_ident_char(src[i]));
                    }
                }
                lemma_newline_count_zero(src, pos, e);
                let t = SpecToken {
                    type_: ident_type(src.subrange(pos, e)),
                    lexeme: src.subrange(pos, e),
                    literal: None,
                    line: line,
                };
                assert(t.lexeme.len() == e - pos);
                lemma_starts_cons(
                    src,
                    pos,
                    line,
                    e,
                    line,
                    t,
                    scan_at(src, e, line).toks,
                    token_starts(src, e),
                );
            } else {
                lemma_scan_at_token_starts(src, pos + 1, line);
                lemma_newline_count_zero(src, pos, pos + 1);
                lemma_starts_same(
                    src,
                    pos,
                    line,
                    pos + 1,
                    line,
                    scan_at(src, pos + 1, line).toks,
                    token_starts(src, pos + 1),
                );
            },
        }
    }
}

/// Law: a token's line counts exactly the newline characters strictly before
/// the token's first character: the scan's tokens start at the indices
/// [`token_starts`] gives (the source length for the end-of-file token), each
/// token's lexeme is the source slice standing at its start, and each token's
/// line is one plus the number of newline characters before its start.
pub proof fn lemma_token_lines_exact(src: Seq<char>)
    ensures
        token_starts(src, 0).len() == scan_result(src).toks.len(),
        forall|i: int|
            0 <= i < token_starts(src, 0).len() ==> 0 <= #[trigger] token_starts(src, 0)[i]
                <= src.len(),
        forall|i: int|
            0 <= i < token_starts(src, 0).len() ==> scan_result(src).toks[i].line == 1
                + newline_count(src, 0, #[trigger] token_starts(src, 0)[i]),
        forall|i: int|
            0 <= i < token_starts(src, 0).len() ==> scan_result(src).toks[i].lexeme == src.subrange(
                #[trigger] token_starts(src, 0)[i],
                token_starts(src, 0)[i] + scan_result(src).toks[i].lexeme.len() as int,
            ),
{
    lemma_scan_at_token_starts(src, 0, 1);
}

/// Law: classification is deterministic. The whole outcome of a scan is a
/// function of the source characters alone, so two scanner instances over
/// equal sources yield equal token sequences and equal reports.
pub proof fn lemma_scan_deterministic(a: Seq<char>, b: Seq<char>)
    requires
        a == b,
    ensures
        scan_result(a) == scan_result(b),
{
}

/// The mathematical values of a token sequence.
pub open spec fn token_views(ts: Seq<Token>) -> Seq<SpecToken> {
    ts.map_values(|t: Token| t@)
}

/// The mathematical values of an error report sequence.
pub open spec fn error_views(es: Seq<ErrorReport>) -> Seq<SpecError> {
    es.map_values(|e: ErrorReport| e@)
}

/// A step that recorded one token `t` and moved the cursor and line counter
/// so that the spec scan at the old position equals `t` followed by the spec
/// scan at the new position preserves the scanner's completion.
proof fn lemma_step_tok(pre: Scanner, post: Scanner, t: SpecToken)
    requires
        post.source == pre.source,
        post.errors == pre.errors,
        token_views(post.tokens@) == token_views(pre.tokens@).push(t),
        scan_at(pre.source@, pre.current as int, pre.line as int) == with_tok(
            t,
            scan_at(post.source@, post.current as int, post.line as int),
        ),
    ensures
        post.completion() == pre.completion(),
{
    assert(pre.completion().toks =~= post.completion().toks);
    assert(pre.completion().errs =~= post.completion().errs);
    assert(pre.completion() =~= post.completion());
}

/// The analogue of [`lemma_step_tok`] for a step that recorded one error
/// report.
proof fn lemma_step_err(pre: Scanner, post: Scanner, e: SpecError)
    requires
        post.source == pre.source,
        post.tokens == pre.tokens,
        error_views(post.errors@) == error_views(pre.errors@).push(e),
        scan_at(pre.source@, pre.current as int, pre.line as int) == with_err(
            e,
            scan_at(post.source@, post.current as int, post.line as int),
        ),
    ensures
        post.completion() == pre.completion(),
{
    assert(pre.completion().toks =~= post.completion().toks);
    assert(pre.completion().errs =~= post.completion().errs);
    assert(pre.completion() =~= post.completion());
}

/// The analogue of [`lemma_step_tok`] for a step that recorded nothing:
/// whitespace, a newline, or a comment.
proof fn lemma_step_skip(pre: Scanner, post: Scanner)
    requires
        post.source == pre.source,
        post.tokens == pre.tokens,
        post.errors == pre.errors,
        scan_at(pre.source@, pre.current as int, pre.line as int) == scan_at(
            post.source@,
            post.current as int,
            post.line as int,
        ),
    ensures
        post.completion() == pre.completion(),
{
    assert(pre.completion() =~= post.completion());
}

/// Runtime counterpart of [`punct_type`].
pub fn punct_token_type(c: char) -> (r: Option<TokenType>)
    ensures
        r == punct_type(c),
{
    if c == '(' {
        Some(TokenType::LeftParen)
    } else if c == ')' {
        Some(TokenType::RightParen)
    } else if c == '{' {
        Some(TokenType::LeftBrace)
    } else if c == '}' {
        Some(TokenType::RightBrace)
    } else if c == ',' {
        Some(TokenType::Comma)
    } else if c == '.' {
        Some(TokenType::Dot)
    } else if c == '-' {
        Some(TokenType::Minus)
    } else if c == '+' {
        Some(TokenType::Plus)
    } else if c == ';' {
        Some(TokenType::Semicolon)
    } else if c == '*' {
        Some(TokenType::Star)
    } else {
        None
    }
}

/// Collects the characters of `s` into an indexable buffer; the scanner
/// indexes the source by character, not by byte, so that lexeme slicing stays
/// correct for multi-byte encodings.
fn chars_of(s: &str) -> (r: Vec<char>)
    ensures
        r@ == s@,
{
    broadcast use vstd::string::axiom_spec_iter;

    let mut r: Vec<char> = Vec::new();
    for c in it: s.chars()
        invariant
            it.seq() == s@,
            r@ == it.seq().subrange(0, it.index() as int),
    {
        r.push(c);
        proof {
            assert(r@ =~= it.seq().subrange(0, it.index() + 1));
        }
    }
    proof {
        assert(r@ =~= s@);
    }
    r
}

/// Relies on std's `FromIterator<char>` for `String`: collecting characters
/// yields the string of exactly those characters, in order.
#[verifier::external_body]
pub(crate) fn string_from_chars(chars: &[char]) -> (r: String)
    ensures
        r@ == chars@,
{
    chars.iter().collect()
}

/// The keyword table: looks `text` up among the sixteen reserved-word
/// spellings (exact, case-sensitive match).
pub fn keyword_type(text: &String) -> (r: Option<TokenType>)
    ensures
        r == keyword_type_spec(text@),
{
    if *text == "and".to_owned() {
        Some(TokenType::And)
    } else if *text == "class".to_owned() {
        Some(TokenType::Class)
    } else if *text == "else".to_owned() {
        Some(TokenType::Else)
    } else if *text == "false".to_owned() {
        Some(TokenType::False)
    } else if *text == "for".to_owned() {
        Some(TokenType::For)
    } else if *text == "fun".to_owned() {
        Some(TokenType::Fun)
    } else if *text == "if".to_owned() {
        Some(TokenType::If)
    } else if *text == "nil".to_owned() {
        Some(TokenType::Nil)
    } else if *text == "or".to_owned() {
        Some(TokenType::Or)
    } else if *text == "print".to_owned() {
        Some(TokenType::Print)
    } else if *text == "return".to_owned() {
        Some(TokenType::Return)
    } else if *text == "super".to_owned() {
        Some(TokenType::Super)
    } else if *text == "this".to_owned() {
        Some(TokenType::This)
    } else if *text == "true".to_owned() {
        Some(TokenType::True)
    } else if *text == "var".to_owned() {
        Some(TokenType::Var)
    } else if *text == "while".to_owned() {
        Some(TokenType::While)
    } else {
        None
    }
}

/// The scanner: owns the source as a character buffer, the growing token and
/// error-report sequences, the cursor pair `start` / `current` delimiting the
/// lexeme being recognized, and the 1-based line counter.
pub struct Scanner {
    pub source: Vec<char>,
    pub tokens: Vec<Token>,
    pub errors: Vec<ErrorReport>,
    pub start: usize,
    pub current: usize,
    pub line: usize,
}

impl Scanner {
    /// Well-formedness of the scanner state: the cursor pair is ordered and
    /// in bounds, the line counter is positive, and the counter has room to
    /// grow by one per character still unread.
    pub open spec fn inv(&self) -> bool {
        &&& self.start <= self.current <= self.source@.len()
        &&& 1 <= self.line
        &&& self.line + (self.source@.len() - self.current) <= usize::MAX
    }

    /// The full outcome this scanner is headed for: what is already recorded,
    /// followed by the outcome of scanning the rest of the source. Every
    /// scanning step preserves it.
    pub open spec fn completion(&self) -> ScanOut {
        let rest = scan_at(self.source@, self.current as int, self.line as int);
        ScanOut {
            toks: token_views(self.tokens@) + rest.toks,
            errs: error_views(self.errors@) + rest.errs,
        }
    }

    /// A scanner ready to scan `source` from the beginning: cursor at the
    /// start, line counter at one, nothing recorded yet.
    pub fn new(source: &str) -> (r: Scanner)
        requires
            source@.len() < usize::MAX,
        ensures
            r.inv(),
            r.source@ == source@,
            r.tokens@ == Seq::<Token>::empty(),
            r.errors@ == Seq::<ErrorReport>::empty(),
            r.start == 0,
            r.current == 0,
            r.line == 1,
    {
        Scanner {
            source: chars_of(source),
            tokens: Vec::new(),
            errors: Vec::new(),
            start: 0,
            current: 0,
            line: 1,
        }
    }

    /// The cursor has consumed the whole source.
    pub fn is_at_end(&self) -> (r: bool)
        ensures
            r == (self.current >= self.source@.len()),
    {
        self.current >= self.source.len()
    }

    /// The character under the cursor, without consuming it; the null
    /// character past the end of the source ("at end" is not an error).
    pub fn peek(&self) -> (r: char)
        ensures
            r == (if self.current < self.source@.len() {
                self.source@[self.current as int]
            } else {
                '\0'
            }),
    {
        if self.current >= self.source.len() {
            '\0'
        } else {
            self.source[self.current]
        }
    }

    /// The character one past the cursor, without consuming anything; the
    /// null character past the end of the source.
    pub fn peek_next(&self) -> (r: char)
        ensures
            r == (if self.current + 1 < self.source@.len() {
                self.source@[self.current + 1]
            } else {
                '\0'
            }),
    {
        proof {
            assert(self.source.len() == self.source@.len());
        }
        if self.current >= usize::MAX || self.current + 1 >= self.source.len() {
            '\0'
        } else {
            self.source[self.current + 1]
        }
    }

    /// Consumes one character: returns the character under the cursor and
    /// advances the cursor by one.
    pub fn advance(&mut self) -> (r: char)
        requires
            old(self).current < old(self).source@.len(),
        ensures
            r == old(self).source@[old(self).current as int],
            final(self).current == old(self).current + 1,
            final(self).source == old(self).source,
            final(self).tokens == old(self).tokens,
            final(self).errors == old(self).errors,
            final(self).start == old(self).start,
            final(self).line == old(self).line,
    {
        proof {
            assert(self.source.len() == self.source@.len());
        }
        let c = self.source[self.current];
        self.current = self.current + 1;
        c
    }

    /// One character of conditional lookahead: consumes the character under
    /// the cursor exactly when it equals `expected`, and reports whether it
    /// did.
    pub fn match_char(&mut self, expected: char) -> (r: bool)
        ensures
            r == (old(self).current < old(self).source@.len() && old(self).source@[old(
                self,
            ).current as int] == expected),
            final(self).current == (if r {
                old(self).current + 1
            } else {
                old(self).current as int
            }),
            final(self).source == old(self).source,
            final(self).tokens == old(self).tokens,
            final(self).errors == old(self).errors,
            final(self).start == old(self).start,
            final(self).line == old(self).line,
    {
        if self.current >= self.source.len() {
            return false;
        }
        if self.source[self.current] != expected {
            return false;
        }
        self.current = self.current + 1;
        true
    }

    /// Appends one token: its kind and literal as given, its lexeme the
    /// source slice `[start, current)`, its line the current line counter.
    pub fn add_token(&mut self, type_: TokenType, literal: Option<Literal>)
        requires
            old(self).start <= old(self).current <= old(self).source@.len(),
            1 <= old(self).line,
        ensures
            final(self).tokens@.len() == old(self).tokens@.len() + 1,
            token_views(final(self).tokens@) == token_views(old(self).tokens@).push(
                (SpecToken {
                    type_: type_,
                    lexeme: old(self).source@.subrange(
                        old(self).start as int,
                        old(self).current as int,
                    ),
                    literal: match literal {
                        Some(l) => Some(l@),
                        None => None,
                    },
                    line: old(self).line as int,
                }),
            ),
            final(self).source == old(self).source,
            final(self).errors == old(self).errors,
            final(self).start == old(self).start,
            final(self).current == old(self).current,
            final(self).line == old(self).line,
    {
        let text = string_from_chars(
            vstd::slice::slice_subrange(self.source.as_slice(), self.start, self.current),
        );
        let tok = Token::new(type_, text.as_str(), literal, self.line);
        self.tokens.push(tok);
        proof {
            assert(token_views(self.tokens@) =~= token_views(old(self).tokens@).push(tok@));
        }
    }

    /// String-literal mode, entered after the opening quote was consumed:
    /// consumes up to the closing quote and emits one string token whose
    /// literal is the exact text between the quotes (no escape processing;
    /// newlines are permitted and counted), or consumes to the end of the
    /// source and records an unterminated-string report at the final line.
    /// The token carries the line of its opening quote.
    pub fn stringify(&mut self)
        requires
            old(self).inv(),
            old(self).start + 1 == old(self).current,
            old(self).source@[old(self).start as int] == '"',
        ensures
            final(self).inv(),
            final(self).source == old(self).source,
            final(self).start == old(self).start,
            ({
                let src = old(self).source@;
                let pos = old(self).start as int;
                let close = string_close(src, pos);
                let nl = newline_count(src, pos + 1, close);
                &&& final(self).line == old(self).line + nl
                &&& if close >= src.len() {
                    &&& final(self).current == src.len()
                    &&& final(self).tokens == old(self).tokens
                    &&& error_views(final(self).errors@) == error_views(old(self).errors@).push(
                        (SpecError {
                            kind: LexicalError::UnterminatedString,
                            line: old(self).line + nl,
                        }),
                    )
                } else {
                    &&& final(self).current == close + 1
                    &&& final(self).errors == old(self).errors
                    &&& token_views(final(self).tokens@) == token_views(old(self).tokens@).push(
                        (SpecToken {
                            type_: TokenType::String,
                            lexeme: src.subrange(pos, close + 1),
                            literal: Some(SpecLiteral::Str(src.subrange(pos + 1, close))),
                            line: old(self).line as int,
                        }),
                    )
                }
            }),
    {
        let ghost src = self.source@;
        let ghost pos = self.start as int;
        let mut nl: usize = 0;
        proof {
            assert(self.source.len() == self.source@.len());
        }
        while self.peek() != '"' && !self.is_at_end()
            invariant
                self.inv(),
                self.source == old(self).source,
                self.start == old(self).start,
                self.tokens == old(self).tokens,
                self.errors == old(self).errors,
                self.line == old(self).line,
                src == self.source@,
                pos == self.start as int,
                pos + 1 <= self.current <= src.len(),
                forall|i: int| pos + 1 <= i < self.current ==> #[trigger] src[i] != '"',
                nl == newline_count(src, pos + 1, self.current as int),
                nl <= self.current - pos - 1,
            decreases src.len() - self.current,
        {
            proof {
                lemma_newline_count_snoc(src, pos + 1, self.current as int);
            }
            if self.peek() == '\n' {
                nl = nl + 1;
            }
            self.advance();
        }
        proof {
            lemma_run_end_is(src, pos + 1, |ch: char| ch == '"', self.current as int);
        }
        if self.is_at_end() {
            let report = ErrorReport {
                kind: LexicalError::UnterminatedString,
                line: self.line + nl,
            };
            self.errors.push(report);
            self.line = self.line + nl;
            proof {
                assert(error_views(self.errors@) =~= error_views(old(self).errors@).push(
                    report@,
                ));
            }
            return ;
        }
        let lit = Literal::String(
            string_from_chars(
                vstd::slice::slice_subrange(self.source.as_slice(), self.start + 1, self.current),
            ),
        );
        self.advance();
        self.add_token(TokenType::String, Some(lit));
        self.line = self.line + nl;
    }

    /// Number-literal mode, entered after the leading digit was consumed:
    /// consumes the maximal digit run, extends it by a fractional part only
    /// where a `.` follows the run and a digit follows the `.`, and emits one
    /// number token whose literal is the numeric lexeme. A trailing `.` is
    /// left for a later token.
    pub fn number(&mut self)
        requires
            old(self).inv(),
            old(self).start + 1 == old(self).current,
            is_digit_char(old(self).source@[old(self).start as int]),
        ensures
            final(self).inv(),
            final(self).source == old(self).source,
            final(self).start == old(self).start,
            final(self).errors == old(self).errors,
            final(self).line == old(self).line,
            final(self).current == number_end(old(self).source@, old(self).start as int),
            token_views(final(self).tokens@) == token_views(old(self).tokens@).push(
                (SpecToken {
                    type_: TokenType::Number,
                    lexeme: old(self).source@.subrange(
                        old(self).start as int,
                        number_end(old(self).source@, old(self).start as int),
                    ),
                    literal: Some(
                        SpecLiteral::Num(
                            old(self).source@.subrange(
                                old(self).start as int,
                                number_end(old(self).source@, old(self).start as int),
                            ),
                        ),
                    ),
                    line: old(self).line as int,
                }),
            ),
    {
        let ghost src = self.source@;
        let ghost pos = self.start as int;
        while digit_char(self.peek())
            invariant
                self.inv(),
                self.source == old(self).source,
                self.start == old(self).start,
                self.tokens == old(self).tokens,
                self.errors == old(self).errors,
                self.line == old(self).line,
                src == self.source@,
                pos == self.start as int,
                pos + 1 <= self.current <= src.len(),
                forall|i: int| pos + 1 <= i < self.current ==> is_digit_char(#[trigger] src[i]),
            decreases src.len() - self.current,
        {
            self.advance();
        }
        proof {
            lemma_run_end_is(src, pos + 1, |ch: char| !is_digit_char(ch), self.current as int);
        }
        let ghost ie = self.current as int;
        if self.peek() == '.' && digit_char(self.peek_next()) {
            self.advance();
            while digit_char(self.peek())
                invariant
                    self.inv(),
                    self.source == old(self).source,
                    self.start == old(self).start,
                    self.tokens == old(self).tokens,
                    self.errors == old(self).errors,
                    self.line == old(self).line,
                    src == self.source@,
                    pos == self.start as int,
                    ie + 1 <= self.current <= src.len(),
                    forall|i: int| ie + 1 <= i < self.current ==> is_digit_char(#[trigger] src[i]),
                decreases src.len() - self.current,
            {
                self.advance();
            }
            proof {
                lemma_run_end_is(src, ie + 1, |ch: char| !is_digit_char(ch), self.current as int);
            }
        }
        self.add_token(
            TokenType::Number,
            Some(
                Literal::Number(
                    string_from_chars(
                        vstd::slice::slice_subrange(self.source.as_slice(), self.start, self.current),
                    ),
                ),
            ),
        );
    }

    /// Identifier mode, entered after the leading letter or underscore was
    /// consumed: consumes the maximal run of identifier characters, then
    /// emits one token: of the matching reserved kind where the lexeme is a
    /// reserved word, else an identifier.
    pub fn identifier(&mut self)
        requires
            old(self).inv(),
            old(self).start + 1 == old(self).current,
            is_alpha_char(old(self).source@[old(self).start as int]),
        ensures
            final(self).inv(),
            final(self).source == old(self).source,
            final(self).start == old(self).start,
            final(self).errors == old(self).errors,
            final(self).line == old(self).line,
            final(self).current == ident_end(old(self).source@, old(self).start as int),
            token_views(final(self).tokens@) == token_views(old(self).tokens@).push(
                (SpecToken {
                    type_: ident_type(
                        old(self).source@.subrange(
                            old(self).start as int,
                            ident_end(old(self).source@, old(self).start as int),
                        ),
                    ),
                    lexeme: old(self).source@.subrange(
                        old(self).start as int,
                        ident_end(old(self).source@, old(self).start as int),
                    ),
                    literal: None,
                    line: old(self).line as int,
                }),
            ),
    {
        let ghost src = self.source@;
        let ghost pos = self.start as int;
        while ident_char(self.peek())
            invariant
                self.inv(),
                self.source == old(self).source,
                self.start == old(self).start,
                self.tokens == old(self).tokens,
                self.errors == old(self).errors,
                self.line == old(self).line,
                src == self.source@,
                pos == self.start as int,
                pos + 1 <= self.current <= src.len(),
                forall|i: int| pos + 1 <= i < self.current ==> is_ident_char(#[trigger] src[i]),
            decreases src.len() - self.current,
        {
            self.advance();
        }
        proof {
            lemma_run_end_is(src, pos + 1, |ch: char| !is_ident_char(ch), self.current as int);
        }
        let text = string_from_chars(
            vstd::slice::slice_subrange(self.source.as_slice(), self.start, self.current),
        );
        match keyword_type(&text) {
            Some(t) => self.add_token(t, None),
            None => self.add_token(TokenType::Identifier, None),
        }
    }

    /// Recognizes one lexeme (or skips whitespace, a newline, or a comment,
    /// or records one error report) at the cursor, which the caller has set
    /// to the start of the lexeme: the per-character dispatch. One call
    /// performs exactly the one step [`step_at`] describes — the cursor and
    /// line move of that step, at most one token appended, at most one report
    /// appended — consuming at least one character and preserving the
    /// scanner's completion.
    pub fn scan_token(&mut self)
        requires
            old(self).inv(),
            old(self).start == old(self).current,
            old(self).current < old(self).source@.len(),
        ensures
            final(self).inv(),
            final(self).source == old(self).source,
            final(self).start == old(self).start,
            old(self).current < final(self).current <= final(self).source@.len(),
            old(self).line <= final(self).line,
            final(self).completion() == old(self).completion(),
            ({
                let s = step_at(old(self).source@, old(self).current as int, old(self).line as int);
                &&& final(self).current as int == s.next
                &&& final(self).line as int == s.line
                &&& token_views(final(self).tokens@) == (match s.tok {
                    Some(t) => token_views(old(self).tokens@).push(t),
                    None => token_views(old(self).tokens@),
                })
                &&& error_views(final(self).errors@) == (match s.err {
                    Some(e) => error_views(old(self).errors@).push(e),
                    None => error_views(old(self).errors@),
                })
            }),
    {
        let ghost src = old(self).source@;
        let ghost pos = old(self).start as int;
        let ghost line = old(self).line as int;
        proof {
            assert(self.source.len() == self.source@.len());
        }
        let c = self.advance();
        if let Some(t) = punct_token_type(c) {
            self.add_token(t, None);
            proof {
                lemma_step_tok(*old(self), *self, plain_token(t, src, pos, pos + 1, line));
            }
            return ;
        }
        if c == '!' || c == '=' || c == '<' || c == '>' {
            if self.match_char('=') {
                let t = if c == '!' {
                    TokenType::BangEqual
                } else if c == '=' {
                    TokenType::EqualEqual
                } else if c == '<' {
                    TokenType::LessEqual
                } else {
                    TokenType::GreaterEqual
                };
                self.add_token(t, None);
                proof {
                    lemma_step_tok(*old(self), *self, plain_token(t, src, pos, pos + 2, line));
                }
            } else {
                let t = if c == '!' {
                    TokenType::Bang
                } else if c == '=' {
                    TokenType::Equal
                } else if c == '<' {
                    TokenType::Less
                } else {
                    TokenType::Greater
                };
                self.add_token(t, None);
                proof {
                    lemma_step_tok(*old(self), *self, plain_token(t, src, pos, pos + 1, line));
                }
            }
            return ;
        }
        if c == '/' {
            if self.match_char('/') {
                while self.peek() != '\n' && !self.is_at_end()
                    invariant
                        self.inv(),
                        self.source == old(self).source,
                        self.start == old(self).start,
                        self.tokens == old(self).tokens,
                        self.errors == old(self).errors,
                        self.line == old(self).line,
                        src == self.source@,
                        pos == self.start as int,
                        pos + 2 <= self.current <= src.len(),
                        forall|i: int| pos + 2 <= i < self.current ==> #[trigger] src[i] != '\n',
                    decreases src.len() - self.current,
                {
                    self.advance();
                }
                proof {
                    lemma_run_end_is(src, pos + 2, |ch: char| ch == '\n', self.current as int);
                    lemma_step_skip(*old(self), *self);
                }
            } else {
                self.add_token(TokenType::Slash, None);
                proof {
                    lemma_step_tok(
                        *old(self),
                        *self,
                        plain_token(TokenType::Slash, src, pos, pos + 1, line),
                    );
                }
            }
            return ;
        }
        if c == ' ' || c == '\r' || c == '\t' {
            proof {
                lemma_step_skip(*old(self), *self);
            }
            return ;
        }
        if c == '\n' {
            self.line = self.line + 1;
            proof {
                lemma_step_skip(*old(self), *self);
            }
            return ;
        }
        if c == '"' {
            self.stringify();
            proof {
                lemma_run_end(src, pos + 1, |ch: char| ch == '"');
                lemma_newline_count_bounds(src, pos + 1, string_close(src, pos));
                let close = string_close(src, pos);
                let nl = newline_count(src, pos + 1, close);
                if close >= src.len() {
                    lemma_step_err(
                        *old(self),
                        *self,
                        SpecError { kind: LexicalError::UnterminatedString, line: line + nl },
                    );
                } else {
                    lemma_step_tok(
                        *old(self),
                        *self,
                        SpecToken {
                            type_: TokenType::String,
                            lexeme: src.subrange(pos, close + 1),
                            literal: Some(SpecLiteral::Str(src.subrange(pos + 1, close))),
                            line: line,
                        },
                    );
                }
            }
            return ;
        }
        if digit_char(c) {
            self.number();
            proof {
                lemma_run_end(src, pos + 1, |ch: char| !is_digit_char(ch));
                let ie = digit_run_end(src, pos + 1);
                if ie < src.len() && src[ie] == '.' && ie + 1 < src.len() && is_digit_char(
                    src[ie + 1],
                ) {
                    lemma_run_end(src, ie + 1, |ch: char| !is_digit_char(ch));
                }
                let e = number_end(src, pos);
                lemma_step_tok(
                    *old(self),
                    *self,
                    SpecToken {
                        type_: TokenType::Number,
                        lexeme: src.subrange(pos, e),
                        literal: Some(SpecLiteral::Num(src.subrange(pos, e))),
                        line: line,
                    },
                );
            }
            return ;
        }
        if alpha_char(c) {
            self.identifier();
            proof {
                lemma_run_end(src, pos + 1, |ch: char| !is_ident_char(ch));
                let e = ident_end(src, pos);
                lemma_step_tok(
                    *old(self),
                    *self,
                    SpecToken {
                        type_: ident_type(src.subrange(pos, e)),
                        lexeme: src.subrange(pos, e),
                        literal: None,
                        line: line,
                    },
                );
            }
            return ;
        }
        let report = ErrorReport { kind: LexicalError::UnexpectedCharacter, line: self.line };
        self.errors.push(report);
        proof {
            assert(error_views(self.errors@) =~= error_views(old(self).errors@).push(report@));
            lemma_step_err(
                *old(self),
                *self,
                SpecError { kind: LexicalError::UnexpectedCharacter, line: line },
            );
        }
    }

    /// Scans the whole source: runs the dispatch until the source is
    /// exhausted, then appends the one end-of-file token. Returns the full
    /// token sequence; the error reports gathered along the way stay in
    /// `errors`. The token sequence and the reports are exactly
    /// [`scan_result`] of the source. Single use: the tokens are moved out,
    /// so the same instance cannot yield them twice.
    pub fn scan_tokens(&mut self) -> (r: Vec<Token>)
        requires
            old(self).inv(),
            old(self).current == 0,
            old(self).line == 1,
            old(self).tokens@.len() == 0,
            old(self).errors@.len() == 0,
        ensures
            final(self).source == old(self).source,
            token_views(r@) == scan_result(old(self).source@).toks,
            error_views(final(self).errors@) == scan_result(old(self).source@).errs,
    {
        let ghost src = old(self).source@;
        while !self.is_at_end()
            invariant
                self.inv(),
                self.source == old(self).source,
                self.completion() == old(self).completion(),
            decreases self.source@.len() - self.current,
        {
            self.start = self.current;
            self.scan_token();
        }
        let ghost toks_before = self.tokens@;
        let ghost line_end = self.line as int;
        proof {
            assert(token_views(old(self).tokens@) =~= Seq::<SpecToken>::empty());
            assert(error_views(old(self).errors@) =~= Seq::<SpecError>::empty());
            assert(token_views(toks_before) + scan_at(src, self.current as int, line_end).toks
                =~= scan_result(src).toks);
            assert(error_views(self.errors@) + scan_at(src, self.current as int, line_end).errs
                =~= scan_result(src).errs);
            assert(scan_at(src, self.current as int, line_end).toks =~= seq![
                eof_token(line_end),
            ]);
            assert(scan_at(src, self.current as int, line_end).errs =~= Seq::<SpecError>::empty());
        }
        let eof = Token::new(TokenType::Eof, "", None, self.line);
        self.tokens.push(eof);
        proof {
            reveal_strlit("");
            assert(eof@.lexeme =~= Seq::<char>::empty());
            assert(eof@ =~= eof_token(line_end));
            assert(token_views(self.tokens@) =~= token_views(toks_before).push(
                eof_token(line_end),
            ));
            assert(token_views(self.tokens@) =~= scan_result(src).toks);
            assert(error_views(self.errors@) =~= scan_result(src).errs);
        }
        let mut out: Vec<Token> = Vec::new();
        core::mem::swap(&mut out, &mut self.tokens);
        out
    }
}

} // verus!
