//! Lexical scanner for a small dynamic scripting language: the first stage of
//! an interpreter pipeline. A [`scanner::Scanner`] turns raw source text into
//! a flat, ordered sequence of [`token::Token`] values terminated by a single
//! end-of-file token, reporting malformed input without halting the scan.

pub mod report;
pub mod scanner;
pub mod token;
pub mod token_type;
