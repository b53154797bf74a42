//! A tokenizer and a recursive-descent parser for a small statically-typed
//! language, with the syntax tree they build.
//!
//! The text is read as a sequence of characters. [`lexer::Lexer`] hands out
//! its tokens one by one; [`parser::Parser`] pulls them as it needs them,
//! one token ahead, and builds [`statement::Statement`]s and
//! [`statement::Expression`]s. [`parser::parse_source`] does both for a whole
//! text.
//!
//! Every function is specified against a mathematical model. The tokenizer
//! is the function [`lexer::lex`] on sequences of characters. The parser is
//! the family of functions in [`grammar`], from a sequence of tokens to the
//! tree that stands at its front and the tokens behind it. What holds of
//! these functions is proved beside them:
//!
//! - what the tokenizer hands out is genuine ([`lexer::lemma_lex_genuine`]),
//!   and what is genuine, it reads back from the way it is written
//!   ([`lexer::lemma_retokenize`]);
//! - every expression is read back from the way it is written, so operators
//!   group by rank and to the left, and parentheses come first
//!   ([`written::lemma_read_back`]);
//! - a list of statements reaches the end of the text or a `}`, whatever
//!   stands in between ([`grammar::lemma_statements_progress`]);
//! - a block stands only as the `else` arm of a conditional
//!   ([`grammar::lemma_statements_shaped`]), and every numeric literal in the
//!   tree is a decimal numeral ([`numerals::lemma_statements_numerals`]).
//!
//! A numeric literal is held as it was written; what number it stands for is
//! left to the caller. A numeric literal that is no decimal numeral, such as
//! `1.2.3`, is not tokenized at all: [`lexer::tokenize`] and
//! [`parser::parse_source`] say whether a text holds one.
pub mod chars;
pub mod token;
pub mod lexer;
pub mod statement;
pub mod diagnostic;
pub mod grammar;
pub mod parser;
pub mod expr;
pub mod numerals;
pub mod written;
pub mod render;
