//! Front end of a small imperative language: a tokenizer and a
//! recursive-descent parser, with their behaviour stated as contracts.
//!
//! [`lexer`] turns text into tokens and [`parser`] turns tokens into the
//! syntax tree of [`ast`]. What each of them yields is defined once, as
//! mathematics: the tokens of a text in [`lexicon`], the tree of a token
//! sequence in [`grammar`], the value of a numeral in [`numeral`]. The
//! executable code is proved to compute exactly that, without panics: bad
//! input comes back as an error value.

pub mod ast;
pub mod grammar;
pub mod lexer;
pub mod lexicon;
pub mod numeral;
pub mod parser;
pub mod text;
