//! A PDF engine core: lexing, parsing, object model, stream filters,
//! cross-reference handling and document serialisation.
pub mod error;
pub mod object;
pub mod text;
pub mod lexer;
pub mod numbers;
pub mod ast_parser;
pub mod crypto;
pub mod font;
pub mod xref;
pub mod document;
pub mod catalog;
pub mod content;
pub mod edit;
pub mod parser;
pub mod graphics;
pub mod image;
pub mod save;
pub mod filter;
pub mod round_trip;
