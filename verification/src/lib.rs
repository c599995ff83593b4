//! A lexer, source map and parser front end for exploring Delphi code,
//! with its behaviour stated in contracts and proved.

pub mod codemap;
pub mod driver;
pub mod errors;
pub mod lex;
pub mod parse;
pub mod text;

pub use driver::Driver;
