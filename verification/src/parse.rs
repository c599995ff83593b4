//! Parse a stream of `Token`s into an *Abstract Syntax Tree* we can use for
//! the later steps.

pub use self::ast::{DottedIdent, Ident, Literal, LiteralKind, LiteralKindView};
pub use self::parser::{
    Parser, cover, cover_steps, dotted_parts, ident_ranges, ident_text, is_dot_at, is_ident_at,
    lemma_cover_bounds, literal_of, part_ranges, prepend_parts,
};

mod ast;
mod parser;
