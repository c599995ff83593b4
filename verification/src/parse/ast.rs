//! The nodes of the abstract syntax tree.

use vstd::prelude::*;
use crate::codemap::Span;

verus! {

/// An identifier and where it was written.
#[derive(Clone, Debug, PartialEq)]
pub struct Ident {
    /// Where the identifier was written.
    pub span: Span,
    /// The identifier itself.
    pub name: String,
}

/// A dotted name such as `System.SysUtils`, and where it was written.
#[derive(Clone, Debug, PartialEq)]
pub struct DottedIdent {
    /// The span covering every part.
    pub span: Span,
    /// The identifiers between the dots, in order.
    pub parts: Vec<Ident>,
}

/// A literal and where it was written.
#[derive(Clone, Debug, PartialEq)]
pub struct Literal {
    /// Where the literal was written.
    pub span: Span,
    /// What the literal is.
    pub kind: LiteralKind,
}

/// The kinds of literal.
#[derive(Clone, Debug, PartialEq)]
pub enum LiteralKind {
    /// An integer and its value.
    Integer(usize),
    /// A decimal number, as written.
    Decimal(String),
    /// A string.
    String(String),
}

/// The value of a `LiteralKind`.
pub enum LiteralKindView {
    Integer(usize),
    Decimal(Seq<char>),
    String(Seq<char>),
}

impl View for LiteralKind {
    type V = LiteralKindView;

    open spec fn view(&self) -> LiteralKindView {
        match self {
            LiteralKind::Integer(n) => LiteralKindView::Integer(*n),
            LiteralKind::Decimal(s) => LiteralKindView::Decimal(s@),
            LiteralKind::String(s) => LiteralKindView::String(s@),
        }
    }
}

} // verus!
