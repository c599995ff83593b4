//! A parser for turning a stream of tokens into an abstract syntax tree.

use vstd::prelude::*;
use crate::codemap::{CodeMap, FileMapMut, FileMapView, SpanView, lemma_with_ranges_keeps_span, lemma_with_ranges_push};
use crate::errors::ErrorKind;
use crate::lex::{Token, TokenKind, TokenKindView};
use crate::parse::ast::{DottedIdent, Ident, Literal, LiteralKind, LiteralKindView};

verus! {

broadcast use vstd::seq::group_seq_axioms;

/// The literal that a token stands for, if it is one.
pub open spec fn literal_of(k: TokenKindView) -> Option<LiteralKindView> {
    match k {
        TokenKindView::Integer(n) => Some(LiteralKindView::Integer(n)),
        TokenKindView::Decimal(t) => Some(LiteralKindView::Decimal(t)),
        TokenKindView::QuotedString(t) => Some(LiteralKindView::String(t)),
        _ => None,
    }
}

/// The token at `i` is an identifier.
pub open spec fn is_ident_at(toks: Seq<Token>, i: int) -> bool {
    0 <= i < toks.len() && toks[i].kind@ is Identifier
}

/// The token at `i` is a dot.
pub open spec fn is_dot_at(toks: Seq<Token>, i: int) -> bool {
    0 <= i < toks.len() && toks[i].kind@ is Dot
}

/// The text of an identifier token.
pub open spec fn ident_text(k: TokenKindView) -> Seq<char> {
    match k {
        TokenKindView::Identifier(t) => t,
        _ => Seq::empty(),
    }
}

/// The positions of the identifiers of the dotted name that starts at
/// `i` (identifiers separated by dots), or the position where an
/// identifier was expected and is missing.
pub open spec fn dotted_parts(toks: Seq<Token>, i: int) -> Result<Seq<int>, int>
    decreases toks.len() - i,
{
    if !is_ident_at(toks, i) {
        Err(i)
    } else if is_dot_at(toks, i + 1) {
        match dotted_parts(toks, i + 2) {
            Ok(rest) => Ok(seq![i] + rest),
            Err(j) => Err(j),
        }
    } else {
        Ok(seq![i])
    }
}

/// Every integer, decimal and quoted-string token is a literal with the
/// same value, whatever that value is, and no other token is a literal.
pub proof fn lemma_literal_of_tokens(k: TokenKindView)
    ensures
        k matches TokenKindView::Integer(n) ==> literal_of(k) == Some(LiteralKindView::Integer(n)),
        k matches TokenKindView::Decimal(t) ==> literal_of(k) == Some(LiteralKindView::Decimal(t)),
        k matches TokenKindView::QuotedString(t) ==> literal_of(k) == Some(LiteralKindView::String(t)),
        !(k is Integer || k is Decimal || k is QuotedString) ==> literal_of(k) is None,
{
}

/// The name of an identifier token is its whole text, whatever its length.
pub proof fn lemma_ident_text_whole(t: Seq<char>)
    ensures
        ident_text(TokenKindView::Identifier(t)) == t,
        forall|toks: Seq<Token>, i: int|
            0 <= i < toks.len() && toks[i].kind@ == TokenKindView::Identifier(t) ==> #[trigger] is_ident_at(
                toks,
                i,
            ),
{
}

/// The shape of a dotted name, told by the kinds of the tokens alone: it
/// starts at `i`, its parts are identifiers two tokens apart with a dot
/// between each two, and the token after its last part is no dot. Only a
/// dot continues a name: an identifier not followed by a dot is a whole
/// name of one part. When no name can be read, the position given is the
/// start, or a token after a dot, and holds no identifier.
pub proof fn lemma_dotted_parts_shape(toks: Seq<Token>, i: int)
    requires
        0 <= i,
    ensures
        (i < toks.len() && toks[i].kind@ is Identifier && !(i + 1 < toks.len() && toks[i + 1].kind@ is Dot))
            ==> dotted_parts(toks, i) == Ok::<Seq<int>, int>(seq![i]),
        dotted_parts(toks, i) matches Ok(idx) ==> {
            &&& idx.len() >= 1
            &&& idx[0] == i
            &&& forall|k: int|
                0 <= k < idx.len() ==> 0 <= #[trigger] idx[k] < toks.len() && toks[idx[k]].kind@ is Identifier
            &&& forall|k: int|
                0 <= k < idx.len() - 1 ==> #[trigger] idx[k + 1] == idx[k] + 2 && toks[idx[k] + 1].kind@ is Dot
            &&& !(idx.last() + 1 < toks.len() && toks[idx.last() + 1].kind@ is Dot)
        },
        dotted_parts(toks, i) matches Err(j) ==> {
            &&& i <= j
            &&& !(j < toks.len() && toks[j].kind@ is Identifier)
            &&& (j == i || (j >= i + 2 && j - 1 < toks.len() && toks[j - 1].kind@ is Dot))
        },
    decreases toks.len() - i,
{
    if is_ident_at(toks, i) && is_dot_at(toks, i + 1) {
        lemma_dotted_parts_shape(toks, i + 2);
        if let Ok(rest) = dotted_parts(toks, i + 2) {
            let idx = seq![i] + rest;
            assert forall|k: int| 0 <= k < idx.len() implies 0 <= #[trigger] idx[k] < toks.len()
                && toks[idx[k]].kind@ is Identifier by {
                if k > 0 {
                    assert(idx[k] == rest[k - 1]);
                }
            }
            assert forall|k: int| 0 <= k < idx.len() - 1 implies #[trigger] idx[k + 1] == idx[k] + 2
                && toks[idx[k] + 1].kind@ is Dot by {
                if k > 0 {
                    let k1 = k - 1;
                    assert(idx[k] == rest[k1]);
                    assert(idx[k + 1] == rest[k1 + 1]);
                    assert(rest[k1 + 1] == rest[k1] + 2 && toks[rest[k1] + 1].kind@ is Dot);
                } else {
                    assert(idx[1] == rest[0]);
                }
            }
            assert(idx.last() == rest.last());
        }
    }
}

/// `r` with the positions `p` put in front when it holds positions.
pub open spec fn prepend_parts(p: Seq<int>, r: Result<Seq<int>, int>) -> Result<Seq<int>, int> {
    match r {
        Ok(rest) => Ok(p + rest),
        Err(j) => Err(j),
    }
}

/// The smallest interval holding each of the non-empty list `rs`, merged
/// from the first on: the earliest start and the latest end.
pub open spec fn cover(rs: Seq<(usize, usize)>) -> (usize, usize)
    decreases rs.len(),
{
    if rs.len() <= 1 {
        rs[0]
    } else {
        let c = cover(rs.drop_last());
        let l = rs.last();
        (if c.0 <= l.0 {
            c.0
        } else {
            l.0
        }, if c.1 >= l.1 {
            c.1
        } else {
            l.1
        })
    }
}

/// The intervals that merging `rs` from the first on registers, one per
/// merge.
pub open spec fn cover_steps(rs: Seq<(usize, usize)>) -> Seq<(usize, usize)>
    decreases rs.len(),
{
    if rs.len() <= 1 {
        Seq::empty()
    } else {
        cover_steps(rs.drop_last()).push(cover(rs))
    }
}

/// The interval that merging gives holds every merged interval, and its
/// ends are ends of merged intervals: it is the smallest that holds them
/// all.
pub proof fn lemma_cover_bounds(rs: Seq<(usize, usize)>)
    requires
        rs.len() >= 1,
    ensures
        forall|k: int| 0 <= k < rs.len() ==> cover(rs).0 <= (#[trigger] rs[k]).0 && rs[k].1 <= cover(rs).1,
        exists|k: int| 0 <= k < rs.len() && cover(rs).0 == (#[trigger] rs[k]).0,
        exists|k: int| 0 <= k < rs.len() && cover(rs).1 == (#[trigger] rs[k]).1,
    decreases rs.len(),
{
    if rs.len() == 1 {
        assert(cover(rs).0 == rs[0].0);
    } else {
        let p = rs.drop_last();
        lemma_cover_bounds(p);
        assert forall|k: int| 0 <= k < rs.len() implies cover(rs).0 <= (#[trigger] rs[k]).0 && rs[k].1
            <= cover(rs).1 by {
            if k < rs.len() - 1 {
                assert(rs[k] == p[k]);
            }
        }
        let k0 = choose|k: int| 0 <= k < p.len() && cover(p).0 == (#[trigger] p[k]).0;
        let k1 = choose|k: int| 0 <= k < p.len() && cover(p).1 == (#[trigger] p[k]).1;
        assert(rs[k0] == p[k0]);
        assert(rs[k1] == p[k1]);
        let last = rs.len() - 1;
        if cover(rs).0 == rs[last].0 {
            assert(cover(rs).0 == rs[last].0);
        } else {
            assert(cover(rs).0 == rs[k0].0);
        }
        if cover(rs).1 == rs[last].1 {
            assert(cover(rs).1 == rs[last].1);
        } else {
            assert(cover(rs).1 == rs[k1].1);
        }
    }
}

/// The byte intervals, in `file`, of the spans of the tokens at `idx`.
pub open spec fn part_ranges(file: FileMapView, toks: Seq<Token>, idx: Seq<int>) -> Seq<
    (usize, usize),
> {
    idx.map_values(|k: int| file.span_range(toks[k].span@)->0)
}

/// The byte intervals, in `file`, of the spans of identifiers.
pub open spec fn ident_ranges(file: FileMapView, parts: Seq<Ident>) -> Seq<(usize, usize)> {
    parts.map_values(|p: Ident| file.span_range(p.span@)->0)
}

/// A parser for turning a stream of tokens into an Abstract Syntax Tree.
///
/// It borrows the `FileMap` that the tokens' spans belong to, so that the
/// spans of the nodes it builds are registered there.
#[derive(Debug)]
pub struct Parser<'a> {
    tokens: Vec<Token>,
    filemap: FileMapMut<'a>,
    current_index: usize,
}

impl<'a> Parser<'a> {
    /// The tokens being parsed.
    pub closed spec fn tokens(&self) -> Seq<Token> {
        self.tokens@
    }

    /// The position of the next token to read.
    pub closed spec fn index(&self) -> int {
        self.current_index as int
    }

    /// The files of the borrowed `CodeMap`, as they are now.
    pub closed spec fn files(&self) -> Seq<FileMapView> {
        self.filemap.files()
    }

    /// The position, in the `CodeMap`, of the file the tokens belong to.
    pub closed spec fn file_index(&self) -> int {
        self.filemap.index()
    }

    /// The current state of the file the tokens belong to.
    pub open spec fn file(&self) -> FileMapView {
        self.files()[self.file_index()]
    }

    /// The parser's file is a file of the map.
    pub open spec fn wf(&self) -> bool {
        0 <= self.file_index() < self.files().len()
    }

    /// The borrow of the `CodeMap`.
    pub closed spec fn target(self) -> &'a mut CodeMap {
        self.filemap.target()
    }

    /// Once the parser is done with, the borrowed `CodeMap` holds the files
    /// as the parser last saw them.
    pub proof fn lemma_resolved(p: Parser<'a>)
        requires
            has_resolved(p),
        ensures
            (*final(p.target()))@ == p.files(),
    {
        crate::codemap::lemma_handle_resolved(p.filemap);
    }

    /// Create a new parser over `tokens`, whose spans belong to the file
    /// that `filemap` stands for.
    pub fn new(tokens: Vec<Token>, filemap: FileMapMut<'a>) -> (p: Parser<'a>)
        ensures
            p.tokens() == tokens@,
            p.index() == 0,
            p.files() == filemap.files(),
            p.file_index() == filemap.index(),
            p.target() == filemap.target(),
    {
        let current_index: usize = 0;
        Parser { tokens, filemap, current_index }
    }

    /// Peek at the current token.
    fn peek(&self) -> (r: Option<&TokenKind>)
        ensures
            match r {
                Some(k) => 0 <= self.index() < self.tokens().len() && *k == self.tokens()[self.index()].kind,
                None => self.index() >= self.tokens().len(),
            },
    {
        if self.current_index < self.tokens.len() {
            Some(&self.tokens[self.current_index].kind)
        } else {
            None
        }
    }

    /// Get the current token, moving the index along one.
    fn next(&mut self) -> (r: Option<&Token>)
        ensures
            final(self).tokens() == old(self).tokens(),
            final(self).files() == old(self).files(),
            final(self).file_index() == old(self).file_index(),
            *final(final(self).target()) == *final(old(self).target()),
            match r {
                Some(t) => 0 <= old(self).index() < old(self).tokens().len() && *t == old(
                    self,
                ).tokens()[old(self).index()] && final(self).index() == old(self).index() + 1,
                None => old(self).index() >= old(self).tokens().len() && final(self).index()
                    == old(self).index(),
            },
    {
        if self.current_index < self.tokens.len() {
            let i: usize = self.current_index;
            self.current_index = i + 1;
            Some(&self.tokens[i])
        } else {
            None
        }
    }

    /// Parse a literal: an integer, a decimal or a quoted string.
    pub fn parse_literal(&mut self) -> (r: Result<Literal, ErrorKind>)
        ensures
            final(self).tokens() == old(self).tokens(),
            final(self).files() == old(self).files(),
            final(self).file_index() == old(self).file_index(),
            *final(final(self).target()) == *final(old(self).target()),
            ({
                let toks = old(self).tokens();
                let i = old(self).index();
                if i >= toks.len() {
                    r == Err::<Literal, ErrorKind>(ErrorKind::UnexpectedEOF) && final(self).index() == i
                } else {
                    match literal_of(toks[i].kind@) {
                        Some(lk) => r matches Ok(lit) && lit.span == toks[i].span && lit.kind@ == lk
                            && final(self).index() == i + 1,
                        None => r == Err::<Literal, ErrorKind>(ErrorKind::ExpectedLiteral)
                            && final(self).index() == i,
                    }
                }
            }),
    {
        match self.peek() {
            Some(TokenKind::Integer(_)) | Some(TokenKind::Decimal(_)) | Some(
                TokenKind::QuotedString(_),
            ) => {},
            Some(_) => {
                return Err(ErrorKind::ExpectedLiteral);
            },
            None => {
                return Err(ErrorKind::UnexpectedEOF);
            },
        }
        let next = match self.next() {
            Some(t) => t,
            None => {
                return Err(ErrorKind::UnexpectedEOF);
            },
        };
        let lit_kind = match &next.kind {
            TokenKind::Integer(i) => LiteralKind::Integer(*i),
            TokenKind::Decimal(d) => LiteralKind::Decimal(d.clone()),
            TokenKind::QuotedString(s) => LiteralKind::String(s.clone()),
            _ => {
                return Err(ErrorKind::ExpectedLiteral);
            },
        };
        Ok(Literal { span: next.span, kind: lit_kind })
    }

    /// Parse an identifier.
    pub fn parse_ident(&mut self) -> (r: Result<Ident, ErrorKind>)
        ensures
            final(self).tokens() == old(self).tokens(),
            final(self).files() == old(self).files(),
            final(self).file_index() == old(self).file_index(),
            *final(final(self).target()) == *final(old(self).target()),
            ({
                let toks = old(self).tokens();
                let i = old(self).index();
                if is_ident_at(toks, i) {
                    r matches Ok(id) && id.span == toks[i].span && id.name@ == ident_text(toks[i].kind@)
                        && final(self).index() == i + 1
                } else {
                    r == Err::<Ident, ErrorKind>(ErrorKind::ExpectedIdentifier) && final(self).index() == i
                }
            }),
    {
        match self.peek() {
            Some(TokenKind::Identifier(_)) => {},
            _ => {
                return Err(ErrorKind::ExpectedIdentifier);
            },
        }
        let next = match self.next() {
            Some(t) => t,
            None => {
                return Err(ErrorKind::ExpectedIdentifier);
            },
        };
        if let TokenKind::Identifier(ident) = &next.kind {
            Ok(Ident { span: next.span, name: ident.clone() })
        } else {
            Err(ErrorKind::ExpectedIdentifier)
        }
    }

    /// The span covering every part, merged from the first on.
    fn merge_spans(&mut self, parts: &Vec<Ident>) -> (span: crate::codemap::Span)
        requires
            old(self).wf(),
            parts@.len() >= 1,
            parts@.len() > 1 ==> forall|k: int| 0 <= k < parts@.len() ==> old(self).file().contains_span(
                (#[trigger] parts@[k]).span@,
            ),
        ensures
            final(self).wf(),
            final(self).tokens() == old(self).tokens(),
            final(self).index() == old(self).index(),
            final(self).file_index() == old(self).file_index(),
            *final(final(self).target()) == *final(old(self).target()),
            final(self).files() == old(self).files().update(
                old(self).file_index(),
                old(self).file().with_ranges(cover_steps(ident_ranges(old(self).file(), parts@))),
            ),
            parts@.len() == 1 ==> span == parts@[0].span,
            parts@.len() > 1 ==> final(self).file().span_range(span@) == Some(
                cover(ident_ranges(old(self).file(), parts@)),
            ),
    {
        let ghost file0 = self.file();
        let ghost files0 = self.files();
        let ghost fi = self.file_index();
        let ghost rs = ident_ranges(file0, parts@);
        if parts.len() == 1 {
            assert(cover_steps(rs) =~= Seq::<(usize, usize)>::empty());
            assert(files0.update(fi, file0) =~= files0);
            return parts[0].span;
        }
        let mut span = parts[0].span;
        let mut k: usize = 1;
        assert(rs.take(1) =~= seq![rs[0]]);
        assert(cover_steps(rs.take(1)) =~= Seq::<(usize, usize)>::empty());
        while k < parts.len()
            invariant
                file0 == old(self).file(),
                files0 == old(self).files(),
                fi == old(self).file_index(),
                0 <= fi < files0.len(),
                rs == ident_ranges(file0, parts@),
                self.tokens() == old(self).tokens(),
                self.index() == old(self).index(),
                self.file_index() == fi,
                *final(self.target()) == *final(old(self).target()),
                1 <= k <= parts@.len(),
                forall|j: int| 0 <= j < parts@.len() ==> file0.contains_span((#[trigger] parts@[j]).span@),
                self.files() == files0.update(fi, file0.with_ranges(cover_steps(rs.take(k as int)))),
                self.file().span_range(span@) == Some(cover(rs.take(k as int))),
            decreases parts@.len() - k,
        {
            proof {
                lemma_with_ranges_keeps_span(file0, cover_steps(rs.take(k as int)), parts@[k as int].span@);
            }
            span = self.filemap.merge(span, parts[k].span);
            proof {
                let t = rs.take(k + 1);
                assert(t.drop_last() =~= rs.take(k as int));
                assert(t.last() == rs[k as int]);
                lemma_with_ranges_push(file0, cover_steps(rs.take(k as int)), cover(t));
            }
            k = k + 1;
        }
        assert(rs.take(rs.len() as int) =~= rs);
        assert(self.files() =~= files0.update(fi, file0.with_ranges(cover_steps(rs))));
        span
    }

    /// Parse a dotted name: identifiers separated by dots. Its span is the
    /// union of the spans of its parts, registered in the file by merging
    /// them from the first on.
    pub fn parse_dotted_ident(&mut self) -> (r: Result<DottedIdent, ErrorKind>)
        requires
            old(self).wf(),
            dotted_parts(old(self).tokens(), old(self).index()) matches Ok(idx) ==> (idx.len() > 1
                ==> forall|k: int|
                0 <= k < idx.len() ==> old(self).file().contains_span(
                    old(self).tokens()[#[trigger] idx[k]].span@,
                )),
        ensures
            final(self).wf(),
            final(self).tokens() == old(self).tokens(),
            final(self).file_index() == old(self).file_index(),
            forall|sp: SpanView|
                old(self).file().contains_span(sp) ==> #[trigger] final(self).file().span_range(sp)
                    == old(self).file().span_range(sp),
            *final(final(self).target()) == *final(old(self).target()),
            ({
                let toks = old(self).tokens();
                match dotted_parts(toks, old(self).index()) {
                    Err(j) => r == Err::<DottedIdent, ErrorKind>(ErrorKind::ExpectedIdentifier)
                        && final(self).index() == j && final(self).files() == old(self).files(),
                    Ok(idx) => {
                        let rs = part_ranges(old(self).file(), toks, idx);
                        &&& r matches Ok(d)
                        &&& d.parts@.len() == idx.len()
                        &&& forall|k: int|
                            0 <= k < idx.len() ==> (#[trigger] d.parts@[k]).span == toks[idx[k]].span
                                && d.parts@[k].name@ == ident_text(toks[idx[k]].kind@)
                        &&& final(self).index() == idx.last() + 1
                        &&& final(self).files() == old(self).files().update(
                            old(self).file_index(),
                            old(self).file().with_ranges(cover_steps(rs)),
                        )
                        &&& idx.len() == 1 ==> d.span == toks[idx[0]].span
                        &&& idx.len() > 1 ==> final(self).file().span_range(d.span@) == Some(cover(rs))
                    },
                }
            }),
    {
        let ghost toks = self.tokens();
        let ghost i0 = self.index();
        let ghost file0 = self.file();
        let ghost files0 = self.files();
        let ghost fi = self.file_index();
        let first = match self.parse_ident() {
            Ok(id) => id,
            Err(e) => {
                return Err(e);
            },
        };
        let mut parts: Vec<Ident> = Vec::new();
        parts.push(first);
        let ghost mut idx: Seq<int> = seq![i0];
        assert(prepend_parts(idx.drop_last(), dotted_parts(toks, i0)) == dotted_parts(toks, i0)) by {
            if let Ok(rest) = dotted_parts(toks, i0) {
                assert(idx.drop_last() + rest =~= rest);
            }
        }
        while matches!(self.peek(), Some(TokenKind::Dot))
            invariant
                toks == old(self).tokens(),
                file0 == old(self).file(),
                i0 == old(self).index(),
                files0 == old(self).files(),
                fi == old(self).file_index(),
                0 <= fi < files0.len(),
                file0 == files0[fi],
                dotted_parts(toks, i0) matches Ok(all) ==> (all.len() > 1 ==> forall|k: int|
                    0 <= k < all.len() ==> file0.contains_span(toks[#[trigger] all[k]].span@)),
                self.tokens() == toks,
                self.files() == files0,
                self.file_index() == fi,
                *final(self.target()) == *final(old(self).target()),
                idx.len() >= 1,
                idx.len() == parts@.len(),
                is_ident_at(toks, idx.last()),
                self.index() == idx.last() + 1,
                dotted_parts(toks, i0) == prepend_parts(idx.drop_last(), dotted_parts(toks, idx.last())),
                forall|k: int| 0 <= k < idx.len() ==> 0 <= #[trigger] idx[k] < toks.len(),
                forall|k: int|
                    0 <= k < idx.len() ==> (#[trigger] parts@[k]).span == toks[idx[k]].span
                        && parts@[k].name@ == ident_text(toks[idx[k]].kind@),
            decreases toks.len() - self.index(),
        {
            let ghost last = idx.last();
            let _ = self.next();
            let next = match self.parse_ident() {
                Ok(id) => id,
                Err(e) => {
                    assert(dotted_parts(toks, last) == Err::<Seq<int>, int>(last + 2));
                    return Err(e);
                },
            };
            proof {
                let old_idx = idx;
                idx = idx.push(last + 2);
                assert(idx.drop_last() =~= old_idx);
                if let Ok(rest) = dotted_parts(toks, last + 2) {
                    assert(old_idx.drop_last() + (seq![last] + rest) =~= old_idx + rest);
                }
            }
            parts.push(next);
        }
        assert(dotted_parts(toks, idx.last()) == Ok::<Seq<int>, int>(seq![idx.last()]));
        assert(idx.drop_last() + seq![idx.last()] =~= idx);
        let ghost rs = part_ranges(file0, toks, idx);
        assert(dotted_parts(toks, i0) == Ok::<Seq<int>, int>(idx));
        assert forall|k: int| parts@.len() > 1 && 0 <= k < parts@.len() implies file0.contains_span(
            (#[trigger] parts@[k]).span@,
        ) by {
            assert(file0.contains_span(toks[idx[k]].span@));
        }
        assert(ident_ranges(file0, parts@) =~= rs);
        let span = self.merge_spans(&parts);
        proof {
            assert forall|sp: SpanView| file0.contains_span(sp) implies #[trigger] self.file().span_range(
                sp,
            ) == file0.span_range(sp) by {
                lemma_with_ranges_keeps_span(file0, cover_steps(rs), sp);
            }
        }
        Ok(DottedIdent { span, parts })
    }
}

} // verus!
