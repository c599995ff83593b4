//! A mapping from locations and sections of source code to their contents.

use std::ops::Range;
use vstd::prelude::*;
use vstd::utf8::{encode_utf8, is_char_boundary};
use crate::lex::{LexOutcome, Token, TokenKind, lemma_lexed_tokens_in_bounds, lex_source, token_triple_view, tokens_view};
use crate::text::str_get;
use vstd::std_specs::cmp::PartialEqSpecImpl;

verus! {

broadcast use vstd::seq::group_seq_axioms;

/// A unique identifier pointing to a substring in some file: no two files
/// of a `CodeMap` issue the same span.
///
/// To get back the original string this points to you need to look it up
/// in a `CodeMap` or `FileMap`.
///
/// Two spans compare equal when they are the same span, or when either is
/// the dummy span, which matches anything. That is no equivalence (the
/// dummy matches spans that differ), so `Span` is neither `Eq` nor `Hash`.
#[derive(Clone, Copy, Debug)]
pub struct Span {
    file: usize,
    index: usize,
}

/// The value of a `Span`: the file it was issued by and its number there.
pub struct SpanView {
    pub file: usize,
    pub index: usize,
}

impl View for Span {
    type V = SpanView;

    closed spec fn view(&self) -> SpanView {
        SpanView { file: self.file, index: self.index }
    }
}

/// The special "dummy" span.
pub closed spec fn dummy_span() -> Span {
    Span { file: 0, index: 0 }
}

/// The value of the dummy span.
pub open spec fn is_dummy(s: SpanView) -> bool {
    s.file == 0 && s.index == 0
}

/// What `==` on spans means: the same span, or either one the dummy.
pub open spec fn spans_match(a: Span, b: Span) -> bool {
    is_dummy(a@) || is_dummy(b@) || a@ == b@
}

/// Spans with the same value are the same span.
pub proof fn lemma_span_view_eq(a: Span, b: Span)
    requires
        a@ == b@,
    ensures
        a == b,
{
}

/// The dummy span's value is that of the dummy.
pub proof fn lemma_dummy_span_view()
    ensures
        is_dummy(dummy_span()@),
{
}

impl PartialEq for Span {
    /// The same span, or either one the dummy.
    fn eq(&self, other: &Span) -> (r: bool) {
        (self.file == 0 && self.index == 0) || (other.file == 0 && other.index == 0) || (self.file
            == other.file && self.index == other.index)
    }
}

impl PartialEqSpecImpl for Span {
    open spec fn obeys_eq_spec() -> bool {
        true
    }

    open spec fn eq_spec(&self, other: &Span) -> bool {
        spans_match(*self, *other)
    }
}

impl Span {
    /// The special "dummy" span, which no file ever issues (files are
    /// numbered from one). It is meant for building tokens in tests.
    pub(crate) fn dummy() -> (s: Span)
        ensures
            s == dummy_span(),
            s@.file == 0,
            is_dummy(s@),
            forall|t: Span| #[trigger] spans_match(s, t) && spans_match(t, s),
    {
        Span { file: 0, index: 0 }
    }
}

/// A mapping of `Span`s to the files in which they are located.
#[derive(Debug)]
pub struct CodeMap {
    files: Vec<FileMap>,
}

impl View for CodeMap {
    type V = Seq<FileMapView>;

    closed spec fn view(&self) -> Seq<FileMapView> {
        self.files@.map_values(|f: FileMap| f@)
    }
}

/// Each file's number is its position counted from one, as `insert_file`
/// gives them.
pub open spec fn numbered_in_order(files: Seq<FileMapView>) -> bool {
    forall|i: int| 0 <= i < files.len() ==> (#[trigger] files[i]).id == i + 1
}

/// `files[i]` is the first file that issued `span`.
pub open spec fn first_issuer(files: Seq<FileMapView>, span: SpanView, i: int) -> bool {
    &&& 0 <= i < files.len()
    &&& files[i].contains_span(span)
    &&& forall|j: int| 0 <= j < i ==> !(#[trigger] files[j]).contains_span(span)
}

impl CodeMap {
    /// The files are numbered by their position, counted from one, so no
    /// two files of a `CodeMap` issue the same span.
    #[verifier::type_invariant]
    closed spec fn inv(self) -> bool {
        numbered_in_order(self@)
    }

    /// Create a new, empty `CodeMap`.
    pub fn new() -> (c: CodeMap)
        ensures
            c@ == Seq::<FileMapView>::empty(),
    {
        let c = CodeMap { files: Vec::new() };
        assert(c@ =~= Seq::<FileMapView>::empty());
        c
    }

    /// Add a new file to the `CodeMap` and get back a handle to it, through
    /// which it issues spans. The file is numbered by its position, counted
    /// from one.
    pub fn insert_file<'a>(&'a mut self, filename: &str, contents: &str) -> (r: FileMapMut<'a>)
        requires
            old(self)@.len() < usize::MAX,
        ensures
            r.files() == old(self)@.push(
                FileMapView {
                    name: filename@,
                    contents: contents@,
                    id: (old(self)@.len() + 1) as usize,
                    ranges: Seq::empty(),
                },
            ),
            r.index() == old(self)@.len(),
            r.wf(),
            numbered_in_order(r.files()),
            *final(self) == *final(r.target()),
    {
        proof {
            use_type_invariant(&*self);
        }
        let id = self.files.len() + 1;
        let filemap = FileMap {
            name: filename.to_owned(),
            contents: contents.to_owned(),
            id,
            items: Vec::new(),
        };
        assert(filemap@.ranges =~= Seq::<(usize, usize)>::empty());
        let ghost before = self@;
        let mut files: Vec<FileMap> = Vec::new();
        std::mem::swap(&mut files, &mut self.files);
        files.push(filemap);
        assert(files@.map_values(|f: FileMap| f@) =~= before.push(filemap@));
        proof {
            lemma_numbering_kept(before, filemap@);
        }
        self.files = files;
        let index = self.files.len() - 1;
        FileMapMut { map: self, index }
    }

    /// Get the substring that this `Span` corresponds to, in the file that
    /// issued it.
    pub fn lookup(&self, span: Span) -> (r: &str)
        requires
            exists|i: int| 0 <= i < self@.len() && (#[trigger] self@[i]).contains_span(span@),
        ensures
            numbered_in_order(self@),
            forall|i: int|
                0 <= i < self@.len() && (#[trigger] self@[i]).contains_span(span@) ==> (
                self@[i].span_range(span@) matches Some((a, b)) && encode_utf8(r@)
                    == self@[i].bytes().subrange(a as int, b as int)),
    {
        proof {
            use_type_invariant(self);
        }
        let mut i: usize = 0;
        while i < self.files.len()
            invariant
                i <= self.files@.len(),
                self@.len() == self.files@.len(),
                numbered_in_order(self@),
                forall|k: int| 0 <= k < self.files@.len() ==> #[trigger] self@[k] == self.files@[k]@,
                forall|j: int| 0 <= j < i ==> !(#[trigger] self@[j]).contains_span(span@),
                exists|k: int| 0 <= k < self@.len() && (#[trigger] self@[k]).contains_span(span@),
            decreases self.files@.len() - i,
        {
            if let Some(substr) = self.files[i].lookup(span) {
                proof {
                    assert forall|j: int|
                        0 <= j < self@.len() && (#[trigger] self@[j]).contains_span(span@) implies j
                        == i by {
                        assert(self@[j].id == j + 1);
                        assert(self@[i as int].id == i + 1);
                    }
                }
                return substr;
            }
            i = i + 1;
        }
        let ghost k = choose|k: int| 0 <= k < self@.len() && (#[trigger] self@[k]).contains_span(span@);
        assert(!self@[k].contains_span(span@));
        ""
    }

    /// A handle to the file at position `i` (the one numbered `i + 1`), to
    /// have it issue more spans.
    pub fn file_mut<'a>(&'a mut self, i: usize) -> (r: FileMapMut<'a>)
        requires
            i < old(self)@.len(),
        ensures
            r.files() == old(self)@,
            r.index() == i,
            r.wf(),
            numbered_in_order(r.files()),
            *final(self) == *final(r.target()),
    {
        proof {
            use_type_invariant(&*self);
        }
        FileMapMut { map: self, index: i }
    }

    /// The files that this `CodeMap` contains.
    pub fn files(&self) -> (r: &[FileMap])
        ensures
            r@.len() == self@.len(),
            forall|i: int| 0 <= i < r@.len() ==> (#[trigger] r@[i])@ == self@[i],
            numbered_in_order(self@),
    {
        proof {
            use_type_invariant(self);
        }
        self.files.as_slice()
    }

    /// The file at position `i`.
    fn file_at(&self, i: usize) -> (r: &FileMap)
        requires
            i < self@.len(),
        ensures
            r@ == self@[i as int],
    {
        &self.files[i]
    }

    /// Has file `i` issue the span for `[start, end)`.
    fn insert_span_in(&mut self, i: usize, start: usize, end: usize) -> (span: Span)
        requires
            i < old(self)@.len(),
            old(self)@[i as int].valid_range(start, end),
        ensures
            final(self)@ == old(self)@.update(i as int, old(self)@[i as int].with_range(start, end)),
            final(self)@[i as int].wf(),
            numbered_in_order(final(self)@),
            final(self)@[i as int].span_range(span@) == Some((start, end)),
            forall|s: Span| #[trigger] final(self)@[i as int].span_range(s@) == Some((start, end)) ==> s == span,
    {
        proof {
            use_type_invariant(&*self);
        }
        let ghost before = self@;
        let mut files: Vec<FileMap> = Vec::new();
        std::mem::swap(&mut files, &mut self.files);
        assert(files@.map_values(|f: FileMap| f@) == before);
        let span = files[i].insert_span(start, end);
        proof {
            lemma_with_range_keeps(before[i as int], start, end, span@);
        }
        assert(files@.map_values(|f: FileMap| f@) =~= before.update(i as int, before[i as int].with_range(start, end)));
        self.files = files;
        span
    }

    /// Has file `i` merge two of its spans.
    fn merge_in(&mut self, i: usize, first: Span, second: Span) -> (span: Span)
        requires
            i < old(self)@.len(),
            old(self)@[i as int].contains_span(first@),
            old(self)@[i as int].contains_span(second@),
        ensures
            ({
                let (start, end) = covering_range(
                    old(self)@[i as int].span_range(first@)->0,
                    old(self)@[i as int].span_range(second@)->0,
                );
                &&& final(self)@ == old(self)@.update(i as int, old(self)@[i as int].with_range(start, end))
                &&& final(self)@[i as int].span_range(span@) == Some((start, end))
                &&& forall|s: Span| #[trigger] final(self)@[i as int].span_range(s@) == Some((start, end))
                    ==> s == span
            }),
            final(self)@[i as int].wf(),
            numbered_in_order(final(self)@),
    {
        proof {
            use_type_invariant(&*self);
        }
        let ghost before = self@;
        let mut files: Vec<FileMap> = Vec::new();
        std::mem::swap(&mut files, &mut self.files);
        assert(files@.map_values(|f: FileMap| f@) == before);
        let span = files[i].merge(first, second);
        let ghost r = covering_range(
            before[i as int].span_range(first@)->0,
            before[i as int].span_range(second@)->0,
        );
        proof {
            lemma_with_range_keeps(before[i as int], r.0, r.1, span@);
        }
        assert(files@.map_values(|f: FileMap| f@) =~= before.update(i as int, before[i as int].with_range(r.0, r.1)));
        self.files = files;
        span
    }

    /// Has file `i` register lexed tokens.
    fn register_tokens_in(&mut self, i: usize, tokens: Vec<(TokenKind, usize, usize)>) -> (registered:
        Vec<Token>)
        requires
            i < old(self)@.len(),
            forall|k: int|
                0 <= k < tokens@.len() ==> old(self)@[i as int].valid_range(
                    (#[trigger] tokens@[k]).1,
                    tokens@[k].2,
                ),
        ensures
            final(self)@ == old(self)@.update(
                i as int,
                old(self)@[i as int].with_ranges(token_ranges(tokens@)),
            ),
            final(self)@[i as int].wf(),
            numbered_in_order(final(self)@),
            registered@.len() == tokens@.len(),
            forall|k: int|
                0 <= k < tokens@.len() ==> (#[trigger] registered@[k]).kind == tokens@[k].0
                    && final(self)@[i as int].span_range(registered@[k].span@) == Some(
                    (tokens@[k].1, tokens@[k].2),
                ),
            forall|k: int, j: int|
                0 <= k < tokens@.len() && 0 <= j < tokens@.len() ==> ((#[trigger] registered@[k]).span
                    == (#[trigger] registered@[j]).span <==> (tokens@[k].1, tokens@[k].2) == (
                    tokens@[j].1,
                    tokens@[j].2,
                )),
    {
        proof {
            use_type_invariant(&*self);
        }
        let ghost before = self@;
        let mut files: Vec<FileMap> = Vec::new();
        std::mem::swap(&mut files, &mut self.files);
        assert(files@.map_values(|f: FileMap| f@) == before);
        let registered = files[i].register_tokens(tokens);
        proof {
            lemma_with_ranges_keeps(before[i as int], token_ranges(tokens@));
        }
        assert(files@.map_values(|f: FileMap| f@) =~= before.update(i as int, before[i as int].with_ranges(token_ranges(tokens@))));
        self.files = files;
        registered
    }
}

/// A file of a `CodeMap`, borrowed to have it issue spans. It stands for
/// the file at one position of the map; every span it issues is unique
/// across the whole map.
#[derive(Debug)]
pub struct FileMapMut<'a> {
    map: &'a mut CodeMap,
    index: usize,
}

impl<'a> FileMapMut<'a> {
    /// The handle stands for a file of the map.
    pub open spec fn wf(&self) -> bool {
        0 <= self.index() < self.files().len()
    }

    /// The files of the borrowed `CodeMap`, as they are now.
    pub closed spec fn files(&self) -> Seq<FileMapView> {
        (*self.map)@
    }

    /// The position of the file this handle stands for.
    pub closed spec fn index(&self) -> int {
        self.index as int
    }

    /// The file this handle stands for, as it is now.
    pub open spec fn file(&self) -> FileMapView {
        self.files()[self.index()]
    }

    /// The borrow of the `CodeMap`.
    pub closed spec fn target(self) -> &'a mut CodeMap {
        self.map
    }

    /// Get the name of this file.
    pub fn filename(&self) -> (r: &str)
        requires
            self.wf(),
        ensures
            r@ == self.file().name,
    {
        self.map.file_at(self.index).filename()
    }

    /// Get the entire content of this file.
    pub fn contents(&self) -> (r: &str)
        requires
            self.wf(),
        ensures
            r@ == self.file().contents,
    {
        self.map.file_at(self.index).contents()
    }

    /// Get the byte range corresponding to this span, if this file issued
    /// it.
    pub fn range_of(&self, span: Span) -> (r: Option<Range<usize>>)
        requires
            self.wf(),
        ensures
            match self.file().span_range(span@) {
                Some((a, b)) => r matches Some(rg) && rg.start == a && rg.end == b,
                None => r is None,
            },
    {
        self.map.file_at(self.index).range_of(span)
    }

    /// Lookup a span in this file: the text it stands for, if this file
    /// issued it.
    pub fn lookup(&self, span: Span) -> (r: Option<&str>)
        requires
            self.wf(),
        ensures
            match self.file().span_range(span@) {
                Some((a, b)) => r matches Some(t) && encode_utf8(t@) == self.file().bytes().subrange(
                    a as int,
                    b as int,
                ),
                None => r is None,
            },
    {
        self.map.file_at(self.index).lookup(span)
    }

    /// Ask the file to give you the span corresponding to the half-open
    /// byte interval `[start, end)`; an interval that a span already stands
    /// for gets that span back. No other file of the map holds the span.
    pub fn insert_span(&mut self, start: usize, end: usize) -> (span: Span)
        requires
            old(self).wf(),
            old(self).file().valid_range(start, end),
        ensures
            final(self).wf(),
            final(self).index() == old(self).index(),
            final(self).files() == old(self).files().update(
                old(self).index(),
                old(self).file().with_range(start, end),
            ),
            numbered_in_order(final(self).files()),
            final(self).file().wf(),
            final(self).file().span_range(span@) == Some((start, end)),
            forall|s: Span| #[trigger] final(self).file().span_range(s@) == Some((start, end)) ==> s == span,
            forall|s: Span|
                (#[trigger] old(self).file().span_range(s@)) is Some ==> final(self).file().span_range(s@)
                    == old(self).file().span_range(s@),
            forall|j: int|
                0 <= j < final(self).files().len() && j != old(self).index() ==> !(#[trigger] final(self).files()[j]).contains_span(span@),
            *final(final(self).target()) == *final(old(self).target()),
    {
        let span = self.map.insert_span_in(self.index, start, end);
        proof {
            lemma_with_range_keeps_spans(old(self).file(), start, end);
            lemma_fresh_elsewhere(self.files(), self.index(), span@);
        }
        span
    }

    /// Merge two spans of this file to get the span covering both: from the
    /// earlier start to the later end.
    pub fn merge(&mut self, first: Span, second: Span) -> (span: Span)
        requires
            old(self).wf(),
            old(self).file().contains_span(first@),
            old(self).file().contains_span(second@),
        ensures
            final(self).wf(),
            final(self).index() == old(self).index(),
            ({
                let (start, end) = covering_range(
                    old(self).file().span_range(first@)->0,
                    old(self).file().span_range(second@)->0,
                );
                &&& final(self).files() == old(self).files().update(
                    old(self).index(),
                    old(self).file().with_range(start, end),
                )
                &&& final(self).file().span_range(span@) == Some((start, end))
                &&& forall|s: Span| #[trigger] final(self).file().span_range(s@) == Some((start, end)) ==> s == span
            }),
            numbered_in_order(final(self).files()),
            final(self).file().wf(),
            forall|s: Span|
                (#[trigger] old(self).file().span_range(s@)) is Some ==> final(self).file().span_range(s@)
                    == old(self).file().span_range(s@),
            forall|j: int|
                0 <= j < final(self).files().len() && j != old(self).index() ==> !(#[trigger] final(self).files()[j]).contains_span(span@),
            *final(final(self).target()) == *final(old(self).target()),
    {
        let span = self.map.merge_in(self.index, first, second);
        proof {
            let r = covering_range(
                old(self).file().span_range(first@)->0,
                old(self).file().span_range(second@)->0,
            );
            lemma_with_range_keeps_spans(old(self).file(), r.0, r.1);
            lemma_fresh_elsewhere(self.files(), self.index(), span@);
        }
        span
    }

    /// Register lexed tokens, each with its byte interval, and turn them
    /// into tokens that carry a span of this file.
    pub fn register_tokens(&mut self, tokens: Vec<(TokenKind, usize, usize)>) -> (registered: Vec<
        Token,
    >)
        requires
            old(self).wf(),
            forall|i: int|
                0 <= i < tokens@.len() ==> old(self).file().valid_range(
                    (#[trigger] tokens@[i]).1,
                    tokens@[i].2,
                ),
        ensures
            final(self).wf(),
            final(self).index() == old(self).index(),
            final(self).files() == old(self).files().update(
                old(self).index(),
                old(self).file().with_ranges(token_ranges(tokens@)),
            ),
            numbered_in_order(final(self).files()),
            final(self).file().wf(),
            registered@.len() == tokens@.len(),
            forall|i: int|
                0 <= i < tokens@.len() ==> (#[trigger] registered@[i]).kind == tokens@[i].0
                    && final(self).file().span_range(registered@[i].span@) == Some(
                    (tokens@[i].1, tokens@[i].2),
                ),
            forall|i: int, j: int|
                0 <= i < tokens@.len() && 0 <= j < tokens@.len() ==> ((#[trigger] registered@[i]).span
                    == (#[trigger] registered@[j]).span <==> (tokens@[i].1, tokens@[i].2) == (
                    tokens@[j].1,
                    tokens@[j].2,
                )),
            *final(final(self).target()) == *final(old(self).target()),
    {
        self.map.register_tokens_in(self.index, tokens)
    }
}

/// Once a handle is done with, the borrowed `CodeMap` holds the files as
/// the handle last saw them.
pub proof fn lemma_handle_resolved<'a>(h: FileMapMut<'a>)
    requires
        has_resolved(h),
    ensures
        (*final(h.target()))@ == h.files(),
{
}

/// Registering an interval leaves every span already issued as it was.
proof fn lemma_with_range_keeps_spans(fm: FileMapView, start: usize, end: usize)
    ensures
        forall|s: Span|
            (#[trigger] fm.span_range(s@)) is Some ==> fm.with_range(start, end).span_range(s@)
                == fm.span_range(s@),
{
    assert forall|s: Span| (#[trigger] fm.span_range(s@)) is Some implies fm.with_range(
        start,
        end,
    ).span_range(s@) == fm.span_range(s@) by {
        lemma_with_range_keeps(fm, start, end, s@);
    }
}

/// In files numbered by their position, a span of file `i` is held by no
/// other file.
pub proof fn lemma_fresh_elsewhere(files: Seq<FileMapView>, i: int, span: SpanView)
    requires
        numbered_in_order(files),
        0 <= i < files.len(),
        files[i].contains_span(span),
    ensures
        forall|j: int| 0 <= j < files.len() && j != i ==> !(#[trigger] files[j]).contains_span(span),
{
    assert forall|j: int| 0 <= j < files.len() && j != i implies !(#[trigger] files[j]).contains_span(
        span,
    ) by {
        assert(files[j].id == j + 1);
        assert(files[i].id == i + 1);
    }
}

impl Default for CodeMap {
    fn default() -> (c: CodeMap)
        ensures
            c@ == Seq::<FileMapView>::empty(),
    {
        CodeMap::new()
    }
}

/// When files carry different numbers, a span is issued by one file at most.
pub proof fn lemma_issuer_unique(files: Seq<FileMapView>, span: SpanView, i: int, j: int)
    requires
        forall|a: int, b: int| 0 <= a < b < files.len() ==> (#[trigger] files[a]).id != (#[trigger] files[b]).id,
        0 <= i < files.len(),
        0 <= j < files.len(),
        files[i].contains_span(span),
        files[j].contains_span(span),
    ensures
        i == j,
{
    if i < j {
        assert(files[i].id != files[j].id);
    } else if j < i {
        assert(files[j].id != files[i].id);
    }
}

/// Files that `insert_file` numbers stay numbered by their position.
pub proof fn lemma_numbering_kept(files: Seq<FileMapView>, f: FileMapView)
    requires
        numbered_in_order(files),
        f.id == files.len() + 1,
    ensures
        numbered_in_order(files.push(f)),
{
    assert forall|i: int| 0 <= i < files.push(f).len() implies (#[trigger] files.push(f)[i]).id == i + 1 by {
        if i < files.len() {
            assert(files.push(f)[i] == files[i]);
        }
    }
}

/// In files numbered by their position, the file that issued a span is
/// the first (and only) one that holds it: `CodeMap::lookup` gives the
/// span's text in the file that issued it.
pub proof fn lemma_lookup_finds_issuer(files: Seq<FileMapView>, span: SpanView, i: int)
    requires
        numbered_in_order(files),
        0 <= i < files.len(),
        files[i].contains_span(span),
    ensures
        first_issuer(files, span, i),
{
    assert forall|j: int| 0 <= j < i implies !(#[trigger] files[j]).contains_span(span) by {
        assert(files[j].id == j + 1);
        assert(files[i].id == i + 1);
    }
}

/// A file's contents and the spans it has issued, each standing for a
/// half-open byte interval of the contents.
///
/// A file issues spans only as part of its `CodeMap`, through a
/// `FileMapMut`; a copy made with `clone` reads like the file but issues
/// nothing, so no two spans of a map ever collide.
#[derive(Debug)]
pub struct FileMap {
    name: String,
    contents: String,
    id: usize,
    items: Vec<(usize, usize)>,
}

/// The value of a `FileMap`.
pub struct FileMapView {
    /// The file's name.
    pub name: Seq<char>,
    /// The file's contents.
    pub contents: Seq<char>,
    /// The number that every span this file issues carries.
    pub id: usize,
    /// The byte interval of each span issued so far, by its number.
    pub ranges: Seq<(usize, usize)>,
}

impl FileMapView {
    /// The UTF-8 encoding of the contents.
    pub open spec fn bytes(self) -> Seq<u8> {
        encode_utf8(self.contents)
    }

    /// The byte interval that `span` stands for in this file, if it was
    /// issued here.
    pub open spec fn span_range(self, span: SpanView) -> Option<(usize, usize)> {
        if span.file == self.id && span.index < self.ranges.len() {
            Some(self.ranges[span.index as int])
        } else {
            None
        }
    }

    /// `span` was issued by this file.
    pub open spec fn contains_span(self, span: SpanView) -> bool {
        self.span_range(span) is Some
    }

    /// `[start, end)` is an interval that a span may stand for: in order,
    /// starting inside the contents, ending within them, and both ends on
    /// character boundaries.
    pub open spec fn valid_range(self, start: usize, end: usize) -> bool {
        &&& start <= end
        &&& start < self.bytes().len()
        &&& end <= self.bytes().len()
        &&& is_char_boundary(self.bytes(), start as int)
        &&& is_char_boundary(self.bytes(), end as int)
    }

    /// Every span stands for a valid interval, and no two spans for the
    /// same one.
    pub open spec fn wf(self) -> bool {
        &&& forall|i: int| 0 <= i < self.ranges.len() ==> self.valid_range(
            (#[trigger] self.ranges[i]).0,
            self.ranges[i].1,
        )
        &&& forall|i: int, j: int|
            0 <= i < j < self.ranges.len() ==> #[trigger] self.ranges[i] != #[trigger] self.ranges[j]
    }

    /// The file after registering the interval `[start, end)`: unchanged
    /// when a span already stands for it, otherwise with one more span.
    pub open spec fn with_range(self, start: usize, end: usize) -> FileMapView {
        if self.ranges.contains((start, end)) {
            self
        } else {
            FileMapView { ranges: self.ranges.push((start, end)), ..self }
        }
    }
}

impl FileMapView {
    /// The file after registering each interval of `rs` in turn.
    pub open spec fn with_ranges(self, rs: Seq<(usize, usize)>) -> FileMapView
        decreases rs.len(),
    {
        if rs.len() == 0 {
            self
        } else {
            self.with_ranges(rs.drop_last()).with_range(rs.last().0, rs.last().1)
        }
    }
}

/// The smallest interval that covers both `r1` and `r2`: from the earlier
/// start to the later end.
pub open spec fn covering_range(r1: (usize, usize), r2: (usize, usize)) -> (usize, usize) {
    (if r1.0 <= r2.0 { r1.0 } else { r2.0 }, if r1.1 >= r2.1 { r1.1 } else { r2.1 })
}

/// Merging is commutative, idempotent and associative on the intervals
/// that spans stand for, and the merged interval of two valid intervals is
/// valid.
pub proof fn lemma_covering_range_laws(
    fm: FileMapView,
    r1: (usize, usize),
    r2: (usize, usize),
    r3: (usize, usize),
)
    ensures
        covering_range(r1, r2) == covering_range(r2, r1),
        covering_range(r1, r1) == r1,
        covering_range(covering_range(r1, r2), r3) == covering_range(r1, covering_range(r2, r3)),
        fm.valid_range(r1.0, r1.1) && fm.valid_range(r2.0, r2.1) ==> fm.valid_range(
            covering_range(r1, r2).0,
            covering_range(r1, r2).1,
        ),
        r2.0 >= r1.0 && r2.1 <= r1.1 ==> covering_range(r1, r2) == r1,
        covering_range(r1, r2).0 <= r1.0 && covering_range(r1, r2).0 <= r2.0,
        covering_range(r1, r2).1 >= r1.1 && covering_range(r1, r2).1 >= r2.1,
        covering_range(r1, r2).0 == r1.0 || covering_range(r1, r2).0 == r2.0,
        covering_range(r1, r2).1 == r1.1 || covering_range(r1, r2).1 == r2.1,
{
}

/// The byte intervals of lexed tokens.
pub open spec fn token_ranges(ts: Seq<(TokenKind, usize, usize)>) -> Seq<(usize, usize)> {
    ts.map_values(|t: (TokenKind, usize, usize)| (t.1, t.2))
}

/// Registering an interval leaves the name, the contents, the number and
/// every span already issued as they were.
pub proof fn lemma_with_range_keeps(fm: FileMapView, start: usize, end: usize, span: SpanView)
    ensures
        fm.with_range(start, end).name == fm.name,
        fm.with_range(start, end).contents == fm.contents,
        fm.with_range(start, end).id == fm.id,
        fm.contains_span(span) ==> fm.with_range(start, end).span_range(span) == fm.span_range(span),
{
}

/// Registering intervals leaves the name, the contents and the number as
/// they were.
pub proof fn lemma_with_ranges_keeps(fm: FileMapView, rs: Seq<(usize, usize)>)
    ensures
        fm.with_ranges(rs).name == fm.name,
        fm.with_ranges(rs).contents == fm.contents,
        fm.with_ranges(rs).id == fm.id,
    decreases rs.len(),
{
    if rs.len() > 0 {
        lemma_with_ranges_keeps(fm, rs.drop_last());
    }
}

/// Reading back what was registered: after registering `[start, end)`, a
/// span that stands for it stands for those bytes of the unchanged
/// contents, and every span issued before still stands for what it did.
pub proof fn lemma_read_after_register(
    fm: FileMapView,
    start: usize,
    end: usize,
    span: SpanView,
    earlier: SpanView,
)
    requires
        fm.with_range(start, end).span_range(span) == Some((start, end)),
        fm.contains_span(earlier),
    ensures
        fm.with_range(start, end).bytes() == fm.bytes(),
        fm.with_range(start, end).span_range(span)->0 == (start, end),
        fm.with_range(start, end).span_range(earlier) == fm.span_range(earlier),
{
    lemma_with_range_keeps(fm, start, end, earlier);
}

/// In a well-formed file, two spans that stand for the same interval are
/// the same span.
pub proof fn lemma_same_range_same_span(fm: FileMapView, a: Span, b: Span)
    requires
        fm.wf(),
        fm.contains_span(a@),
        fm.span_range(a@) == fm.span_range(b@),
    ensures
        a == b,
{
    let (i, j) = (a@.index as int, b@.index as int);
    if i < j {
        assert(fm.ranges[i] != fm.ranges[j]);
    } else if j < i {
        assert(fm.ranges[j] != fm.ranges[i]);
    }
    assert(a@ == b@);
    lemma_span_view_eq(a, b);
}

/// Registering an interval a second time changes nothing.
pub proof fn lemma_with_range_idempotent(fm: FileMapView, start: usize, end: usize)
    ensures
        fm.with_range(start, end).with_range(start, end) == fm.with_range(start, end),
{
    if !fm.ranges.contains((start, end)) {
        let r = fm.ranges.push((start, end));
        assert(r[fm.ranges.len() as int] == (start, end));
    }
}

/// The tokens that lexing a file's contents gives can all be registered
/// with that file: each stands for a valid interval of it.
pub proof fn lemma_lexed_tokens_fit(fm: FileMapView, tokens: Seq<(TokenKind, usize, usize)>)
    requires
        lex_source(fm.contents) == LexOutcome::Tokens(tokens_view(tokens)),
    ensures
        forall|i: int| 0 <= i < tokens.len() ==> fm.valid_range((#[trigger] tokens[i]).1, tokens[i].2),
{
    lemma_lexed_tokens_in_bounds(fm.contents);
    let bs = tokens_view(tokens);
    assert(lex_source(fm.contents)->Tokens_0 == bs);
    assert forall|i: int| 0 <= i < tokens.len() implies fm.valid_range((#[trigger] tokens[i]).1, tokens[i].2) by {
        assert(bs[i] == token_triple_view(tokens[i]));
        assert(bs[i].1 < bs[i].2 <= encode_utf8(fm.contents).len());
        assert(is_char_boundary(encode_utf8(fm.contents), bs[i].1 as int));
        assert(is_char_boundary(encode_utf8(fm.contents), bs[i].2 as int));
    }
}

/// Registering intervals leaves every span already issued as it was.
pub proof fn lemma_with_ranges_keeps_span(fm: FileMapView, rs: Seq<(usize, usize)>, span: SpanView)
    requires
        fm.contains_span(span),
    ensures
        fm.with_ranges(rs).span_range(span) == fm.span_range(span),
    decreases rs.len(),
{
    if rs.len() > 0 {
        lemma_with_ranges_keeps_span(fm, rs.drop_last(), span);
        lemma_with_ranges_keeps(fm, rs.drop_last());
        lemma_with_range_keeps(fm.with_ranges(rs.drop_last()), rs.last().0, rs.last().1, span);
    }
}

/// Registering more intervals after some is registering them all.
pub proof fn lemma_with_ranges_push(fm: FileMapView, rs: Seq<(usize, usize)>, r: (usize, usize))
    ensures
        fm.with_ranges(rs.push(r)) == fm.with_ranges(rs).with_range(r.0, r.1),
{
    assert(rs.push(r).drop_last() =~= rs);
}

impl View for FileMap {
    type V = FileMapView;

    closed spec fn view(&self) -> FileMapView {
        FileMapView {
            name: self.name@,
            contents: self.contents@,
            id: self.id,
            ranges: self.items@,
        }
    }
}

impl Clone for FileMap {
    /// A copy with the same name, contents, number and spans.
    fn clone(&self) -> (r: FileMap)
        ensures
            r@ == self@,
    {
        proof {
            use_type_invariant(self);
        }
        let mut items: Vec<(usize, usize)> = Vec::new();
        let n = self.items.len();
        for i in 0..n
            invariant
                n == self.items@.len(),
                items@ == self.items@.take(i as int),
        {
            items.push(self.items[i]);
            assert(items@ =~= self.items@.take(i + 1));
        }
        assert(items@ =~= self.items@);
        FileMap {
            name: self.name.clone(),
            contents: self.contents.clone(),
            id: self.id,
            items,
        }
    }
}

impl FileMap {
    /// Every span stands for a valid interval, and no two for the same one.
    #[verifier::type_invariant]
    closed spec fn inv(self) -> bool {
        self@.wf()
    }

    /// Get the name of this `FileMap`.
    pub fn filename(&self) -> (r: &str)
        ensures
            r@ == self@.name,
    {
        self.name.as_str()
    }

    /// Get the entire content of this file.
    pub fn contents(&self) -> (r: &str)
        ensures
            r@ == self@.contents,
    {
        self.contents.as_str()
    }

    /// Get the byte range corresponding to this span, if this file issued
    /// it.
    pub fn range_of(&self, span: Span) -> (r: Option<Range<usize>>)
        ensures
            match self@.span_range(span@) {
                Some((a, b)) => r matches Some(rg) && rg.start == a && rg.end == b,
                None => r is None,
            },
            r matches Some(rg) ==> self@.valid_range(rg.start, rg.end),
            self@.wf(),
    {
        proof {
            use_type_invariant(self);
        }
        if span.file == self.id && span.index < self.items.len() {
            let (a, b) = self.items[span.index];
            Some(a..b)
        } else {
            None
        }
    }

    /// Lookup a span in this `FileMap`: the text it stands for, if this
    /// file issued it.
    pub fn lookup(&self, span: Span) -> (r: Option<&str>)
        ensures
            match self@.span_range(span@) {
                Some((a, b)) => r matches Some(t) && encode_utf8(t@) == self@.bytes().subrange(
                    a as int,
                    b as int,
                ),
                None => r is None,
            },
            self@.wf(),
    {
        let range = match self.range_of(span) {
            Some(r) => r,
            None => {
                return None;
            },
        };
        str_get(self.contents.as_str(), range.start, range.end)
    }

    /// The span that already stands for `[start, end)`, if there is one.
    fn reverse_lookup(&self, start: usize, end: usize) -> (r: Option<Span>)
        ensures
            r matches Some(sp) ==> self@.span_range(sp@) == Some((start, end)),
            r is None ==> !self@.ranges.contains((start, end)),
    {
        let mut i: usize = 0;
        while i < self.items.len()
            invariant
                i <= self.items@.len(),
                forall|j: int| 0 <= j < i ==> self.items@[j] != (start, end),
            decreases self.items@.len() - i,
        {
            if self.items[i].0 == start && self.items[i].1 == end {
                return Some(Span { file: self.id, index: i });
            }
            i = i + 1;
        }
        None
    }

    /// Ask the `FileMap` to give you the span corresponding to the
    /// half-open byte interval `[start, end)`; an interval that a span
    /// already stands for gets that span back.
    pub(crate) fn insert_span(&mut self, start: usize, end: usize) -> (span: Span)
        requires
            old(self)@.valid_range(start, end),
        ensures
            final(self)@ == old(self)@.with_range(start, end),
            final(self)@.wf(),
            final(self)@.span_range(span@) == Some((start, end)),
            forall|s: Span| #[trigger] final(self)@.span_range(s@) == Some((start, end)) ==> s == span,
            forall|s: Span|
                (#[trigger] old(self)@.span_range(s@)) is Some ==> final(self)@.span_range(s@)
                    == old(self)@.span_range(s@),
    {
        proof {
            use_type_invariant(&*self);
        }
        if let Some(existing) = self.reverse_lookup(start, end) {
            proof {
                assert forall|s: Span| #[trigger] self@.span_range(s@) == Some((start, end)) implies s
                    == existing by {
                    lemma_same_range_same_span(self@, s, existing);
                }
            }
            return existing;
        }
        let index = self.items.len();
        let mut items: Vec<(usize, usize)> = Vec::new();
        std::mem::swap(&mut items, &mut self.items);
        items.push((start, end));
        self.items = items;
        let span = Span { file: self.id, index };
        proof {
            assert(!old(self)@.ranges.contains((start, end)));
            assert forall|i: int, j: int|
                0 <= i < j < self@.ranges.len() implies #[trigger] self@.ranges[i]
                    != #[trigger] self@.ranges[j] by {
                if j == index {
                    assert(old(self)@.ranges[i] == self@.ranges[i]);
                }
            }
            assert(self@.wf());
            assert forall|s: Span| #[trigger] self@.span_range(s@) == Some((start, end)) implies s
                == span by {
                lemma_same_range_same_span(self@, s, span);
            }
        }
        span
    }

    /// Merge two spans of this file to get the span covering both: from the
    /// earlier start to the later end.
    pub(crate) fn merge(&mut self, first: Span, second: Span) -> (span: Span)
        requires
            old(self)@.contains_span(first@),
            old(self)@.contains_span(second@),
        ensures
            ({
                let (start, end) = covering_range(
                    old(self)@.span_range(first@)->0,
                    old(self)@.span_range(second@)->0,
                );
                &&& final(self)@ == old(self)@.with_range(start, end)
                &&& final(self)@.span_range(span@) == Some((start, end))
                &&& forall|s: Span| #[trigger] final(self)@.span_range(s@) == Some((start, end)) ==> s == span
            }),
            final(self)@.wf(),
            forall|s: Span|
                (#[trigger] old(self)@.span_range(s@)) is Some ==> final(self)@.span_range(s@)
                    == old(self)@.span_range(s@),
    {
        let range_1 = match self.range_of(first) {
            Some(r) => r,
            None => {
                return first;
            },
        };
        let range_2 = match self.range_of(second) {
            Some(r) => r,
            None => {
                return first;
            },
        };
        let start = if range_1.start <= range_2.start {
            range_1.start
        } else {
            range_2.start
        };
        let end = if range_1.end >= range_2.end {
            range_1.end
        } else {
            range_2.end
        };
        self.insert_span(start, end)
    }

    /// Register lexed tokens, each with its byte interval, and turn them
    /// into tokens that carry a span of this file.
    pub(crate) fn register_tokens(&mut self, tokens: Vec<(TokenKind, usize, usize)>) -> (registered: Vec<
        Token,
    >)
        requires
            forall|i: int|
                0 <= i < tokens@.len() ==> old(self)@.valid_range(
                    (#[trigger] tokens@[i]).1,
                    tokens@[i].2,
                ),
        ensures
            final(self)@ == old(self)@.with_ranges(token_ranges(tokens@)),
            registered@.len() == tokens@.len(),
            forall|i: int|
                0 <= i < tokens@.len() ==> (#[trigger] registered@[i]).kind == tokens@[i].0
                    && final(self)@.span_range(registered@[i].span@) == Some(
                    (tokens@[i].1, tokens@[i].2),
                ),
            forall|i: int, j: int|
                0 <= i < tokens@.len() && 0 <= j < tokens@.len() ==> ((#[trigger] registered@[i]).span
                    == (#[trigger] registered@[j]).span <==> (tokens@[i].1, tokens@[i].2) == (
                    tokens@[j].1,
                    tokens@[j].2,
                )),
            final(self)@.wf(),
    {
        let ghost old_view = self@;
        let ghost all = tokens@;
        let mut registered: Vec<Token> = Vec::new();
        assert(token_ranges(all).take(0) =~= Seq::<(usize, usize)>::empty());
        for t in it: tokens.into_iter()
            invariant
                it.seq() == all,
                forall|i: int| 0 <= i < all.len() ==> old_view.valid_range(
                    (#[trigger] all[i]).1,
                    all[i].2,
                ),
                self@ == old_view.with_ranges(token_ranges(all).take(it.index() as int)),
                registered@.len() == it.index(),
                forall|i: int|
                    0 <= i < it.index() ==> (#[trigger] registered@[i]).kind == all[i].0
                        && self@.span_range(registered@[i].span@) == Some((all[i].1, all[i].2)),
        {
            let ghost k = it.index() as int;
            let ghost before = self@;
            let (kind, start, end) = t;
            assert(all[k] == (kind, start, end));
            proof {
                lemma_with_ranges_keeps(old_view, token_ranges(all).take(k));
            }
            let span = self.insert_span(start, end);
            proof {
                assert(token_ranges(all).take(k + 1).drop_last() =~= token_ranges(all).take(k));
                assert forall|i: int| 0 <= i < k implies (#[trigger] registered@[i]).kind == all[i].0
                    && self@.span_range(registered@[i].span@) == Some((all[i].1, all[i].2)) by {
                    lemma_with_range_keeps(before, start, end, registered@[i].span@);
                }
            }
            registered.push(Token::new(span, kind));
        }
        assert(token_ranges(all).take(all.len() as int) =~= token_ranges(all));
        proof {
            use_type_invariant(&*self);
            assert forall|i: int, j: int|
                0 <= i < all.len() && 0 <= j < all.len() implies ((#[trigger] registered@[i]).span
                    == (#[trigger] registered@[j]).span <==> (all[i].1, all[i].2) == (all[j].1, all[j].2)) by {
                if (all[i].1, all[i].2) == (all[j].1, all[j].2) {
                    lemma_same_range_same_span(self@, registered@[i].span, registered@[j].span);
                }
            }
        }
        registered
    }
}

} // verus!
