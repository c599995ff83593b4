//! Lexical analysis of Delphi source code.

use vstd::prelude::*;
use crate::codemap::{Span, dummy_span};
use crate::errors::{ErrorKind, LexError};
use crate::text::{
    advance_bytes, byte_offset, char_is_alphabetic, char_is_numeric, char_is_whitespace, chars_of,
    is_alphabetic, is_alphanumeric, is_decimal_digit, is_whitespace, lemma_byte_offset_char_boundary,
    lemma_byte_offset_mono, lemma_byte_offset_subrange, string_from_chars,
};
use vstd::utf8::{decode_utf8, encode_utf8, encode_utf8_decode_utf8, is_char_boundary};

verus! {

broadcast use vstd::seq::group_seq_axioms;

/// Any valid token in the Delphi programming language.
///
/// A decimal literal is kept as the text it was written with, digits and
/// the dot, so that no floating-point value is needed to represent it.
#[derive(Clone, Debug, PartialEq)]
pub enum TokenKind {
    /// An integer literal and its value.
    Integer(usize),
    /// A decimal literal, as written.
    Decimal(String),
    /// An identifier.
    Identifier(String),
    /// A quoted string.
    QuotedString(String),
    /// `*`
    Asterisk,
    /// `@`
    At,
    /// `^`
    Carat,
    /// `)`
    CloseParen,
    /// `]`
    CloseSquare,
    /// `:`
    Colon,
    /// `.`
    Dot,
    /// The `end` keyword.
    End,
    /// `=`
    Equals,
    /// `-`
    Minus,
    /// `(`
    OpenParen,
    /// `[`
    OpenSquare,
    /// `+`
    Plus,
    /// `;`
    Semicolon,
    /// `/`
    Slash,
}

/// The mathematical value of a `TokenKind`: text is a sequence of
/// characters.
pub enum TokenKindView {
    Integer(usize),
    Decimal(Seq<char>),
    Identifier(Seq<char>),
    QuotedString(Seq<char>),
    Asterisk,
    At,
    Carat,
    CloseParen,
    CloseSquare,
    Colon,
    Dot,
    End,
    Equals,
    Minus,
    OpenParen,
    OpenSquare,
    Plus,
    Semicolon,
    Slash,
}

impl View for TokenKind {
    type V = TokenKindView;

    open spec fn view(&self) -> TokenKindView {
        match self {
            TokenKind::Integer(n) => TokenKindView::Integer(*n),
            TokenKind::Decimal(s) => TokenKindView::Decimal(s@),
            TokenKind::Identifier(s) => TokenKindView::Identifier(s@),
            TokenKind::QuotedString(s) => TokenKindView::QuotedString(s@),
            TokenKind::Asterisk => TokenKindView::Asterisk,
            TokenKind::At => TokenKindView::At,
            TokenKind::Carat => TokenKindView::Carat,
            TokenKind::CloseParen => TokenKindView::CloseParen,
            TokenKind::CloseSquare => TokenKindView::CloseSquare,
            TokenKind::Colon => TokenKindView::Colon,
            TokenKind::Dot => TokenKindView::Dot,
            TokenKind::End => TokenKindView::End,
            TokenKind::Equals => TokenKindView::Equals,
            TokenKind::Minus => TokenKindView::Minus,
            TokenKind::OpenParen => TokenKindView::OpenParen,
            TokenKind::OpenSquare => TokenKindView::OpenSquare,
            TokenKind::Plus => TokenKindView::Plus,
            TokenKind::Semicolon => TokenKindView::Semicolon,
            TokenKind::Slash => TokenKindView::Slash,
        }
    }
}

/// A valid Delphi source code token.
#[derive(Clone, Debug, PartialEq)]
pub struct Token {
    /// The token's location relative to the rest of the files being
    /// processed.
    pub span: Span,
    /// What kind of token is this?
    pub kind: TokenKind,
}

impl Token {
    /// Create a new token out of a `Span` and a `TokenKind`.
    pub fn new(span: Span, kind: TokenKind) -> (t: Token)
        ensures
            t.span == span,
            t.kind == kind,
    {
        Token { span, kind }
    }
}

impl From<String> for TokenKind {
    /// A string is an identifier.
    fn from(other: String) -> (r: TokenKind) {
        TokenKind::Identifier(other)
    }
}

impl vstd::std_specs::convert::FromSpecImpl<String> for TokenKind {
    open spec fn obeys_from_spec() -> bool {
        true
    }

    open spec fn from_spec(v: String) -> TokenKind {
        TokenKind::Identifier(v)
    }
}

impl<'a> From<&'a str> for TokenKind {
    /// A string is an identifier.
    fn from(other: &'a str) -> (r: TokenKind)
        ensures
            r@ == TokenKindView::Identifier(other@),
    {
        TokenKind::Identifier(other.to_owned())
    }
}

impl<'a> vstd::std_specs::convert::FromSpecImpl<&'a str> for TokenKind {
    /// The owned string that a conversion makes is not a spec value, so
    /// the conversion is stated on its own `ensures` instead.
    open spec fn obeys_from_spec() -> bool {
        false
    }

    open spec fn from_spec(v: &'a str) -> TokenKind {
        TokenKind::Identifier(choose|t: String| t@ == v@)
    }
}

impl From<usize> for TokenKind {
    /// A number is an integer literal.
    fn from(other: usize) -> (r: TokenKind) {
        TokenKind::Integer(other)
    }
}

impl vstd::std_specs::convert::FromSpecImpl<usize> for TokenKind {
    open spec fn obeys_from_spec() -> bool {
        true
    }

    open spec fn from_spec(v: usize) -> TokenKind {
        TokenKind::Integer(v)
    }
}

impl From<TokenKind> for Token {
    /// A token of this kind with the dummy span, for tests.
    fn from(other: TokenKind) -> (r: Token) {
        Token::new(Span::dummy(), other)
    }
}

impl vstd::std_specs::convert::FromSpecImpl<TokenKind> for Token {
    open spec fn obeys_from_spec() -> bool {
        true
    }

    open spec fn from_spec(v: TokenKind) -> Token {
        Token { span: dummy_span(), kind: v }
    }
}

impl From<String> for Token {
    /// An identifier token with the dummy span, for tests.
    fn from(other: String) -> (r: Token) {
        Token::new(Span::dummy(), TokenKind::from(other))
    }
}

impl vstd::std_specs::convert::FromSpecImpl<String> for Token {
    open spec fn obeys_from_spec() -> bool {
        true
    }

    open spec fn from_spec(v: String) -> Token {
        Token { span: dummy_span(), kind: TokenKind::Identifier(v) }
    }
}

impl From<usize> for Token {
    /// An integer literal token with the dummy span, for tests.
    fn from(other: usize) -> (r: Token) {
        Token::new(Span::dummy(), TokenKind::from(other))
    }
}

impl vstd::std_specs::convert::FromSpecImpl<usize> for Token {
    open spec fn obeys_from_spec() -> bool {
        true
    }

    open spec fn from_spec(v: usize) -> Token {
        Token { span: dummy_span(), kind: TokenKind::Integer(v) }
    }
}

impl<'a> From<&'a str> for Token {
    /// An identifier token with the dummy span, for tests.
    fn from(other: &'a str) -> (r: Token)
        ensures
            r.span == dummy_span(),
            r.kind@ == TokenKindView::Identifier(other@),
    {
        Token::new(Span::dummy(), TokenKind::from(other))
    }
}

impl<'a> vstd::std_specs::convert::FromSpecImpl<&'a str> for Token {
    /// As for `TokenKind`, the conversion is stated on its own `ensures`.
    open spec fn obeys_from_spec() -> bool {
        false
    }

    open spec fn from_spec(v: &'a str) -> Token {
        Token { span: dummy_span(), kind: TokenKind::Identifier(choose|t: String| t@ == v@) }
    }
}

/* The lexical grammar, over sequences of characters */

/// `s` begins with `p`.
pub open spec fn starts_with(s: Seq<char>, p: Seq<char>) -> bool {
    p.len() <= s.len() && s.take(p.len() as int) == p
}

/// The number of leading whitespace characters of `s`.
pub open spec fn whitespace_len(s: Seq<char>) -> nat
    decreases s.len(),
{
    if s.len() > 0 && char_is_whitespace(s[0]) {
        1 + whitespace_len(s.drop_first())
    } else {
        0
    }
}

/// The number of characters of `s` before the first place where `p`
/// begins, or `None` when `p` occurs nowhere in `s`.
pub open spec fn chars_before(s: Seq<char>, p: Seq<char>) -> Option<nat>
    decreases s.len(),
{
    if starts_with(s, p) {
        Some(0)
    } else if s.len() == 0 {
        None
    } else {
        match chars_before(s.drop_first(), p) {
            Some(n) => Some(n + 1),
            None => None,
        }
    }
}

/// The text that opens a line comment.
pub open spec fn line_comment() -> Seq<char> {
    seq!['/', '/']
}

/// The text that opens a brace comment.
pub open spec fn brace_comment() -> Seq<char> {
    seq!['{']
}

/// The text that opens a parenthesised comment.
pub open spec fn paren_comment() -> Seq<char> {
    seq!['(', '*']
}

/// The text that closes a comment with the given opener.
pub open spec fn comment_closer(opener: Seq<char>) -> Seq<char> {
    if opener == line_comment() {
        seq!['\n']
    } else if opener == brace_comment() {
        seq!['}']
    } else {
        seq!['*', ')']
    }
}

/// The comment opener that `s` begins with, tried in the order line,
/// brace, parenthesised.
pub open spec fn comment_opener(s: Seq<char>) -> Option<Seq<char>> {
    if starts_with(s, line_comment()) {
        Some(line_comment())
    } else if starts_with(s, brace_comment()) {
        Some(brace_comment())
    } else if starts_with(s, paren_comment()) {
        Some(paren_comment())
    } else {
        None
    }
}

/// The length of the comment at the start of `s`: `Some(0)` when no
/// comment starts there, `None` when a brace or parenthesised comment
/// starts but is never closed. A line comment with no line break after it
/// runs to the end of the text. The search for the closer starts at the
/// opener itself.
pub open spec fn comment_len(s: Seq<char>) -> Option<nat> {
    match comment_opener(s) {
        None => Some(0),
        Some(opener) => {
            let closer = comment_closer(opener);
            match chars_before(s, closer) {
                Some(n) => Some(n + closer.len()),
                None => if opener == line_comment() {
                    Some(s.len())
                } else {
                    None
                },
            }
        },
    }
}

/// The number of characters of whitespace and comments at the start of
/// `s`, or `None` when an unclosed comment is met.
pub open spec fn skipped_len(s: Seq<char>) -> Option<nat>
    decreases s.len(),
{
    let w = whitespace_len(s);
    match comment_len(s.skip(w as int)) {
        None => None,
        Some(c) => if w + c == 0 {
            Some(0)
        } else {
            proof {
                lemma_whitespace_len_bound(s);
                lemma_comment_len_bound(s.skip(w as int));
            }
            match skipped_len(s.skip((w + c) as int)) {
                Some(k) => Some(w + c + k),
                None => None,
            }
        },
    }
}

/// The token that a punctuation character stands for.
pub open spec fn punctuation(c: char) -> Option<TokenKindView> {
    if c == '.' {
        Some(TokenKindView::Dot)
    } else if c == '=' {
        Some(TokenKindView::Equals)
    } else if c == '+' {
        Some(TokenKindView::Plus)
    } else if c == '-' {
        Some(TokenKindView::Minus)
    } else if c == '*' {
        Some(TokenKindView::Asterisk)
    } else if c == '/' {
        Some(TokenKindView::Slash)
    } else if c == '@' {
        Some(TokenKindView::At)
    } else if c == '^' {
        Some(TokenKindView::Carat)
    } else if c == '(' {
        Some(TokenKindView::OpenParen)
    } else if c == ')' {
        Some(TokenKindView::CloseParen)
    } else if c == '[' {
        Some(TokenKindView::OpenSquare)
    } else if c == ']' {
        Some(TokenKindView::CloseSquare)
    } else {
        None
    }
}

/// The length of the numeric literal at the start of `s`: decimal digits
/// with at most one dot among them (`seen_dot` tells whether one was
/// already taken).
pub open spec fn number_len(s: Seq<char>, seen_dot: bool) -> nat
    decreases s.len(),
{
    if s.len() == 0 {
        0
    } else if is_decimal_digit(s[0]) {
        1 + number_len(s.drop_first(), seen_dot)
    } else if s[0] == '.' && !seen_dot {
        1 + number_len(s.drop_first(), true)
    } else {
        0
    }
}

/// The value of a decimal digit.
pub open spec fn digit_value(c: char) -> nat {
    (c as u32 - '0' as u32) as nat
}

/// The value of a sequence of decimal digits.
pub open spec fn digits_value(s: Seq<char>) -> nat
    decreases s.len(),
{
    if s.len() == 0 {
        0
    } else {
        digits_value(s.drop_last()) * 10 + digit_value(s.last())
    }
}

/// A character that may continue an identifier.
pub open spec fn is_ident_char(c: char) -> bool {
    c == '_' || char_is_alphabetic(c) || char_is_numeric(c)
}

/// The number of leading identifier characters of `s`.
pub open spec fn ident_len(s: Seq<char>) -> nat
    decreases s.len(),
{
    if s.len() > 0 && is_ident_char(s[0]) {
        1 + ident_len(s.drop_first())
    } else {
        0
    }
}

/// The numeric literal at the start of `s`: digits with at most one dot
/// among them, none at all being an error. It is decimal when it holds a
/// dot (a lone dot is no number), otherwise an integer, which must fit in
/// a `usize`.
pub open spec fn number_token(s: Seq<char>) -> Result<(TokenKindView, nat), ErrorKind> {
    let n = number_len(s, false);
    let text = s.take(n as int);
    if n == 0 {
        Err(ErrorKind::NoMatches)
    } else if text.contains('.') {
        if text == seq!['.'] {
            Err(ErrorKind::InvalidNumber)
        } else {
            Ok((TokenKindView::Decimal(text), n))
        }
    } else if digits_value(text) <= usize::MAX {
        Ok((TokenKindView::Integer(digits_value(text) as usize), n))
    } else {
        Err(ErrorKind::IntegerOverflow)
    }
}

/// The identifier at the start of `s`.
pub open spec fn ident_token(s: Seq<char>) -> (TokenKindView, nat) {
    let n = ident_len(s);
    (TokenKindView::Identifier(s.take(n as int)), n)
}

/// Reading an identifier at the start of any text: there must be one, it
/// cannot start with a decimal digit, and it is the leading run of
/// letters, digits and underscores, which must not be empty.
pub open spec fn ident_result(s: Seq<char>) -> Result<(TokenKindView, nat), ErrorKind> {
    if s.len() == 0 {
        Err(ErrorKind::UnexpectedEOF)
    } else if is_decimal_digit(s[0]) {
        Err(ErrorKind::IdentifierStartsWithDigit)
    } else if ident_len(s) == 0 {
        Err(ErrorKind::NoMatches)
    } else {
        Ok(ident_token(s))
    }
}

/// The token at the very start of `s` and the number of characters it
/// takes, or why there is none.
///
/// Punctuation is one character; a literal starting with a digit is a
/// number; an identifier starts with an alphabetic character and goes on
/// with letters, digits and underscores.
pub open spec fn token_at_start(s: Seq<char>) -> Result<(TokenKindView, nat), ErrorKind> {
    if s.len() == 0 {
        Err(ErrorKind::UnexpectedEOF)
    } else {
        let c = s[0];
        match punctuation(c) {
            Some(kind) => Ok((kind, 1)),
            None => if is_decimal_digit(c) {
                number_token(s)
            } else if char_is_alphabetic(c) {
                Ok(ident_token(s))
            } else {
                Err(ErrorKind::UnknownCharacter(c))
            },
        }
    }
}

/// The outcome of lexing, with positions counted in characters.
pub enum SpecLex {
    /// Tokens with the half-open character interval each was read from.
    Tokens(Seq<(TokenKindView, int, int)>),
    /// The token starting at this character position could not be read.
    Failed(int, ErrorKind),
    /// A comment that is never closed was met.
    Unterminated,
}

/// Lexing `s` from character position `pos`: skip whitespace and
/// comments, stop at the end, otherwise read one token and go on after it.
pub open spec fn lex_from(s: Seq<char>, pos: int) -> SpecLex
    decreases s.len() - pos,
{
    if pos < 0 || pos >= s.len() {
        SpecLex::Tokens(seq![])
    } else {
        match skipped_len(s.skip(pos)) {
            None => SpecLex::Unterminated,
            Some(k) => {
                let p = pos + k;
                if p >= s.len() {
                    SpecLex::Tokens(seq![])
                } else {
                    match token_at_start(s.skip(p)) {
                        Err(e) => SpecLex::Failed(p, e),
                        Ok((kind, n)) => if n == 0 {
                            SpecLex::Tokens(seq![])
                        } else {
                            proof {
                                lemma_skipped_len_bound(s.skip(pos));
                                lemma_token_at_start_bound(s.skip(p));
                            }
                            match lex_from(s, p + n) {
                                SpecLex::Tokens(ts) => SpecLex::Tokens(seq![(kind, p, p + n)] + ts),
                                other => other,
                            }
                        },
                    }
                }
            },
        }
    }
}

/* Bounds that the grammar's termination rests on */

/// The whitespace prefix lies within the text.
pub proof fn lemma_whitespace_len_bound(s: Seq<char>)
    ensures
        whitespace_len(s) <= s.len(),
        forall|i: int| 0 <= i < whitespace_len(s) ==> char_is_whitespace(#[trigger] s[i]),
        whitespace_len(s) < s.len() ==> !char_is_whitespace(s[whitespace_len(s) as int]),
    decreases s.len(),
{
    if s.len() > 0 && char_is_whitespace(s[0]) {
        lemma_whitespace_len_bound(s.drop_first());
        assert forall|i: int| 0 <= i < whitespace_len(s) implies char_is_whitespace(#[trigger] s[i]) by {
            if i > 0 {
                assert(s[i] == s.drop_first()[i - 1]);
            }
        }
    }
}

/// A closer that is found is found within the text.
pub proof fn lemma_chars_before_bound(s: Seq<char>, p: Seq<char>)
    ensures
        chars_before(s, p) matches Some(n) ==> n + p.len() <= s.len() && starts_with(s.skip(n as int), p),
    decreases s.len(),
{
    if s.len() > 0 && !starts_with(s, p) {
        lemma_chars_before_bound(s.drop_first(), p);
        if let Some(n) = chars_before(s.drop_first(), p) {
            assert(s.skip(n + 1 as int) =~= s.drop_first().skip(n as int));
        }
    } else if starts_with(s, p) {
        assert(s.skip(0) =~= s);
    }
}

/// A comment lies within the text.
pub proof fn lemma_comment_len_bound(s: Seq<char>)
    ensures
        comment_len(s) matches Some(c) ==> c <= s.len(),
{
    if let Some(opener) = comment_opener(s) {
        lemma_chars_before_bound(s, comment_closer(opener));
    }
}

/// What is skipped lies within the text.
pub proof fn lemma_skipped_len_bound(s: Seq<char>)
    ensures
        skipped_len(s) matches Some(k) ==> k <= s.len(),
    decreases s.len(),
{
    let w = whitespace_len(s);
    lemma_whitespace_len_bound(s);
    lemma_comment_len_bound(s.skip(w as int));
    if let Some(c) = comment_len(s.skip(w as int)) {
        if w + c != 0 {
            lemma_skipped_len_bound(s.skip((w + c) as int));
        }
    }
}

/// The numeric prefix lies within the text; it holds digits and dots
/// only, and at most one dot, none when one was already taken.
pub proof fn lemma_number_len_bound(s: Seq<char>, seen_dot: bool)
    ensures
        number_len(s, seen_dot) <= s.len(),
        forall|i: int| 0 <= i < number_len(s, seen_dot) ==>
            is_decimal_digit(#[trigger] s[i]) || s[i] == '.',
    decreases s.len(),
{
    if s.len() > 0 {
        if is_decimal_digit(s[0]) {
            lemma_number_len_bound(s.drop_first(), seen_dot);
        } else if s[0] == '.' && !seen_dot {
            lemma_number_len_bound(s.drop_first(), true);
        }
        assert forall|i: int| 0 <= i < number_len(s, seen_dot) implies
            is_decimal_digit(#[trigger] s[i]) || s[i] == '.' by {
            if i > 0 {
                assert(s[i] == s.drop_first()[i - 1]);
            }
        }
    }
}

/// The identifier prefix lies within the text and holds identifier
/// characters only.
pub proof fn lemma_ident_len_bound(s: Seq<char>)
    ensures
        ident_len(s) <= s.len(),
        forall|i: int| 0 <= i < ident_len(s) ==> is_ident_char(#[trigger] s[i]),
        ident_len(s) < s.len() ==> !is_ident_char(s[ident_len(s) as int]),
    decreases s.len(),
{
    if s.len() > 0 && is_ident_char(s[0]) {
        lemma_ident_len_bound(s.drop_first());
        assert forall|i: int| 0 <= i < ident_len(s) implies is_ident_char(#[trigger] s[i]) by {
            if i > 0 {
                assert(s[i] == s.drop_first()[i - 1]);
            }
        }
    }
}

/// A token read from the start of `s` takes at least one character and
/// lies within `s`.
pub proof fn lemma_token_at_start_bound(s: Seq<char>)
    ensures
        token_at_start(s) matches Ok((_, n)) ==> 1 <= n <= s.len(),
{
    if s.len() > 0 {
        lemma_number_len_bound(s, false);
        lemma_ident_len_bound(s);
    }
}

/// Skipping is idempotent: after the whitespace and comments at the start
/// of a text, there is nothing more to skip.
pub proof fn lemma_skipped_len_idempotent(s: Seq<char>)
    ensures
        skipped_len(s) matches Some(k) ==> skipped_len(s.skip(k as int)) == Some(0nat),
    decreases s.len(),
{
    let w = whitespace_len(s);
    lemma_whitespace_len_bound(s);
    lemma_comment_len_bound(s.skip(w as int));
    if let Some(c) = comment_len(s.skip(w as int)) {
        if w + c == 0 {
            assert(s.skip(0) =~= s);
        } else {
            let t = s.skip((w + c) as int);
            lemma_skipped_len_idempotent(t);
            lemma_skipped_len_bound(t);
            if let Some(k) = skipped_len(t) {
                assert(t.skip(k as int) =~= s.skip((w + c + k) as int));
            }
        }
    }
}

/* Reading the grammar off a slice of characters */

/// Counts the leading characters of `data` for which `pred` holds.
fn take_while<F: Fn(char) -> bool>(data: &[char], pred: F) -> (n: usize)
    requires
        forall|c: char| #[trigger] pred.requires((c,)),
    ensures
        n <= data@.len(),
        forall|i: int| 0 <= i < n ==> call_ensures(pred, (#[trigger] data@[i],), true),
        n < data@.len() ==> call_ensures(pred, (data@[n as int],), false),
{
    let mut i: usize = 0;
    while i < data.len()
        invariant
            i <= data@.len(),
            forall|c: char| #[trigger] pred.requires((c,)),
            forall|j: int| 0 <= j < i ==> call_ensures(pred, (#[trigger] data@[j],), true),
        decreases data@.len() - i,
    {
        let keep = pred(data[i]);
        if !keep {
            return i;
        }
        i = i + 1;
    }
    i
}

/// Whitespace is exactly the leading run of whitespace characters.
proof fn lemma_whitespace_len_exact(s: Seq<char>, n: int)
    requires
        0 <= n <= s.len(),
        forall|i: int| 0 <= i < n ==> char_is_whitespace(#[trigger] s[i]),
        n < s.len() ==> !char_is_whitespace(s[n]),
    ensures
        whitespace_len(s) == n,
    decreases n,
{
    if n > 0 {
        assert forall|i: int| 0 <= i < n - 1 implies char_is_whitespace(#[trigger] s.drop_first()[i]) by {
            assert(s.drop_first()[i] == s[i + 1]);
        }
        lemma_whitespace_len_exact(s.drop_first(), n - 1);
    }
}

/// An identifier is exactly the leading run of identifier characters.
proof fn lemma_ident_len_exact(s: Seq<char>, n: int)
    requires
        0 <= n <= s.len(),
        forall|i: int| 0 <= i < n ==> is_ident_char(#[trigger] s[i]),
        n < s.len() ==> !is_ident_char(s[n]),
    ensures
        ident_len(s) == n,
    decreases n,
{
    if n > 0 {
        assert forall|i: int| 0 <= i < n - 1 implies is_ident_char(#[trigger] s.drop_first()[i]) by {
            assert(s.drop_first()[i] == s[i + 1]);
        }
        lemma_ident_len_exact(s.drop_first(), n - 1);
    }
}

/// Counts the leading whitespace characters of `data`.
fn skip_whitespace(data: &[char]) -> (n: usize)
    ensures
        n == whitespace_len(data@),
{
    let n = take_while(data, is_whitespace);
    proof {
        lemma_whitespace_len_exact(data@, n as int);
    }
    n
}

/// Whether `pattern` occurs in `data` starting at index `at`.
fn starts_with_at(data: &[char], at: usize, pattern: &[char]) -> (r: bool)
    requires
        at <= data@.len(),
    ensures
        r == starts_with(data@.skip(at as int), pattern@),
{
    if pattern.len() > data.len() - at {
        return false;
    }
    let mut i: usize = 0;
    while i < pattern.len()
        invariant
            at + pattern@.len() <= data@.len(),
            data@.len() <= usize::MAX,
            i <= pattern@.len(),
            forall|j: int| 0 <= j < i ==> data@[at + j] == pattern@[j],
        decreases pattern@.len() - i,
    {
        if data[at + i] != pattern[i] {
            assert(data@.skip(at as int).take(pattern@.len() as int)[i as int] != pattern@[i as int]);
            return false;
        }
        i = i + 1;
    }
    assert(data@.skip(at as int).take(pattern@.len() as int) =~= pattern@);
    true
}

/// The number of characters up to and including the first occurrence of
/// `pattern` in `data`, or `None` when it does not occur.
fn skip_until(data: &[char], pattern: &[char]) -> (r: Option<usize>)
    ensures
        r == (match chars_before(data@, pattern@) {
            Some(n) => Some((n + pattern@.len()) as usize),
            None => None::<usize>,
        }),
{
    let mut i: usize = 0;
    assert(data@.skip(0) =~= data@);
    while i < data.len() && !starts_with_at(data, i, pattern)
        invariant
            i <= data@.len(),
            chars_before(data@, pattern@) == (match chars_before(data@.skip(i as int), pattern@) {
                Some(n) => Some((n + i) as nat),
                None => None::<nat>,
            }),
        decreases data@.len() - i,
    {
        assert(data@.skip(i as int).drop_first() =~= data@.skip(i + 1));
        i = i + 1;
    }
    if !starts_with_at(data, i, pattern) {
        assert(data@.skip(i as int).len() == 0);
        None
    } else {
        proof {
            lemma_chars_before_bound(data@, pattern@);
        }
        Some(i + pattern.len())
    }
}

/// An optional count as an optional natural number.
pub open spec fn opt_nat(r: Option<usize>) -> Option<nat> {
    match r {
        Some(n) => Some(n as nat),
        None => None,
    }
}

/// `o` with `k` added to the count it holds.
pub open spec fn shift(k: nat, o: Option<nat>) -> Option<nat> {
    match o {
        Some(n) => Some(n + k),
        None => None,
    }
}

/// The length of the comment at the start of `data`: `Some(0)` when none
/// starts there, `None` when a brace or parenthesised one is never closed.
fn skip_comments(data: &[char]) -> (r: Option<usize>)
    ensures
        opt_nat(r) == comment_len(data@),
{
    let line: [char; 2] = ['/', '/'];
    let brace: [char; 1] = ['{'];
    let paren: [char; 2] = ['(', '*'];
    assert(data@.skip(0) =~= data@);
    assert(brace_comment() != line_comment()) by {
        assert(brace_comment().len() != line_comment().len());
    }
    assert(paren_comment() != line_comment()) by {
        assert(paren_comment()[0] != line_comment()[0]);
    }
    assert(paren_comment() != brace_comment()) by {
        assert(paren_comment().len() != brace_comment().len());
    }
    proof {
        lemma_chars_before_bound(data@, seq!['\n']);
        lemma_chars_before_bound(data@, seq!['}']);
        lemma_chars_before_bound(data@, seq!['*', ')']);
    }
    let data_len = data.len();
    assert(data@.len() == data_len);
    let line_s = line.as_slice();
    let brace_s = brace.as_slice();
    let paren_s = paren.as_slice();
    assert(line_s@ =~= line_comment());
    assert(brace_s@ =~= brace_comment());
    assert(paren_s@ =~= paren_comment());
    if starts_with_at(data, 0, line_s) {
        let close: [char; 1] = ['\n'];
        assert(close@ =~= comment_closer(line_comment()));
        assert(comment_opener(data@) == Some(line_comment()));
        let close_s = close.as_slice();
        assert(close_s@ == close@);
        match skip_until(data, close_s) {
            Some(n) => Some(n),
            None => Some(data_len),
        }
    } else if starts_with_at(data, 0, brace_s) {
        let close: [char; 1] = ['}'];
        assert(close@ =~= comment_closer(brace_comment()));
        assert(comment_opener(data@) == Some(brace_comment()));
        let close_s = close.as_slice();
        assert(close_s@ == close@);
        skip_until(data, close_s)
    } else if starts_with_at(data, 0, paren_s) {
        let close: [char; 2] = ['*', ')'];
        assert(close@ =~= comment_closer(paren_comment()));
        assert(comment_opener(data@) == Some(paren_comment()));
        let close_s = close.as_slice();
        assert(close_s@ == close@);
        skip_until(data, close_s)
    } else {
        Some(0)
    }
}

/// The number of characters of whitespace and comments at the start of
/// `data`, or `None` when a comment there is never closed.
fn skip(data: &[char]) -> (r: Option<usize>)
    ensures
        opt_nat(r) == skipped_len(data@),
{
    let len = data.len();
    let mut pos: usize = 0;
    assert(data@.skip(0) =~= data@);
    loop
        invariant
            len == data@.len(),
            pos <= len,
            skipped_len(data@) == shift(pos as nat, skipped_len(data@.skip(pos as int))),
        decreases len - pos,
    {
        let rest = &data[pos..len];
        assert(rest@ =~= data@.skip(pos as int));
        let ws = skip_whitespace(rest);
        proof {
            lemma_whitespace_len_bound(rest@);
        }
        let after_ws = &data[pos + ws..len];
        assert(after_ws@ =~= rest@.skip(ws as int));
        match skip_comments(after_ws) {
            None => {
                return None;
            },
            Some(c) => {
                proof {
                    lemma_comment_len_bound(after_ws@);
                }
                if ws + c == 0 {
                    return Some(pos);
                }
                assert(rest@.skip((ws + c) as int) =~= data@.skip(pos + ws + c));
                pos = pos + ws + c;
            },
        }
    }
}

/// The view of the result of reading one token.
pub open spec fn token_result_view(r: Result<(TokenKind, usize), ErrorKind>) -> Result<
    (TokenKindView, nat),
    ErrorKind,
> {
    match r {
        Ok((kind, n)) => Ok((kind@, n as nat)),
        Err(e) => Err(e),
    }
}

/// The token that a punctuation character stands for.
fn punctuation_token(c: char) -> (r: Option<TokenKind>)
    ensures
        match r {
            Some(k) => punctuation(c) == Some(k@),
            None => punctuation(c) is None,
        },
{
    match c {
        '.' => Some(TokenKind::Dot),
        '=' => Some(TokenKind::Equals),
        '+' => Some(TokenKind::Plus),
        '-' => Some(TokenKind::Minus),
        '*' => Some(TokenKind::Asterisk),
        '/' => Some(TokenKind::Slash),
        '@' => Some(TokenKind::At),
        '^' => Some(TokenKind::Carat),
        '(' => Some(TokenKind::OpenParen),
        ')' => Some(TokenKind::CloseParen),
        '[' => Some(TokenKind::OpenSquare),
        ']' => Some(TokenKind::CloseSquare),
        _ => None,
    }
}

/// Whether `c` may continue an identifier.
fn is_ident_continue(c: char) -> (r: bool)
    ensures
        r == is_ident_char(c),
{
    c == '_' || is_alphanumeric(c)
}

/// Whether a sequence with one more element contains `x`.
proof fn lemma_contains_push(s: Seq<char>, c: char, x: char)
    ensures
        s.push(c).contains(x) == (s.contains(x) || c == x),
{
    if s.contains(x) {
        let k = choose|k: int| 0 <= k < s.len() && s[k] == x;
        assert(s.push(c)[k] == x);
    }
    if c == x {
        assert(s.push(c)[s.len() as int] == x);
    }
    if s.push(c).contains(x) {
        let k = choose|k: int| 0 <= k < s.push(c).len() && s.push(c)[k] == x;
        if k < s.len() {
            assert(s[k] == x);
        }
    }
}

/// The value of a digit prefix grows with the prefix.
proof fn lemma_digits_value_mono(t: Seq<char>, k: int, m: int)
    requires
        0 <= k <= m <= t.len(),
        forall|i: int| 0 <= i < t.len() ==> is_decimal_digit(#[trigger] t[i]),
    ensures
        digits_value(t.take(k)) <= digits_value(t.take(m)),
    decreases m - k,
{
    if k < m {
        lemma_digits_value_mono(t, k, m - 1);
        assert(t.take(m).drop_last() =~= t.take(m - 1));
    }
}

/// The numeric literal at the start of `data`.
fn tokenize_number(data: &[char]) -> (r: Result<(TokenKind, usize), ErrorKind>)
    ensures
        token_result_view(r) == number_token(data@),
{
    let len = data.len();
    let mut i: usize = 0;
    let mut seen_dot = false;
    let mut done = false;
    assert(data@.skip(0) =~= data@);
    assert(data@.take(0) =~= Seq::<char>::empty());
    while i < len && !done
        invariant
            len == data@.len(),
            i <= len,
            number_len(data@, false) == i + number_len(data@.skip(i as int), seen_dot),
            seen_dot == data@.take(i as int).contains('.'),
            done ==> number_len(data@.skip(i as int), seen_dot) == 0,
        decreases len - i + (if done { 0int } else { 1int }),
    {
        let c = data[i];
        assert(data@.skip(i as int)[0] == c);
        assert(data@.skip(i as int).drop_first() =~= data@.skip(i + 1));
        assert(data@.take(i + 1) =~= data@.take(i as int).push(c));
        proof {
            lemma_contains_push(data@.take(i as int), c, '.');
        }
        if '0' <= c && c <= '9' {
            i = i + 1;
        } else if c == '.' && !seen_dot {
            seen_dot = true;
            i = i + 1;
        } else {
            done = true;
        }
    }
    if !done {
        assert(data@.skip(i as int).len() == 0);
    }
    proof {
        lemma_number_len_bound(data@, false);
    }
    let text = &data[0..i];
    assert(text@ =~= data@.take(i as int));
    if i == 0 {
        return Err(ErrorKind::NoMatches);
    }
    if seen_dot {
        if i == 1 {
            assert(text@ =~= seq!['.']) by {
                assert(text@.contains('.'));
            }
            return Err(ErrorKind::InvalidNumber);
        }
        assert(text@ != seq!['.']) by {
            assert(text@.len() != 1);
        }
        return Ok((TokenKind::Decimal(string_from_chars(text)), i));
    }
    assert forall|j: int| 0 <= j < text@.len() implies is_decimal_digit(#[trigger] text@[j]) by {
        if !is_decimal_digit(text@[j]) {
            assert(text@[j] == '.');
            assert(data@.take(i as int)[j] == '.');
        }
    }
    let mut value: usize = 0;
    let mut j: usize = 0;
    assert(text@.take(0) =~= Seq::<char>::empty());
    while j < i
        invariant
            i == text@.len(),
            text@ == data@.take(i as int),
            number_len(data@, false) == i,
            !text@.contains('.'),
            j <= i,
            forall|k: int| 0 <= k < text@.len() ==> is_decimal_digit(#[trigger] text@[k]),
            value == digits_value(text@.take(j as int)),
        decreases i - j,
    {
        let c = text[j];
        let d = (c as u32 - '0' as u32) as usize;
        assert(text@.take(j + 1).drop_last() =~= text@.take(j as int));
        proof {
            lemma_digits_value_mono(text@, j + 1, i as int);
            assert(text@.take(i as int) =~= text@);
            assert(text@.take(j + 1).last() == c);
            assert(digits_value(text@.take(j + 1)) == value * 10 + d);
        }
        match value.checked_mul(10) {
            None => {
                return Err(ErrorKind::IntegerOverflow);
            },
            Some(v) => match v.checked_add(d) {
                None => {
                    return Err(ErrorKind::IntegerOverflow);
                },
                Some(w) => {
                    value = w;
                },
            },
        }
        j = j + 1;
    }
    assert(text@.take(i as int) =~= text@);
    Ok((TokenKind::Integer(value), i))
}

/// The identifier at the start of `data`.
fn tokenize_ident(data: &[char]) -> (r: Result<(TokenKind, usize), ErrorKind>)
    ensures
        token_result_view(r) == ident_result(data@),
{
    if data.len() == 0 {
        return Err(ErrorKind::UnexpectedEOF);
    }
    if '0' <= data[0] && data[0] <= '9' {
        return Err(ErrorKind::IdentifierStartsWithDigit);
    }
    let n = take_while(data, is_ident_continue);
    proof {
        lemma_ident_len_exact(data@, n as int);
    }
    if n == 0 {
        return Err(ErrorKind::NoMatches);
    }
    let text = &data[0..n];
    assert(text@ =~= data@.take(n as int));
    Ok((TokenKind::Identifier(string_from_chars(text)), n))
}

/// The token at the very start of `data` and the number of characters it
/// takes.
fn read_token(data: &[char]) -> (r: Result<(TokenKind, usize), ErrorKind>)
    ensures
        token_result_view(r) == token_at_start(data@),
{
    if data.len() == 0 {
        return Err(ErrorKind::UnexpectedEOF);
    }
    let c = data[0];
    match punctuation_token(c) {
        Some(kind) => Ok((kind, 1)),
        None => {
            if '0' <= c && c <= '9' {
                tokenize_number(data)
            } else if is_alphabetic(c) {
                assert(ident_len(data@) > 0);
                tokenize_ident(data)
            } else {
                Err(ErrorKind::UnknownCharacter(c))
            }
        },
    }
}

/* What every successful lexing looks like */

/// The shape of a token list read from `s` starting at character `pos`:
/// tokens are non-empty and in order, each is what reading one token at
/// its start gives, and only whitespace and comments come before the
/// first, between two, and after the last.
pub open spec fn well_lexed(s: Seq<char>, pos: int, ts: Seq<(TokenKindView, int, int)>) -> bool {
    &&& forall|i: int| 0 <= i < ts.len() ==> pos <= (#[trigger] ts[i]).1 < ts[i].2 <= s.len()
    &&& forall|i: int|
        0 <= i < ts.len() ==> token_at_start(s.skip((#[trigger] ts[i]).1)) == Ok::<
            (TokenKindView, nat),
            ErrorKind,
        >((ts[i].0, (ts[i].2 - ts[i].1) as nat))
    &&& forall|i: int|
        0 < i < ts.len() ==> ts[i - 1].2 <= (#[trigger] ts[i]).1 && skipped_len(s.skip(ts[i - 1].2))
            == Some((ts[i].1 - ts[i - 1].2) as nat)
    &&& ts.len() > 0 ==> skipped_len(s.skip(pos)) == Some((ts[0].1 - pos) as nat)
    &&& ({
        let last_end = if ts.len() == 0 {
            pos
        } else {
            ts.last().2
        };
        last_end >= s.len() || (skipped_len(s.skip(last_end)) matches Some(k) && last_end + k
            >= s.len())
    })
}

/// Lexing that succeeds gives a well-formed token list.
#[verifier::spinoff_prover]
#[verifier::rlimit(40)]
pub proof fn lemma_lex_from_well_lexed(s: Seq<char>, pos: int)
    requires
        0 <= pos,
    ensures
        lex_from(s, pos) matches SpecLex::Tokens(ts) ==> well_lexed(s, pos, ts),
    decreases s.len() - pos,
{
    if pos < s.len() {
        if let Some(k) = skipped_len(s.skip(pos)) {
            lemma_skipped_len_bound(s.skip(pos));
            let p = pos + k;
            if p < s.len() {
                lemma_token_at_start_bound(s.skip(p));
                if let Ok((kind, n)) = token_at_start(s.skip(p)) {
                    lemma_lex_from_well_lexed(s, p + n);
                    if let SpecLex::Tokens(rest) = lex_from(s, p + n) {
                        let t = (kind, p, p + n);
                        let ts = seq![t] + rest;
                        assert(lex_from(s, pos) == SpecLex::Tokens(ts));
                        assert forall|i: int| 0 <= i < ts.len() implies pos <= (#[trigger] ts[i]).1
                            < ts[i].2 <= s.len() by {
                            if i > 0 {
                                assert(ts[i] == rest[i - 1]);
                            }
                        }
                        assert forall|i: int| 0 <= i < ts.len() implies token_at_start(
                            s.skip((#[trigger] ts[i]).1),
                        ) == Ok::<(TokenKindView, nat), ErrorKind>(
                            (ts[i].0, (ts[i].2 - ts[i].1) as nat),
                        ) by {
                            if i > 0 {
                                assert(ts[i] == rest[i - 1]);
                            }
                        }
                        assert forall|i: int| 0 < i < ts.len() implies ts[i - 1].2 <= (
                        #[trigger] ts[i]).1 && skipped_len(s.skip(ts[i - 1].2)) == Some(
                            (ts[i].1 - ts[i - 1].2) as nat,
                        ) by {
                            assert(ts[i] == rest[i - 1]);
                            if i > 1 {
                                assert(ts[i - 1] == rest[i - 2]);
                            }
                        }
                        if rest.len() > 0 {
                            assert(ts.last() == rest.last());
                        }
                    }
                }
            }
        }
    }
}

/* A token read from a text is read from its own text too */

/// Cutting the text after a number does not change the number's length.
proof fn lemma_number_len_take(s: Seq<char>, seen_dot: bool, m: int)
    requires
        number_len(s, seen_dot) <= m <= s.len(),
    ensures
        number_len(s.take(m), seen_dot) == number_len(s, seen_dot),
    decreases s.len(),
{
    if s.len() > 0 && m > 0 {
        let t = s.take(m);
        assert(t[0] == s[0]);
        assert(t.drop_first() =~= s.drop_first().take(m - 1));
        if is_decimal_digit(s[0]) {
            lemma_number_len_take(s.drop_first(), seen_dot, m - 1);
        } else if s[0] == '.' && !seen_dot {
            lemma_number_len_take(s.drop_first(), true, m - 1);
        }
    }
}

/// Cutting the text after an identifier does not change its length.
proof fn lemma_ident_len_take(s: Seq<char>, m: int)
    requires
        ident_len(s) <= m <= s.len(),
    ensures
        ident_len(s.take(m)) == ident_len(s),
    decreases s.len(),
{
    if s.len() > 0 && m > 0 {
        let t = s.take(m);
        assert(t[0] == s[0]);
        assert(t.drop_first() =~= s.drop_first().take(m - 1));
        if is_ident_char(s[0]) {
            lemma_ident_len_take(s.drop_first(), m - 1);
        }
    }
}

/// The token at the start of a text is also the token at the start of any
/// longer prefix of it, its own text included.
pub proof fn lemma_token_at_start_prefix(s: Seq<char>, m: int)
    requires
        token_at_start(s) matches Ok((_, n)) && n <= m <= s.len(),
    ensures
        token_at_start(s.take(m)) == token_at_start(s),
{
    let n = number_len(s, false);
    let t = s.take(m);
    assert(t[0] == s[0]);
    if punctuation(s[0]) is None {
        if is_decimal_digit(s[0]) {
            lemma_number_len_take(s, false, m);
            assert(t.take(n as int) =~= s.take(n as int));
        } else {
            lemma_ident_len_take(s, m);
            assert(t.take(ident_len(s) as int) =~= s.take(ident_len(s) as int));
        }
    }
}

/// What a token is, given its own text: what reading one token from that
/// text gives, taking all of it; an identifier or decimal holds the text
/// itself; an integer holds the value of its digits.
pub open spec fn token_of_text(kind: TokenKindView, text: Seq<char>) -> bool {
    &&& token_at_start(text) == Ok::<(TokenKindView, nat), ErrorKind>((kind, text.len()))
    &&& (kind matches TokenKindView::Identifier(t) ==> t == text)
    &&& (kind matches TokenKindView::Decimal(t) ==> t == text)
    &&& (kind matches TokenKindView::Integer(v) ==> v == digits_value(text))
}

/// The token read at the start of `s` is the token of its own text.
proof fn lemma_token_at_start_text(s: Seq<char>)
    requires
        token_at_start(s) is Ok,
    ensures
        token_at_start(s) matches Ok((kind, n)) && token_of_text(kind, s.take(n as int)),
{
    lemma_token_at_start_bound(s);
    let (kind, n) = token_at_start(s)->Ok_0;
    lemma_token_at_start_prefix(s, n as int);
    let t = s.take(n as int);
    if punctuation(s[0]) is None {
        if is_decimal_digit(s[0]) {
            assert(t.take(n as int) =~= t);
        } else {
            assert(t.take(n as int) =~= t);
        }
    }
}

/// Lexing a source text that succeeds gives tokens that lie in order within
/// the text, each starting before it ends, both ends on character
/// boundaries of the text's UTF-8 encoding.
pub proof fn lemma_lexed_tokens_in_bounds(s: Seq<char>)
    ensures
        lex_source(s) matches LexOutcome::Tokens(bs) ==> {
            &&& forall|i: int|
                0 <= i < bs.len() ==> {
                    &&& (#[trigger] bs[i]).1 < bs[i].2 <= encode_utf8(s).len()
                    &&& is_char_boundary(encode_utf8(s), bs[i].1 as int)
                    &&& is_char_boundary(encode_utf8(s), bs[i].2 as int)
                }
            &&& forall|i: int| 0 < i < bs.len() ==> bs[i - 1].2 <= (#[trigger] bs[i]).1
        },
{
    lemma_lex_from_well_lexed(s, 0);
    if let SpecLex::Tokens(ts) = lex_from(s, 0) {
        let bs = tokens_in_bytes(s, ts);
        assert forall|i: int| 0 <= i < bs.len() implies {
            &&& (#[trigger] bs[i]).1 < bs[i].2 <= encode_utf8(s).len()
            &&& is_char_boundary(encode_utf8(s), bs[i].1 as int)
            &&& is_char_boundary(encode_utf8(s), bs[i].2 as int)
        } by {
            assert(0 <= ts[i].1 < ts[i].2 <= s.len());
            lemma_byte_offset_mono(s, ts[i].1, ts[i].2);
            lemma_byte_offset_char_boundary(s, ts[i].1);
            lemma_byte_offset_char_boundary(s, ts[i].2);
        }
        assert forall|i: int| 0 < i < bs.len() implies bs[i - 1].2 <= (#[trigger] bs[i]).1 by {
            assert(ts[i - 1].2 <= ts[i].1);
            assert(0 <= ts[i - 1].2);
            assert(ts[i].1 <= s.len());
            lemma_byte_offset_mono(s, ts[i - 1].2, ts[i].1);
        }
    }
}

/// Lexing a source text that succeeds gives tokens each of which is the
/// token of the text between its two byte offsets (decoded from UTF-8):
/// read alone, that text gives back the same token, taking all of it.
pub proof fn lemma_lexed_token_text(s: Seq<char>)
    ensures
        lex_source(s) matches LexOutcome::Tokens(bs) ==> forall|i: int|
            0 <= i < bs.len() ==> token_of_text(
                (#[trigger] bs[i]).0,
                decode_utf8(encode_utf8(s).subrange(bs[i].1 as int, bs[i].2 as int)),
            ),
{
    lemma_lex_from_well_lexed(s, 0);
    if let SpecLex::Tokens(ts) = lex_from(s, 0) {
        let bs = tokens_in_bytes(s, ts);
        assert forall|i: int| 0 <= i < bs.len() implies token_of_text(
            (#[trigger] bs[i]).0,
            decode_utf8(encode_utf8(s).subrange(bs[i].1 as int, bs[i].2 as int)),
        ) by {
            let (a, b) = (ts[i].1, ts[i].2);
            assert(0 <= a < b <= s.len());
            lemma_byte_offset_subrange(s, a, b);
            encode_utf8_decode_utf8(s.subrange(a, b));
            lemma_token_at_start_text(s.skip(a));
            assert(s.skip(a).take(b - a) =~= s.subrange(a, b));
        }
    }
}

/// A numeric literal that starts with a digit is read, unless it is an
/// integer too large for a `usize`.
proof fn lemma_number_token_from_digit(s: Seq<char>)
    requires
        s.len() > 0,
        is_decimal_digit(s[0]),
    ensures
        number_token(s) is Ok || number_token(s) == Err::<(TokenKindView, nat), ErrorKind>(
            ErrorKind::IntegerOverflow,
        ),
{
    let n = number_len(s, false);
    lemma_number_len_bound(s, false);
    assert(n >= 1);
    assert(s.take(n as int)[0] == s[0]);
    assert(s[0] != '.');
    assert(s.take(n as int) != seq!['.']) by {
        assert(seq!['.'][0] == '.');
    }
}

/// Lexing fails only at a character that starts no token or at an
/// integer literal too large for a `usize`, and the place where it fails
/// lies within the text.
pub proof fn lemma_lex_from_failure(s: Seq<char>, pos: int)
    requires
        0 <= pos,
    ensures
        lex_from(s, pos) matches SpecLex::Failed(p, e) ==> pos <= p < s.len() && (e is UnknownCharacter
            || e is IntegerOverflow),
    decreases s.len() - pos,
{
    if pos < s.len() {
        if let Some(k) = skipped_len(s.skip(pos)) {
            lemma_skipped_len_bound(s.skip(pos));
            let p = pos + k;
            if p < s.len() {
                lemma_token_at_start_bound(s.skip(p));
                if is_decimal_digit(s.skip(p)[0]) {
                    lemma_number_token_from_digit(s.skip(p));
                }
                if let Ok((kind, n)) = token_at_start(s.skip(p)) {
                    lemma_lex_from_failure(s, p + n);
                }
            }
        }
    }
}

/* Laws of lexing stated over the characters themselves */

/// The tokens `ts` with every interval moved on by `m` characters.
pub open spec fn shift_tokens(ts: Seq<(TokenKindView, int, int)>, m: int) -> Seq<
    (TokenKindView, int, int),
> {
    ts.map_values(|t: (TokenKindView, int, int)| (t.0, t.1 + m, t.2 + m))
}

/// A lexing outcome with every position moved on by `m` characters.
pub open spec fn shift_lex(o: SpecLex, m: int) -> SpecLex {
    match o {
        SpecLex::Tokens(ts) => SpecLex::Tokens(shift_tokens(ts, m)),
        SpecLex::Failed(p, e) => SpecLex::Failed(p + m, e),
        SpecLex::Unterminated => SpecLex::Unterminated,
    }
}

/// Lexing depends only on the text from where it starts: lexing `q + r`
/// from inside `r` gives what lexing `r` alone gives, moved on by the
/// length of `q`.
pub proof fn lemma_lex_from_translate(q: Seq<char>, r: Seq<char>, pos: int)
    requires
        0 <= pos,
    ensures
        lex_from(q + r, q.len() + pos) == shift_lex(lex_from(r, pos), q.len() as int),
    decreases r.len() - pos,
{
    let s = q + r;
    let m = q.len() as int;
    assert(shift_tokens(seq![], m) =~= seq![]);
    if pos < r.len() {
        assert(s.skip(m + pos) =~= r.skip(pos));
        lemma_skipped_len_bound(r.skip(pos));
        if let Some(k) = skipped_len(r.skip(pos)) {
            let p = pos + k;
            if p < r.len() {
                assert(s.skip(m + p) =~= r.skip(p));
                lemma_token_at_start_bound(r.skip(p));
                if let Ok((kind, n)) = token_at_start(r.skip(p)) {
                    lemma_lex_from_translate(q, r, p + n);
                    if let SpecLex::Tokens(ts) = lex_from(r, p + n) {
                        assert(seq![(kind, m + p, m + p + n)] + shift_tokens(ts, m) =~= shift_tokens(
                            seq![(kind, p, p + n)] + ts,
                            m,
                        ));
                    }
                }
            }
        }
    }
}

/// Where `pat` first begins in `s`: at `j`, when it begins there and at
/// no earlier position.
proof fn lemma_chars_before_at(s: Seq<char>, pat: Seq<char>, j: int)
    requires
        0 <= j,
        j + pat.len() <= s.len(),
        s.subrange(j, j + pat.len()) == pat,
        forall|i: int| 0 <= i < j ==> !starts_with(#[trigger] s.skip(i), pat),
    ensures
        chars_before(s, pat) == Some(j as nat),
    decreases j,
{
    assert(s.skip(0) =~= s);
    if j == 0 {
        assert(s.take(pat.len() as int) =~= s.subrange(0, pat.len() as int));
    } else {
        assert(!starts_with(s.skip(0), pat));
        let d = s.drop_first();
        assert forall|i: int| 0 <= i < j - 1 implies !starts_with(#[trigger] d.skip(i), pat) by {
            assert(d.skip(i) =~= s.skip(i + 1));
        }
        assert(d.subrange(j - 1, j - 1 + pat.len()) =~= s.subrange(j, j + pat.len()));
        lemma_chars_before_at(d, pat, j - 1);
    }
}

/// A pattern that begins nowhere in `s` is not found.
proof fn lemma_chars_before_none(s: Seq<char>, pat: Seq<char>)
    requires
        forall|i: int| 0 <= i <= s.len() ==> !starts_with(#[trigger] s.skip(i), pat),
    ensures
        chars_before(s, pat) is None,
    decreases s.len(),
{
    assert(s.skip(0) =~= s);
    if s.len() > 0 {
        let d = s.drop_first();
        assert forall|i: int| 0 <= i <= d.len() implies !starts_with(#[trigger] d.skip(i), pat) by {
            assert(d.skip(i) =~= s.skip(i + 1));
        }
        lemma_chars_before_none(d, pat);
    }
}

/// A text `p` that is one whole comment, with no whitespace before it, is
/// skipped: lexing `p + r` gives the tokens of `r` moved on by its length.
proof fn lemma_lex_after_comment(p: Seq<char>, r: Seq<char>)
    requires
        p.len() > 0,
        !char_is_whitespace(p[0]),
        comment_len(p + r) == Some(p.len()),
    ensures
        lex_from(p + r, 0) == shift_lex(lex_from(r, 0), p.len() as int),
{
    let s = p + r;
    lemma_lex_from_translate(p, r, 0);
    assert(s[0] == p[0]);
    assert(whitespace_len(s) == 0);
    assert(s.skip(0) =~= s);
    assert(s.skip(p.len() as int) =~= r);
    if r.len() == 0 {
        assert(whitespace_len(r) == 0);
        assert(r.skip(0) =~= r);
        assert(comment_opener(r) is None);
        assert(skipped_len(r) == Some(0nat));
    }
}

/// A parenthesised comment runs to the first `*)`: for a body `t` with no
/// `*)` in it (and not starting with `)`, which would close it against
/// the opener's `*`), lexing `(*` + `t` + `*)` + `r` gives exactly the
/// tokens of `r`, moved on by the comment's length. A `)` alone inside the
/// comment does not end it.
pub proof fn lemma_paren_comment_skipped(t: Seq<char>, r: Seq<char>)
    requires
        forall|k: int| 0 <= k < t.len() - 1 ==> !(#[trigger] t[k] == '*' && t[k + 1] == ')'),
        t.len() > 0 ==> t[0] != ')',
    ensures
        lex_from(seq!['(', '*'] + t + seq!['*', ')'] + r, 0) == shift_lex(
            lex_from(r, 0),
            t.len() + 4int,
        ),
{
    let p = seq!['(', '*'] + t + seq!['*', ')'];
    let s = p + r;
    let n = t.len() as int;
    assert(p.len() == n + 4);
    assert(s[0] == '(' && s[1] == '*');
    assert(forall|k: int| 0 <= k < n ==> s[2 + k] == #[trigger] t[k]);
    assert(s[n + 2] == '*' && s[n + 3] == ')');
    let pat = seq!['*', ')'];
    assert(s.take(2) =~= seq!['(', '*']);
    assert(s.take(1) =~= seq!['(']);
    assert(!starts_with(s, line_comment())) by {
        assert(s.take(2)[0] != line_comment()[0]);
    }
    assert(!starts_with(s, brace_comment())) by {
        assert(s.take(1)[0] != brace_comment()[0]);
    }
    assert(starts_with(s, paren_comment()));
    assert(paren_comment() != line_comment()) by {
        assert(paren_comment()[0] != line_comment()[0]);
    }
    assert(paren_comment() != brace_comment()) by {
        assert(paren_comment().len() != brace_comment().len());
    }
    assert(comment_closer(paren_comment()) =~= pat);
    assert forall|i: int| 0 <= i < n + 2 implies !starts_with(#[trigger] s.skip(i), pat) by {
        if starts_with(s.skip(i), pat) {
            assert(s.skip(i).take(2)[0] == s[i]);
            assert(s.skip(i).take(2)[1] == s[i + 1]);
            assert(s[i] == '*' && s[i + 1] == ')');
            if i >= 2 && i - 2 < n - 1 {
                assert(s[i] == t[i - 2]);
                assert(s[i + 1] == t[i - 1]);
            } else if i == n + 1 && n > 0 {
                assert(s[i + 1] == '*');
            } else if i == 1 && n > 0 {
                assert(s[2] == t[0]);
            }
        }
    }
    assert(s.subrange(n + 2, n + 4) =~= pat);
    lemma_chars_before_at(s, pat, n + 2);
    assert(p[0] == '(');
    lemma_lex_after_comment(p, r);
}

/// `(*)` is a whole comment: the search for the closing `*)` starts at the
/// opener, whose `*` the `)` closes.
pub proof fn lemma_paren_comment_shortest(r: Seq<char>)
    ensures
        lex_from(seq!['(', '*', ')'] + r, 0) == shift_lex(lex_from(r, 0), 3),
{
    let p = seq!['(', '*', ')'];
    let s = p + r;
    let pat = seq!['*', ')'];
    assert(s[0] == '(' && s[1] == '*' && s[2] == ')');
    assert(s.take(2) =~= seq!['(', '*']);
    assert(s.take(1) =~= seq!['(']);
    assert(!starts_with(s, line_comment())) by {
        assert(s.take(2)[0] != line_comment()[0]);
    }
    assert(!starts_with(s, brace_comment())) by {
        assert(s.take(1)[0] != brace_comment()[0]);
    }
    assert(paren_comment() != line_comment()) by {
        assert(paren_comment()[0] != line_comment()[0]);
    }
    assert(paren_comment() != brace_comment()) by {
        assert(paren_comment().len() != brace_comment().len());
    }
    assert(comment_closer(paren_comment()) =~= pat);
    assert forall|i: int| 0 <= i < 1 implies !starts_with(#[trigger] s.skip(i), pat) by {
        assert(s.skip(i).take(2)[0] == s[i]);
    }
    assert(s.subrange(1, 3) =~= pat);
    lemma_chars_before_at(s, pat, 1);
    lemma_lex_after_comment(p, r);
}

/// A brace comment runs to the first `}`: for a body `t` with no `}` in
/// it, lexing `{` + `t` + `}` + `r` gives exactly the tokens of `r`, moved
/// on by the comment's length.
pub proof fn lemma_brace_comment_skipped(t: Seq<char>, r: Seq<char>)
    requires
        forall|k: int| 0 <= k < t.len() ==> #[trigger] t[k] != '}',
    ensures
        lex_from(seq!['{'] + t + seq!['}'] + r, 0) == shift_lex(lex_from(r, 0), t.len() + 2int),
{
    let p = seq!['{'] + t + seq!['}'];
    let s = p + r;
    let n = t.len() as int;
    let pat = seq!['}'];
    assert(s[0] == '{');
    assert(forall|k: int| 0 <= k < n ==> s[1 + k] == #[trigger] t[k]);
    assert(s[n + 1] == '}');
    assert(s.take(2)[0] == '{');
    assert(!starts_with(s, line_comment())) by {
        if starts_with(s, line_comment()) {
            assert(s.take(2)[0] == line_comment()[0]);
        }
    }
    assert(s.take(1) =~= brace_comment());
    assert(brace_comment() != line_comment()) by {
        assert(brace_comment().len() != line_comment().len());
    }
    assert(comment_closer(brace_comment()) =~= pat);
    assert forall|i: int| 0 <= i < n + 1 implies !starts_with(#[trigger] s.skip(i), pat) by {
        if starts_with(s.skip(i), pat) {
            assert(s.skip(i).take(1)[0] == s[i]);
            if i >= 1 {
                assert(s[i] == t[i - 1]);
            }
        }
    }
    assert(s.subrange(n + 1, n + 2) =~= pat);
    lemma_chars_before_at(s, pat, n + 1);
    lemma_lex_after_comment(p, r);
}

/// A line comment runs to the end of its line: for a body `t` with no line
/// break in it, lexing `//` + `t` + a line break + `r` gives exactly the
/// tokens of `r`, moved on by the comment's length.
pub proof fn lemma_line_comment_skipped(t: Seq<char>, r: Seq<char>)
    requires
        forall|k: int| 0 <= k < t.len() ==> #[trigger] t[k] != '\n',
    ensures
        lex_from(seq!['/', '/'] + t + seq!['\n'] + r, 0) == shift_lex(lex_from(r, 0), t.len() + 3int),
{
    let p = seq!['/', '/'] + t + seq!['\n'];
    let s = p + r;
    let n = t.len() as int;
    let pat = seq!['\n'];
    assert(s[0] == '/' && s[1] == '/');
    assert(forall|k: int| 0 <= k < n ==> s[2 + k] == #[trigger] t[k]);
    assert(s[n + 2] == '\n');
    assert(s.take(2) =~= line_comment());
    assert(comment_closer(line_comment()) =~= pat);
    assert forall|i: int| 0 <= i < n + 2 implies !starts_with(#[trigger] s.skip(i), pat) by {
        if starts_with(s.skip(i), pat) {
            assert(s.skip(i).take(1)[0] == s[i]);
            if i >= 2 {
                assert(s[i] == t[i - 2]);
            }
        }
    }
    assert(s.subrange(n + 2, n + 3) =~= pat);
    lemma_chars_before_at(s, pat, n + 2);
    lemma_lex_after_comment(p, r);
}

/// A line comment may end the text: `//` followed by anything without a
/// line break lexes to no tokens at all.
pub proof fn lemma_line_comment_at_end(t: Seq<char>)
    requires
        forall|k: int| 0 <= k < t.len() ==> #[trigger] t[k] != '\n',
    ensures
        lex_from(seq!['/', '/'] + t, 0) == SpecLex::Tokens(seq![]),
{
    let s = seq!['/', '/'] + t;
    let n = t.len() as int;
    let pat = seq!['\n'];
    assert(s[0] == '/' && s[1] == '/');
    assert(forall|k: int| 0 <= k < n ==> s[2 + k] == #[trigger] t[k]);
    assert(s.take(2) =~= line_comment());
    assert(comment_closer(line_comment()) =~= pat);
    assert forall|i: int| 0 <= i <= s.len() implies !starts_with(#[trigger] s.skip(i), pat) by {
        if starts_with(s.skip(i), pat) {
            assert(s.skip(i).take(1)[0] == s[i]);
            if i >= 2 {
                assert(s[i] == t[i - 2]);
            }
        }
    }
    lemma_chars_before_none(s, pat);
    assert(s.skip(0) =~= s);
    assert(whitespace_len(s) == 0);
    let e = s.skip(s.len() as int);
    assert(e.len() == 0);
    assert(whitespace_len(e) == 0);
    assert(e.skip(0) =~= e);
    assert(comment_opener(e) is None);
    assert(skipped_len(e) == Some(0nat));
    assert(comment_opener(s) == Some(line_comment()));
    assert(comment_len(s) == Some(s.len()));
    assert(skipped_len(s) == Some(s.len()));
}

/// Where a numeric literal stops: at a character that is no digit, and
/// that is no dot unless a dot was already taken.
proof fn lemma_number_len_stop(s: Seq<char>, seen_dot: bool)
    ensures
        number_len(s, seen_dot) < s.len() ==> !('0' <= s[number_len(s, seen_dot) as int] && s[number_len(
            s,
            seen_dot,
        ) as int] <= '9') && (s[number_len(s, seen_dot) as int] == '.' ==> seen_dot || s.take(
            number_len(s, seen_dot) as int,
        ).contains('.')),
    decreases s.len(),
{
    if s.len() > 0 {
        let d = s.drop_first();
        if is_decimal_digit(s[0]) || (s[0] == '.' && !seen_dot) {
            let sd = if is_decimal_digit(s[0]) { seen_dot } else { true };
            lemma_number_len_stop(d, sd);
            lemma_number_len_bound(d, sd);
            let m = number_len(d, sd) as int;
            if m < d.len() {
                assert(d[m as int] == s[m + 1]);
                if d.take(m as int).contains('.') {
                    let j = choose|j: int| 0 <= j < d.take(m).len() && d.take(m)[j] == '.';
                    assert(s.take(m + 1)[j + 1] == '.');
                }
                if s[0] == '.' {
                    assert(s.take(m + 1)[0] == '.');
                }
            }
        }
    }
}

/// An identifier token is the whole leading run of underscores, letters
/// and numeric characters, at least one character long, and its text is
/// exactly those characters.
pub proof fn lemma_identifier_token_shape(s: Seq<char>)
    ensures
        token_at_start(s) matches Ok((k, n)) ==> (k is Identifier ==> {
            &&& n >= 1
            &&& k == TokenKindView::Identifier(s.take(n as int))
            &&& forall|i: int|
                0 <= i < n ==> (#[trigger] s[i] == '_' || char_is_alphabetic(s[i]) || char_is_numeric(s[i]))
            &&& n < s.len() ==> !(s[n as int] == '_' || char_is_alphabetic(s[n as int]) || char_is_numeric(
                s[n as int],
            ))
        }),
{
    lemma_ident_len_bound(s);
    lemma_token_at_start_bound(s);
}

/// A numeric token is the whole leading run of decimal digits with at
/// most one dot among them: it stops at the first character that is no
/// digit, or at a second dot. A decimal is exactly that text and holds a
/// dot; an integer holds none.
pub proof fn lemma_number_token_shape(s: Seq<char>)
    ensures
        token_at_start(s) matches Ok((k, n)) ==> ((k is Integer || k is Decimal) ==> {
            &&& n >= 1
            &&& forall|i: int| 0 <= i < n ==> ('0' <= #[trigger] s[i] && s[i] <= '9') || s[i] == '.'
            &&& n < s.len() ==> !('0' <= s[n as int] && s[n as int] <= '9') && (s[n as int] == '.'
                ==> s.take(n as int).contains('.'))
            &&& k is Decimal ==> k == TokenKindView::Decimal(s.take(n as int)) && s.take(n as int).contains(
                '.',
            )
            &&& k is Integer ==> !s.take(n as int).contains('.')
        }),
{
    lemma_number_len_bound(s, false);
    lemma_number_len_stop(s, false);
    lemma_token_at_start_bound(s);
}

/// The token read at the start of a text, by its first character: each
/// punctuation character is its own one-character token, and a character
/// that is neither punctuation, nor a decimal digit, nor alphabetic is an
/// unknown character. Conversely a punctuation token is read only from its
/// own character, a number only from a digit and an identifier only from
/// an alphabetic character.
pub proof fn lemma_token_at_start_by_first_char(s: Seq<char>)
    requires
        s.len() > 0,
    ensures
        s[0] == '.' ==> token_at_start(s) == Ok::<(TokenKindView, nat), ErrorKind>((TokenKindView::Dot, 1nat)),
        s[0] == '=' ==> token_at_start(s) == Ok::<(TokenKindView, nat), ErrorKind>((TokenKindView::Equals, 1nat)),
        s[0] == '+' ==> token_at_start(s) == Ok::<(TokenKindView, nat), ErrorKind>((TokenKindView::Plus, 1nat)),
        s[0] == '-' ==> token_at_start(s) == Ok::<(TokenKindView, nat), ErrorKind>((TokenKindView::Minus, 1nat)),
        s[0] == '*' ==> token_at_start(s) == Ok::<(TokenKindView, nat), ErrorKind>((TokenKindView::Asterisk, 1nat)),
        s[0] == '/' ==> token_at_start(s) == Ok::<(TokenKindView, nat), ErrorKind>((TokenKindView::Slash, 1nat)),
        s[0] == '@' ==> token_at_start(s) == Ok::<(TokenKindView, nat), ErrorKind>((TokenKindView::At, 1nat)),
        s[0] == '^' ==> token_at_start(s) == Ok::<(TokenKindView, nat), ErrorKind>((TokenKindView::Carat, 1nat)),
        s[0] == '(' ==> token_at_start(s) == Ok::<(TokenKindView, nat), ErrorKind>((TokenKindView::OpenParen, 1nat)),
        s[0] == ')' ==> token_at_start(s) == Ok::<(TokenKindView, nat), ErrorKind>((TokenKindView::CloseParen, 1nat)),
        s[0] == '[' ==> token_at_start(s) == Ok::<(TokenKindView, nat), ErrorKind>((TokenKindView::OpenSquare, 1nat)),
        s[0] == ']' ==> token_at_start(s) == Ok::<(TokenKindView, nat), ErrorKind>((TokenKindView::CloseSquare, 1nat)),
        (s[0] != '.' && s[0] != '=' && s[0] != '+' && s[0] != '-' && s[0] != '*' && s[0] != '/'
            && s[0] != '@' && s[0] != '^' && s[0] != '(' && s[0] != ')' && s[0] != '[' && s[0] != ']'
            && !('0' <= s[0] && s[0] <= '9') && !char_is_alphabetic(s[0])) ==> token_at_start(s)
            == Err::<(TokenKindView, nat), ErrorKind>(ErrorKind::UnknownCharacter(s[0])),
        token_at_start(s) matches Ok((k, n)) ==> {
            &&& (k is Dot <==> s[0] == '.')
            &&& (k is Equals <==> s[0] == '=')
            &&& (k is Plus <==> s[0] == '+')
            &&& (k is Minus <==> s[0] == '-')
            &&& (k is Asterisk <==> s[0] == '*')
            &&& (k is Slash <==> s[0] == '/')
            &&& (k is At <==> s[0] == '@')
            &&& (k is Carat <==> s[0] == '^')
            &&& (k is OpenParen <==> s[0] == '(')
            &&& (k is CloseParen <==> s[0] == ')')
            &&& (k is OpenSquare <==> s[0] == '[')
            &&& (k is CloseSquare <==> s[0] == ']')
            &&& ((k is Integer || k is Decimal) <==> '0' <= s[0] && s[0] <= '9')
            &&& (k is Identifier ==> char_is_alphabetic(s[0]))
            &&& !(k is QuotedString || k is Colon || k is Semicolon || k is End)
        },
{
}

/* Lexing a whole source text */

/// A token with the half-open byte interval `[start, end)` of the source
/// it was read from.
pub open spec fn token_triple_view(t: (TokenKind, usize, usize)) -> (TokenKindView, nat, nat) {
    (t.0@, t.1 as nat, t.2 as nat)
}

/// Tokens with byte intervals, as values.
pub open spec fn tokens_view(v: Seq<(TokenKind, usize, usize)>) -> Seq<(TokenKindView, nat, nat)> {
    v.map_values(|t: (TokenKind, usize, usize)| token_triple_view(t))
}

/// Tokens with character intervals, given instead byte intervals of the
/// encoding of `s`.
pub open spec fn tokens_in_bytes(s: Seq<char>, ts: Seq<(TokenKindView, int, int)>) -> Seq<
    (TokenKindView, nat, nat),
> {
    ts.map_values(|t: (TokenKindView, int, int)| (t.0, byte_offset(s, t.1), byte_offset(s, t.2)))
}

/// The outcome of lexing a source text, with byte offsets.
pub enum LexOutcome {
    /// The tokens, each with its half-open byte interval.
    Tokens(Seq<(TokenKindView, nat, nat)>),
    /// The token starting at this byte offset could not be read.
    Failed(nat, ErrorKind),
    /// A comment that is never closed was met.
    Unterminated,
}

/// What lexing the source text `s` gives, with byte offsets.
pub open spec fn lex_source(s: Seq<char>) -> LexOutcome {
    match lex_from(s, 0) {
        SpecLex::Tokens(ts) => LexOutcome::Tokens(tokens_in_bytes(s, ts)),
        SpecLex::Failed(p, e) => LexOutcome::Failed(byte_offset(s, p), e),
        SpecLex::Unterminated => LexOutcome::Unterminated,
    }
}

/// The result of lexing a whole source text.
#[derive(Debug)]
pub enum Lexed {
    /// Every token, each with the half-open byte interval `[start, end)`
    /// of the source it was read from.
    Tokens(Vec<(TokenKind, usize, usize)>),
    /// A token could not be read.
    Failed(LexError),
    /// A brace (`{ }`) or parenthesised (`(* *)`) comment is never closed.
    UnterminatedComment,
}

impl View for Lexed {
    type V = LexOutcome;

    open spec fn view(&self) -> LexOutcome {
        match self {
            Lexed::Tokens(v) => LexOutcome::Tokens(tokens_view(v@)),
            Lexed::Failed(e) => LexOutcome::Failed(e.location as nat, e.kind),
            Lexed::UnterminatedComment => LexOutcome::Unterminated,
        }
    }
}

/// The lexing outcome `o` with the tokens `ts` put in front.
pub open spec fn prepend_tokens(ts: Seq<(TokenKindView, int, int)>, o: SpecLex) -> SpecLex {
    match o {
        SpecLex::Tokens(rest) => SpecLex::Tokens(ts + rest),
        other => other,
    }
}

/// One step of lexing from character position `pos`: skip whitespace and
/// comments, then read one token, unless the text ends first.
pub enum SpecStep {
    /// A token and the half-open character interval it was read from.
    Token(TokenKindView, int, int),
    /// Only whitespace and comments were left.
    End,
    /// The token starting at this character position could not be read.
    Failed(int, ErrorKind),
    /// A comment that is never closed was met.
    Unterminated,
}

/// The step of lexing `s` from character position `pos`.
pub open spec fn lex_step(s: Seq<char>, pos: int) -> SpecStep {
    match skipped_len(s.skip(pos)) {
        None => SpecStep::Unterminated,
        Some(k) => {
            let p = pos + k;
            if p >= s.len() {
                SpecStep::End
            } else {
                match token_at_start(s.skip(p)) {
                    Err(e) => SpecStep::Failed(p, e),
                    Ok((kind, n)) => SpecStep::Token(kind, p, p + n),
                }
            }
        },
    }
}

/// Lexing from a position is one step and then lexing on after the token.
proof fn lemma_lex_from_step(s: Seq<char>, pos: int)
    requires
        0 <= pos <= s.len(),
    ensures
        lex_from(s, pos) == (match lex_step(s, pos) {
            SpecStep::Token(k, a, b) => prepend_tokens(seq![(k, a, b)], lex_from(s, b)),
            SpecStep::End => SpecLex::Tokens(seq![]),
            SpecStep::Failed(a, e) => SpecLex::Failed(a, e),
            SpecStep::Unterminated => SpecLex::Unterminated,
        }),
        lex_step(s, pos) matches SpecStep::Token(_, a, b) ==> pos <= a < b <= s.len(),
        lex_step(s, pos) matches SpecStep::Failed(a, _) ==> pos <= a < s.len(),
{
    if pos == s.len() {
        let e = s.skip(pos);
        assert(e.len() == 0);
        assert(whitespace_len(e) == 0);
        assert(e.skip(0) =~= e);
        assert(comment_opener(e) is None);
    } else {
        lemma_skipped_len_bound(s.skip(pos));
        if let Some(k) = skipped_len(s.skip(pos)) {
            if pos + k < s.len() {
                lemma_token_at_start_bound(s.skip(pos + k));
            }
        }
    }
}

/// What one step of the tokenizer gives.
enum Step {
    /// A token with the half-open byte interval it was read from.
    Token(TokenKind, usize, usize),
    /// Only whitespace and comments were left.
    End,
    /// A token could not be read.
    Failed(LexError),
    /// A comment is never closed.
    Unterminated,
}

/// Reads tokens from a source text one at a time, keeping track of where
/// it is both by character and by byte.
struct Tokenizer {
    chars: Vec<char>,
    pos: usize,
    current_index: usize,
}

impl Tokenizer {
    /// The byte offset is that of the character position, which lies
    /// within the text.
    spec fn wf(&self) -> bool {
        &&& self.pos <= self.chars@.len()
        &&& self.current_index == byte_offset(self.chars@, self.pos as int)
        &&& encode_utf8(self.chars@).len() <= usize::MAX
    }

    fn new(src: &str) -> (t: Tokenizer)
        requires
            encode_utf8(src@).len() <= usize::MAX,
        ensures
            t.wf(),
            t.chars@ == src@,
            t.pos == 0,
    {
        assert(src@.take(0) =~= Seq::<char>::empty());
        Tokenizer { chars: chars_of(src), pos: 0, current_index: 0 }
    }

    /// Moves past `n` characters.
    fn chomp(&mut self, n: usize)
        requires
            old(self).wf(),
            old(self).pos + n <= old(self).chars@.len(),
        ensures
            final(self).wf(),
            final(self).chars@ == old(self).chars@,
            final(self).pos == old(self).pos + n,
    {
        let len = self.chars.len();
        assert(self.pos + n <= len);
        let to = self.pos + n;
        self.current_index = advance_bytes(self.chars.as_slice(), self.pos, to, self.current_index);
        self.pos = to;
    }

    /// Moves past whitespace and comments; `false` when a comment is never
    /// closed.
    fn skip_whitespace(&mut self) -> (ok: bool)
        requires
            old(self).wf(),
        ensures
            final(self).wf(),
            final(self).chars@ == old(self).chars@,
            match skipped_len(old(self).chars@.skip(old(self).pos as int)) {
                Some(k) => ok && final(self).pos == old(self).pos + k,
                None => !ok && final(self).pos == old(self).pos,
            },
    {
        let len = self.chars.len();
        let rest = &self.chars.as_slice()[self.pos..len];
        assert(rest@ =~= self.chars@.skip(self.pos as int));
        match skip(rest) {
            Some(skipped) => {
                proof {
                    lemma_skipped_len_bound(rest@);
                }
                self.chomp(skipped);
                true
            },
            None => false,
        }
    }

    /// Reads the token at the current position and moves past it.
    fn read_next_token(&mut self) -> (r: Result<TokenKind, ErrorKind>)
        requires
            old(self).wf(),
            old(self).pos < old(self).chars@.len(),
        ensures
            final(self).wf(),
            final(self).chars@ == old(self).chars@,
            match token_at_start(old(self).chars@.skip(old(self).pos as int)) {
                Ok((k, n)) => r matches Ok(kind) && kind@ == k && final(self).pos == old(self).pos + n,
                Err(e) => r == Err::<TokenKind, ErrorKind>(e) && final(self).pos == old(self).pos,
            },
    {
        let len = self.chars.len();
        let here = &self.chars.as_slice()[self.pos..len];
        assert(here@ =~= self.chars@.skip(self.pos as int));
        let (tok, chars_read) = match read_token(here) {
            Ok(t) => t,
            Err(e) => {
                return Err(e);
            },
        };
        proof {
            lemma_token_at_start_bound(here@);
        }
        self.chomp(chars_read);
        Ok(tok)
    }

    /// Skips whitespace and comments, then reads the next token with its
    /// byte interval.
    fn next_token(&mut self) -> (r: Step)
        requires
            old(self).wf(),
        ensures
            final(self).wf(),
            final(self).chars@ == old(self).chars@,
            match lex_step(old(self).chars@, old(self).pos as int) {
                SpecStep::Token(k, a, b) => r matches Step::Token(kind, start, end) && kind@ == k
                    && start == byte_offset(old(self).chars@, a) && end == byte_offset(
                    old(self).chars@,
                    b,
                ) && final(self).pos == b,
                SpecStep::End => r is End && final(self).pos == old(self).pos + skipped_len(
                    old(self).chars@.skip(old(self).pos as int),
                )->0,
                SpecStep::Failed(a, e) => r == Step::Failed(
                    LexError { location: byte_offset(old(self).chars@, a) as usize, kind: e },
                ) && final(self).pos == a,
                SpecStep::Unterminated => r is Unterminated && final(self).pos == old(self).pos,
            },
    {
        if !self.skip_whitespace() {
            return Step::Unterminated;
        }
        if self.pos == self.chars.len() {
            return Step::End;
        }
        let start = self.current_index;
        match self.read_next_token() {
            Ok(tok) => {
                let end = self.current_index;
                Step::Token(tok, start, end)
            },
            Err(e) => Step::Failed(LexError { location: start, kind: e }),
        }
    }
}

/// Lexes a whole source text: every token with its byte interval, or the
/// first token that cannot be read, or a comment that is never closed.
pub fn lex(src: &str) -> (r: Lexed)
    requires
        encode_utf8(src@).len() <= usize::MAX,
    ensures
        r@ == lex_source(src@),
{
    let mut tokenizer = Tokenizer::new(src);
    let ghost s = src@;
    let mut tokens: Vec<(TokenKind, usize, usize)> = Vec::new();
    let ghost mut ct: Seq<(TokenKindView, int, int)> = seq![];
    assert(prepend_tokens(ct, lex_from(s, 0)) == lex_from(s, 0)) by {
        if let SpecLex::Tokens(rest) = lex_from(s, 0) {
            assert(ct + rest =~= rest);
        }
    }
    loop
        invariant
            s == src@,
            tokenizer.wf(),
            tokenizer.chars@ == s,
            lex_from(s, 0) == prepend_tokens(ct, lex_from(s, tokenizer.pos as int)),
            tokens_view(tokens@) == tokens_in_bytes(s, ct),
        decreases s.len() - tokenizer.pos,
    {
        let ghost pos = tokenizer.pos as int;
        proof {
            lemma_lex_from_step(s, pos);
        }
        match tokenizer.next_token() {
            Step::Token(kind, start, end) => {
                let ghost t = (kind@, lex_step(s, pos)->Token_1, tokenizer.pos as int);
                let ghost old_tokens = tokens@;
                let ghost old_ct = ct;
                proof {
                    let next = lex_from(s, t.2);
                    assert(prepend_tokens(ct, lex_from(s, pos)) == prepend_tokens(ct.push(t), next)) by {
                        if let SpecLex::Tokens(r) = next {
                            assert(ct + (seq![t] + r) =~= ct.push(t) + r);
                        }
                    }
                    ct = ct.push(t);
                }
                tokens.push((kind, start, end));
                assert(tokens_view(tokens@) =~= tokens_view(old_tokens).push(
                    (t.0, start as nat, end as nat),
                ));
                assert(tokens_in_bytes(s, ct) =~= tokens_in_bytes(s, old_ct).push(
                    (t.0, start as nat, end as nat),
                ));
            },
            Step::End => {
                assert(ct + seq![] =~= ct);
                return Lexed::Tokens(tokens);
            },
            Step::Failed(e) => {
                proof {
                    lemma_byte_offset_mono(s, lex_step(s, pos)->Failed_0, s.len() as int);
                }
                return Lexed::Failed(e);
            },
            Step::Unterminated => {
                return Lexed::UnterminatedComment;
            },
        }
    }
}

/// Lexing a source text fails only at a character that starts no token or
/// at an integer literal too large for a `usize`; the byte offset reported
/// is a character boundary inside the text.
pub proof fn lemma_lex_failure(s: Seq<char>)
    ensures
        lex_source(s) matches LexOutcome::Failed(at, e) ==> {
            &&& at < encode_utf8(s).len()
            &&& is_char_boundary(encode_utf8(s), at as int)
            &&& (e is UnknownCharacter || e is IntegerOverflow)
        },
{
    lemma_lex_from_failure(s, 0);
    if let SpecLex::Failed(p, e) = lex_from(s, 0) {
        lemma_byte_offset_char_boundary(s, p);
        lemma_byte_offset_mono(s, p, p + 1);
        lemma_byte_offset_mono(s, p + 1, s.len() as int);
    }
}

/// Turns a string of Delphi code into a list of tokens, each with the
/// half-open byte interval `[start, end)` of the source it was read from.
///
/// A source text in which a brace or parenthesised comment is never
/// closed is not accepted; a line comment may end the text.
pub fn tokenize(src: &str) -> (r: Result<Vec<(TokenKind, usize, usize)>, LexError>)
    requires
        encode_utf8(src@).len() <= usize::MAX,
        !(lex_source(src@) is Unterminated),
    ensures
        match lex_source(src@) {
            LexOutcome::Tokens(ts) => r matches Ok(v) && tokens_view(v@) == ts,
            LexOutcome::Failed(at, kind) => r == Err::<Vec<(TokenKind, usize, usize)>, LexError>(
                LexError { location: at as usize, kind },
            ),
            LexOutcome::Unterminated => false,
        },
{
    match lex(src) {
        Lexed::Tokens(v) => Ok(v),
        Lexed::Failed(e) => Err(e),
        Lexed::UnterminatedComment => Err(LexError { location: 0, kind: ErrorKind::UnexpectedEOF }),
    }
}

/// Tokenizes `src` when no brace or parenthesised comment in it is left
/// open, which is what `tokenize` asks of its input; `None` when one is.
pub fn try_tokenize(src: &str) -> (r: Option<Result<Vec<(TokenKind, usize, usize)>, LexError>>)
    requires
        encode_utf8(src@).len() <= usize::MAX,
    ensures
        match lex_source(src@) {
            LexOutcome::Tokens(ts) => r matches Some(Ok(v)) && tokens_view(v@) == ts,
            LexOutcome::Failed(at, kind) => r == Some(
                Err::<Vec<(TokenKind, usize, usize)>, LexError>(LexError { location: at as usize, kind }),
            ),
            LexOutcome::Unterminated => r is None,
        },
{
    match lex(src) {
        Lexed::UnterminatedComment => None,
        _ => Some(tokenize(src)),
    }
}

/// Lexes a single token from the start of `data`, giving the number of
/// bytes it takes.
pub fn tokenize_single_token(data: &str) -> (r: Result<(TokenKind, usize), ErrorKind>)
    requires
        encode_utf8(data@).len() <= usize::MAX,
    ensures
        match token_at_start(data@) {
            Ok((kind, n)) => r matches Ok((k, bytes)) && k@ == kind && bytes == byte_offset(data@, n as int),
            Err(e) => r == Err::<(TokenKind, usize), ErrorKind>(e),
        },
{
    let chars = chars_of(data);
    let all = chars.as_slice();
    match read_token(all) {
        Ok((kind, n)) => {
            proof {
                lemma_token_at_start_bound(data@);
                assert(data@.take(0) =~= Seq::<char>::empty());
            }
            let bytes = advance_bytes(all, 0, n, 0);
            Ok((kind, bytes))
        },
        Err(e) => Err(e),
    }
}

} // verus!
