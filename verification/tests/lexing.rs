use static_analyser::errors::{ErrorKind, LexError};
use static_analyser::lex::{lex, tokenize, tokenize_single_token, try_tokenize, Lexed, Token, TokenKind};
use static_analyser::text::is_whitespace;

fn ident(s: &str) -> TokenKind {
    TokenKind::Identifier(s.to_string())
}

#[test]
fn empty_source_has_no_tokens() {
    assert_eq!(tokenize("").unwrap(), vec![]);
    assert_eq!(tokenize("   \n\t ").unwrap(), vec![]);
}

#[test]
fn identifiers_with_byte_intervals() {
    let got = tokenize("hello world").unwrap();
    assert_eq!(got, vec![(ident("hello"), 0, 5), (ident("world"), 6, 11)]);
}

#[test]
fn numbers_and_punctuation() {
    let got = tokenize("12 3.14 x.y").unwrap();
    assert_eq!(
        got,
        vec![
            (TokenKind::Integer(12), 0, 2),
            (TokenKind::Decimal("3.14".to_string()), 3, 7),
            (ident("x"), 8, 9),
            (TokenKind::Dot, 9, 10),
            (ident("y"), 10, 11),
        ]
    );
}

#[test]
fn every_punctuation_character() {
    let got = tokenize(".=+-*/@^()[]").unwrap();
    let kinds: Vec<TokenKind> = got.into_iter().map(|(k, _, _)| k).collect();
    assert_eq!(
        kinds,
        vec![
            TokenKind::Dot,
            TokenKind::Equals,
            TokenKind::Plus,
            TokenKind::Minus,
            TokenKind::Asterisk,
            TokenKind::Slash,
            TokenKind::At,
            TokenKind::Carat,
            TokenKind::OpenParen,
            TokenKind::CloseParen,
            TokenKind::OpenSquare,
            TokenKind::CloseSquare,
        ]
    );
}

#[test]
fn comments_are_skipped() {
    assert_eq!(tokenize("a // note\nb").unwrap(), vec![(ident("a"), 0, 1), (ident("b"), 10, 11)]);
    assert_eq!(tokenize("{ x } y").unwrap(), vec![(ident("y"), 6, 7)]);
    assert_eq!(tokenize("(* z *) w").unwrap(), vec![(ident("w"), 8, 9)]);
    assert_eq!(tokenize("  {a}{b} // c\n  d").unwrap(), vec![(ident("d"), 16, 17)]);
}

#[test]
fn paren_comment_closer_is_searched_from_the_opener() {
    // The `*` of the opener also begins the closer `*)`.
    assert_eq!(tokenize("(*) q").unwrap(), vec![(ident("q"), 4, 5)]);
}

#[test]
fn unterminated_comments_are_reported() {
    assert!(matches!(lex("{ open"), Lexed::UnterminatedComment));
    assert!(matches!(lex("x (* open"), Lexed::UnterminatedComment));
    assert!(matches!(lex("x (* open *"), Lexed::UnterminatedComment));
}

#[test]
fn line_comment_may_end_the_text() {
    assert_eq!(tokenize("x // note").unwrap(), vec![(ident("x"), 0, 1)]);
    assert_eq!(tokenize("// only a comment").unwrap(), vec![]);
    assert_eq!(tokenize("a //").unwrap(), vec![(ident("a"), 0, 1)]);
    match lex("a // no newline") {
        Lexed::Tokens(v) => assert_eq!(v, vec![(ident("a"), 0, 1)]),
        other => panic!("unexpected {:?}", other),
    }
}

#[test]
fn whitespace_is_the_unicode_white_space_property() {
    for v in 0..=0x10FFFFu32 {
        if let Some(c) = char::from_u32(v) {
            assert_eq!(is_whitespace(c), c.is_whitespace(), "U+{:04X}", v);
        }
    }
    let got = tokenize("a\u{3000}b\u{85}c").unwrap();
    assert_eq!(got, vec![(ident("a"), 0, 1), (ident("b"), 4, 5), (ident("c"), 7, 8)]);
}

#[test]
fn lex_gives_the_tokens() {
    match lex("a.b") {
        Lexed::Tokens(v) => assert_eq!(v, vec![(ident("a"), 0, 1), (TokenKind::Dot, 1, 2), (ident("b"), 2, 3)]),
        other => panic!("unexpected {:?}", other),
    }
}

#[test]
fn unknown_character_is_an_error_at_its_offset() {
    assert_eq!(
        tokenize("a $").unwrap_err(),
        LexError { location: 2, kind: ErrorKind::UnknownCharacter('$') }
    );
    assert_eq!(
        tokenize("x : y").unwrap_err(),
        LexError { location: 2, kind: ErrorKind::UnknownCharacter(':') }
    );
}

#[test]
fn underscore_cannot_start_an_identifier() {
    assert_eq!(
        tokenize("_x").unwrap_err(),
        LexError { location: 0, kind: ErrorKind::UnknownCharacter('_') }
    );
    assert_eq!(tokenize("a_b1").unwrap(), vec![(ident("a_b1"), 0, 4)]);
}

#[test]
fn integer_too_large_is_an_error() {
    assert_eq!(
        tokenize("  123456789012345678901234567890").unwrap_err(),
        LexError { location: 2, kind: ErrorKind::IntegerOverflow }
    );
    let max = usize::MAX.to_string();
    assert_eq!(tokenize(&max).unwrap(), vec![(TokenKind::Integer(usize::MAX), 0, max.len())]);
}

#[test]
fn single_token_reads_one_token() {
    assert_eq!(tokenize_single_token("1.2.3").unwrap(), (TokenKind::Decimal("1.2".to_string()), 3));
    assert_eq!(tokenize_single_token("42abc").unwrap(), (TokenKind::Integer(42), 2));
    assert_eq!(tokenize_single_token("abc def").unwrap(), (ident("abc"), 3));
    assert_eq!(tokenize_single_token("7.").unwrap(), (TokenKind::Decimal("7.".to_string()), 2));
    assert_eq!(tokenize_single_token("").unwrap_err(), ErrorKind::UnexpectedEOF);
    assert_eq!(tokenize_single_token(" a").unwrap_err(), ErrorKind::UnknownCharacter(' '));
}

#[test]
fn non_ascii_identifiers_use_byte_offsets() {
    let got = tokenize("héllo wörld").unwrap();
    assert_eq!(got, vec![(ident("héllo"), 0, 6), (ident("wörld"), 7, 13)]);
    assert_eq!(tokenize_single_token("é1 x").unwrap(), (ident("é1"), 3));
}

#[test]
fn token_kind_and_token_conversions() {
    assert_eq!(TokenKind::from(7usize), TokenKind::Integer(7));
    assert_eq!(TokenKind::from("abc".to_string()), ident("abc"));
    assert_eq!(TokenKind::from("abc"), ident("abc"));
    let t = Token::from(TokenKind::Dot);
    assert_eq!(t.kind, TokenKind::Dot);
    assert_eq!(Token::from("Foo").kind, ident("Foo"));
    assert_eq!(Token::from("Foo".to_string()).kind, ident("Foo"));
    assert_eq!(Token::from(12usize).kind, TokenKind::Integer(12));
    assert_eq!(Token::from("Foo"), Token::from("Foo".to_string()));
    assert_ne!(Token::from("Foo"), Token::from("Bar"));
}

#[test]
fn lexed_tokens_are_in_order_and_read_back_as_themselves() {
    let src = "unit Foo; { c } x1 := 3.25 + 17 (* d *) // e\n y^.z[2]";
    // ':' and ';' start no token, so lex a version without them
    let src = src.replace(':', " ").replace(';', " ");
    let toks = tokenize(&src).unwrap();
    let mut last_end = 0;
    for (kind, start, end) in toks {
        assert!(last_end <= start && start < end && end <= src.len());
        let (again, len) = tokenize_single_token(&src[start..end]).unwrap();
        assert_eq!(again, kind);
        assert_eq!(len, end - start);
        match &kind {
            TokenKind::Identifier(t) | TokenKind::Decimal(t) => assert_eq!(t, &src[start..end]),
            TokenKind::Integer(n) => assert_eq!(n.to_string(), src[start..end].to_string()),
            _ => assert_eq!(end - start, 1),
        }
        last_end = end;
    }
}

#[test]
fn lexing_fails_only_on_unknown_characters_or_overflow() {
    for src in ["a ; b", "x # 1", "18446744073709551616999"] {
        let err = tokenize(src).unwrap_err();
        assert!(matches!(err.kind, ErrorKind::UnknownCharacter(_) | ErrorKind::IntegerOverflow));
        assert!(err.location < src.len() && src.is_char_boundary(err.location));
    }
}

#[test]
fn try_tokenize_tells_an_open_comment_apart() {
    assert_eq!(try_tokenize("{ open"), None);
    assert_eq!(try_tokenize("a (* open"), None);
    assert_eq!(try_tokenize("a // fine"), Some(Ok(vec![(ident("a"), 0, 1)])));
    assert_eq!(
        try_tokenize("a $"),
        Some(Err(LexError { location: 2, kind: ErrorKind::UnknownCharacter('$') }))
    );
}
