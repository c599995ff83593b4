use static_analyser::codemap::CodeMap;
use static_analyser::errors::ErrorKind;
use static_analyser::lex::{tokenize, Token, TokenKind};
use static_analyser::parse::{LiteralKind, Parser};

#[test]
fn literals_are_parsed() {
    let mut map = CodeMap::new();
    let mut fm = map.insert_file("test.pas", "12 3.5 x");
    let tokens = fm.register_tokens(tokenize("12 3.5 x").unwrap());
    let mut parser = Parser::new(tokens, fm);
    let first = parser.parse_literal().unwrap();
    assert_eq!(first.kind, LiteralKind::Integer(12));
    let second = parser.parse_literal().unwrap();
    assert_eq!(second.kind, LiteralKind::Decimal("3.5".to_string()));
    assert_eq!(parser.parse_literal().unwrap_err(), ErrorKind::ExpectedLiteral);
    let ident = parser.parse_ident().unwrap();
    assert_eq!(ident.name, "x");
    assert_eq!(parser.parse_literal().unwrap_err(), ErrorKind::UnexpectedEOF);
}

#[test]
fn quoted_strings_are_string_literals() {
    let mut map = CodeMap::new();
    let mut fm = map.insert_file("s", "'hi'");
    let span = fm.insert_span(0, 4);
    let tokens = vec![Token::new(span, TokenKind::QuotedString("hi".to_string()))];
    let mut parser = Parser::new(tokens, fm);
    let lit = parser.parse_literal().unwrap();
    assert_eq!(lit.kind, LiteralKind::String("hi".to_string()));
    assert_eq!(lit.span, span);
}

#[test]
fn identifiers_are_parsed() {
    let mut map = CodeMap::new();
    let mut fm = map.insert_file("t", "a 1");
    let toks = fm.register_tokens(tokenize("a 1").unwrap());
    let mut parser = Parser::new(toks, fm);
    let a = parser.parse_ident().unwrap();
    assert_eq!(a.name, "a");
    assert_eq!(parser.parse_ident().unwrap_err(), ErrorKind::ExpectedIdentifier);
    let one = parser.parse_literal().unwrap();
    assert_eq!(one.kind, LiteralKind::Integer(1));
    assert_eq!(parser.parse_ident().unwrap_err(), ErrorKind::ExpectedIdentifier);
}

#[test]
fn dotted_identifiers_get_a_covering_span() {
    let src = "System.SysUtils.Format + x";
    let mut map = CodeMap::new();
    let dotted_span = {
        let mut fm = map.insert_file("t", src);
        let toks = fm.register_tokens(tokenize(src).unwrap());
        let mut parser = Parser::new(toks, fm);
        let dotted = parser.parse_dotted_ident().unwrap();
        let names: Vec<&str> = dotted.parts.iter().map(|p| p.name.as_str()).collect();
        assert_eq!(names, vec!["System", "SysUtils", "Format"]);
        dotted.span
    };
    assert_eq!(map.lookup(dotted_span), "System.SysUtils.Format");
    assert_eq!(map.files()[0].range_of(dotted_span), Some(0..22));
}

#[test]
fn single_identifier_is_a_dotted_name_of_one_part() {
    let mut map = CodeMap::new();
    let mut fm = map.insert_file("t", "abc = 1");
    let toks = fm.register_tokens(tokenize("abc = 1").unwrap());
    let first_span = toks[0].span;
    let mut parser = Parser::new(toks, fm);
    let dotted = parser.parse_dotted_ident().unwrap();
    assert_eq!(dotted.parts.len(), 1);
    assert_eq!(dotted.span, first_span);
}

#[test]
fn dot_without_identifier_is_an_error() {
    let mut map = CodeMap::new();
    let mut fm = map.insert_file("t", "a.1");
    let toks = fm.register_tokens(tokenize("a.1").unwrap());
    let mut parser = Parser::new(toks, fm);
    assert_eq!(parser.parse_dotted_ident().unwrap_err(), ErrorKind::ExpectedIdentifier);
    // the parser stopped at the token after the dot
    assert_eq!(parser.parse_literal().unwrap().kind, LiteralKind::Integer(1));
}

#[test]
fn dotted_name_must_start_with_an_identifier() {
    let mut map = CodeMap::new();
    let mut fm = map.insert_file("t", ".a");
    let toks = fm.register_tokens(tokenize(".a").unwrap());
    let mut parser = Parser::new(toks, fm);
    assert_eq!(parser.parse_dotted_ident().unwrap_err(), ErrorKind::ExpectedIdentifier);
}

#[test]
fn only_the_parts_need_spans_of_the_file() {
    let mut map = CodeMap::new();
    let mut fm = map.insert_file("t", "a.b");
    let a = fm.insert_span(0, 1);
    let b = fm.insert_span(2, 3);
    let tokens = vec![
        Token::new(a, TokenKind::Identifier("a".to_string())),
        Token::from(TokenKind::Dot),
        Token::new(b, TokenKind::Identifier("b".to_string())),
    ];
    let mut parser = Parser::new(tokens, fm);
    let dotted = parser.parse_dotted_ident().unwrap();
    assert_eq!(dotted.parts.len(), 2);
    assert_eq!(map.lookup(dotted.span), "a.b");
}

#[test]
fn a_one_part_name_keeps_its_span_whatever_file_it_is_from() {
    let mut map = CodeMap::new();
    let other = map.insert_file("other", "zzz").insert_span(0, 3);
    let fm = map.insert_file("t", "abc");
    let tokens = vec![Token::new(other, TokenKind::Identifier("abc".to_string()))];
    let mut parser = Parser::new(tokens, fm);
    let dotted = parser.parse_dotted_ident().unwrap();
    assert_eq!(dotted.parts.len(), 1);
    assert_eq!(dotted.span, other);
    assert_eq!(map.lookup(dotted.span), "zzz");
    assert_eq!(map.files()[1].range_of(other), None);
}
