use static_analyser::codemap::CodeMap;
use static_analyser::lex::{tokenize, Token, TokenKind};
use static_analyser::text::str_get;
use static_analyser::Driver;

#[test]
fn new_codemap_is_empty() {
    let map = CodeMap::new();
    assert_eq!(map.files().len(), 0);
    let map = CodeMap::default();
    assert_eq!(map.files().len(), 0);
}

#[test]
fn insert_file_keeps_name_and_contents() {
    let mut map = CodeMap::new();
    {
        let mut fm = map.insert_file("main.pas", "program Hello;");
        assert_eq!(fm.filename(), "main.pas");
        assert_eq!(fm.contents(), "program Hello;");
    }
    map.insert_file("other.pas", "x");
    assert_eq!(map.files().len(), 2);
    assert_eq!(map.files()[0].filename(), "main.pas");
    assert_eq!(map.files()[1].contents(), "x");
}

#[test]
fn insert_span_then_lookup_gives_the_text() {
    let mut map = CodeMap::new();
    let mut fm = map.insert_file("a", "hello world");
    let span = fm.insert_span(6, 11);
    assert_eq!(fm.lookup(span), Some("world"));
    assert_eq!(fm.range_of(span), Some(6..11));
}

#[test]
fn inserting_the_same_range_twice_gives_the_same_span() {
    let mut map = CodeMap::new();
    let mut fm = map.insert_file("a", "hello world");
    let first = fm.insert_span(0, 5);
    let other = fm.insert_span(6, 11);
    let again = fm.insert_span(0, 5);
    assert_eq!(first, again);
    assert_ne!(first, other);
}

#[test]
fn spans_of_another_file_are_not_found() {
    let mut map = CodeMap::new();
    let a_span = {
        let mut a = map.insert_file("a", "abc");
        a.insert_span(0, 1)
    };
    let mut b = map.insert_file("b", "xyz");
    assert_eq!(b.lookup(a_span), None);
    assert_eq!(b.range_of(a_span), None);
    let b_span = b.insert_span(1, 3);
    assert_eq!(map.lookup(a_span), "a");
    assert_eq!(map.lookup(b_span), "yz");
}

#[test]
fn merge_covers_both_spans() {
    let mut map = CodeMap::new();
    let mut fm = map.insert_file("a", "one two three");
    let one = fm.insert_span(0, 3);
    let three = fm.insert_span(8, 13);
    let both = fm.merge(three, one);
    assert_eq!(fm.range_of(both), Some(0..13));
    assert_eq!(fm.lookup(both), Some("one two three"));
    let same = fm.merge(one, three);
    assert_eq!(same, both);
    let inner = fm.insert_span(4, 7);
    assert_eq!(fm.merge(one, inner), fm.insert_span(0, 7));
}

#[test]
fn register_tokens_gives_spans_of_their_text() {
    let src = "alpha.beta 42";
    let mut map = CodeMap::new();
    let mut fm = map.insert_file("a", src);
    let toks = tokenize(src).unwrap();
    let registered = fm.register_tokens(toks);
    assert_eq!(registered.len(), 4);
    assert_eq!(registered[0].kind, TokenKind::Identifier("alpha".to_string()));
    assert_eq!(fm.lookup(registered[0].span), Some("alpha"));
    assert_eq!(fm.lookup(registered[1].span), Some("."));
    assert_eq!(fm.lookup(registered[2].span), Some("beta"));
    assert_eq!(registered[3].kind, TokenKind::Integer(42));
    assert_eq!(fm.range_of(registered[3].span), Some(11..13));
}

#[test]
fn multibyte_text_is_looked_up_by_byte_range() {
    let mut map = CodeMap::new();
    let mut fm = map.insert_file("u", "héllo");
    let span = fm.insert_span(1, 3);
    assert_eq!(fm.lookup(span), Some("é"));
}

#[test]
fn driver_owns_a_codemap() {
    let mut driver = Driver::new();
    assert_eq!(driver.codemap().files().len(), 0);
    driver.codemap().insert_file("f", "text");
    assert_eq!(driver.codemap().files().len(), 1);
    let mut other = Driver::default();
    assert_eq!(other.codemap().files().len(), 0);
}

#[test]
fn dummy_span_matches_any_span() {
    let mut map = CodeMap::new();
    let mut fm = map.insert_file("a", "hello world");
    let issued = fm.insert_span(0, 5);
    let other = fm.insert_span(6, 11);
    let dummy = Token::from(TokenKind::Dot).span;
    assert_eq!(dummy, issued);
    assert_eq!(issued, dummy);
    assert_eq!(dummy, other);
    assert_ne!(issued, other);
    let real = Token::new(issued, TokenKind::Identifier("hello".to_string()));
    assert_eq!(Token::from("hello"), real);
    assert_eq!(real, Token::from("hello"));
    assert_ne!(Token::from("world"), real);
}

#[test]
fn an_earlier_file_can_still_issue_spans() {
    let mut map = CodeMap::new();
    map.insert_file("a", "first");
    map.insert_file("b", "second");
    let span = map.file_mut(0).insert_span(1, 3);
    assert_eq!(map.files()[0].lookup(span), Some("ir"));
    assert_eq!(map.files()[1].lookup(span), None);
    assert_eq!(map.lookup(span), "ir");
    let later = map.file_mut(1).insert_span(0, 6);
    assert_eq!(map.lookup(later), "second");
}

#[test]
fn merging_is_commutative_and_idempotent() {
    let mut map = CodeMap::new();
    let mut fm = map.insert_file("a", "one two three");
    let one = fm.insert_span(0, 3);
    let two = fm.insert_span(4, 7);
    let three = fm.insert_span(8, 13);
    assert_eq!(fm.merge(one, one), one);
    assert_eq!(fm.merge(one, two), fm.merge(two, one));
    let left = {
        let ab = fm.merge(one, two);
        fm.merge(ab, three)
    };
    let right = {
        let bc = fm.merge(two, three);
        fm.merge(one, bc)
    };
    assert_eq!(left, right);
    let all = fm.insert_span(0, 13);
    assert_eq!(fm.merge(all, two), all);
    assert_eq!(fm.range_of(left), Some(0..13));
}

#[test]
fn equal_intervals_give_equal_spans_when_registering() {
    let src = "x x";
    let mut map = CodeMap::new();
    let mut fm = map.insert_file("a", src);
    let toks = tokenize(src).unwrap();
    let first = fm.register_tokens(toks.clone());
    let again = fm.register_tokens(toks);
    assert_eq!(first[0].span, again[0].span);
    assert_eq!(first[1].span, again[1].span);
    assert_ne!(first[0].span, first[1].span);
    assert_eq!(fm.insert_span(2, 3), first[1].span);
}

#[test]
fn substrings_by_byte_range() {
    let s = "h\u{e9}llo";
    assert_eq!(str_get(s, 1, 3), Some("\u{e9}"));
    assert_eq!(str_get(s, 1, 2), None);
    assert_eq!(str_get(s, 3, 1), None);
    assert_eq!(str_get(s, 0, 10), None);
    assert_eq!(str_get(s, 6, 6), Some(""));
    assert_eq!(str_get(s, 0, 6), Some(s));
    assert_eq!(str_get(s, 3, 6), Some("llo"));
}

#[test]
fn spans_are_unique_across_the_files_of_a_codemap() {
    let mut map = CodeMap::new();
    let a = map.insert_file("a", "abc").insert_span(0, 1);
    let b = map.insert_file("b", "xyz").insert_span(0, 1);
    assert_ne!(a, b);
    assert_eq!(map.lookup(a), "a");
    assert_eq!(map.lookup(b), "x");
    assert_eq!(map.files()[0].range_of(b), None);
    assert_eq!(map.files()[1].range_of(a), None);
    let copy = map.files()[0].clone();
    assert_eq!(copy.lookup(a), Some("a"));
    assert_eq!(copy.lookup(b), None);
}
