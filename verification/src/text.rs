//! Characters and their UTF-8 encoding: the classification of characters
//! that the lexer relies on, and the correspondence between character
//! positions and byte offsets in a string.

use vstd::prelude::*;
use vstd::utf8::*;

verus! {

broadcast use vstd::seq::group_seq_axioms;

/// Whether a character has the Unicode `White_Space` property: the
/// control characters tab to carriage return, the space, next line, the
/// no-break space, the Ogham space mark, the en quad to the hair space,
/// the line and paragraph separators, the narrow no-break space, the
/// medium mathematical space and the ideographic space.
pub open spec fn char_is_whitespace(c: char) -> bool {
    let v = c as u32;
    ||| 0x09 <= v <= 0x0D
    ||| v == 0x20
    ||| v == 0x85
    ||| v == 0xA0
    ||| v == 0x1680
    ||| 0x2000 <= v <= 0x200A
    ||| v == 0x2028
    ||| v == 0x2029
    ||| v == 0x202F
    ||| v == 0x205F
    ||| v == 0x3000
}

/// Whether a character has the Unicode `Alphabetic` property.
pub uninterp spec fn char_is_alphabetic(c: char) -> bool;

/// Whether a character is numeric in the sense of the Unicode general
/// categories `Nd`, `Nl` and `No`.
pub uninterp spec fn char_is_numeric(c: char) -> bool;

/// Whether `c` has the Unicode `White_Space` property, as
/// `char::is_whitespace` tells.
pub fn is_whitespace(c: char) -> (r: bool)
    ensures
        r == char_is_whitespace(c),
{
    let v = c as u32;
    (0x09 <= v && v <= 0x0D) || v == 0x20 || v == 0x85 || v == 0xA0 || v == 0x1680 || (0x2000 <= v
        && v <= 0x200A) || v == 0x2028 || v == 0x2029 || v == 0x202F || v == 0x205F || v == 0x3000
}

/// `char::is_alphabetic`: the result is whether `c` has the `Alphabetic`
/// property, which the contract names without spelling out the table.
#[verifier::external_body]
pub(crate) fn is_alphabetic(c: char) -> (r: bool)
    ensures
        r == char_is_alphabetic(c),
{
    c.is_alphabetic()
}

/// `char::is_alphanumeric`: documented as `is_alphabetic() || is_numeric()`,
/// which is what the contract states.
#[verifier::external_body]
pub(crate) fn is_alphanumeric(c: char) -> (r: bool)
    ensures
        r == (char_is_alphabetic(c) || char_is_numeric(c)),
{
    c.is_alphanumeric()
}

/// Collects characters into a `String` (`FromIterator<char>`): the
/// string holds exactly those characters, in order.
#[verifier::external_body]
pub(crate) fn string_from_chars(cs: &[char]) -> (r: String)
    ensures
        r@ == cs@,
{
    cs.iter().collect()
}

/// The characters of a string, in order.
pub fn chars_of(s: &str) -> (v: Vec<char>)
    ensures
        v@ == s@,
{
    broadcast use vstd::string::group_string_axioms;

    let mut v: Vec<char> = Vec::new();
    for c in it: s.chars()
        invariant
            v@ == it.seq().take(it.index() as int),
    {
        v.push(c);
    }
    v
}

/// The substring between two byte offsets, as `str::get` with a byte range
/// gives it: there is one when the range is in order, ends within the
/// string and both ends lie on character boundaries.
pub fn str_get(s: &str, start: usize, end: usize) -> (r: Option<&str>)
    ensures
        r is Some <==> (start <= end <= encode_utf8(s@).len() && is_char_boundary(
            encode_utf8(s@),
            start as int,
        ) && is_char_boundary(encode_utf8(s@), end as int)),
        r matches Some(t) ==> encode_utf8(t@) == encode_utf8(s@).subrange(start as int, end as int),
{
    let ghost bytes = encode_utf8(s@);
    proof {
        encode_utf8_valid_utf8(s@);
    }
    if start > end {
        return None;
    }
    if !s.is_char_boundary(start) || !s.is_char_boundary(end) {
        return None;
    }
    proof {
        assert(end <= bytes.len());
        valid_utf8_split(bytes, start as int);
    }
    let (_, tail) = s.split_at(start);
    let ghost rest = bytes.subrange(start as int, bytes.len() as int);
    assert(encode_utf8(tail@) == rest);
    proof {
        let k = (end - start) as int;
        if k == rest.len() {
            is_char_boundary_start_end_of_seq(rest);
        } else if k > 0 {
            is_char_boundary_iff_not_is_continuation_byte(bytes, end as int);
            is_char_boundary_iff_not_is_continuation_byte(rest, k);
            assert(rest[k] == bytes[end as int]);
        }
    }
    let (mid, _) = tail.split_at(end - start);
    assert(encode_utf8(mid@) =~= bytes.subrange(start as int, end as int));
    Some(mid)
}

/// An ASCII decimal digit, which is what `char::is_digit(10)` accepts.
pub open spec fn is_decimal_digit(c: char) -> bool {
    '0' <= c && c <= '9'
}

/// The number of bytes in the UTF-8 encoding of `c`.
pub open spec fn char_width(c: char) -> nat {
    encode_scalar(c as u32).len()
}

/// The byte offset at which the character with index `i` of `s` starts.
pub open spec fn byte_offset(s: Seq<char>, i: int) -> nat {
    encode_utf8(s.take(i)).len()
}

/// The number of bytes in the UTF-8 encoding of `c` (`char::len_utf8`).
pub fn len_utf8(c: char) -> (n: usize)
    ensures
        n == char_width(c),
        1 <= n <= 4,
{
    let v = c as u32;
    proof {
        char_is_scalar(c);
    }
    if v < 0x80 {
        1
    } else if v < 0x800 {
        2
    } else if v < 0x10000 {
        3
    } else {
        4
    }
}

/// The byte offset of character `to`, given that of character `from`.
pub fn advance_bytes(chars: &[char], from: usize, to: usize, start: usize) -> (b: usize)
    requires
        from <= to <= chars@.len(),
        start == byte_offset(chars@, from as int),
        encode_utf8(chars@).len() <= usize::MAX,
    ensures
        b == byte_offset(chars@, to as int),
{
    let mut i = from;
    let mut b = start;
    while i < to
        invariant
            from <= i <= to <= chars@.len(),
            b == byte_offset(chars@, i as int),
            encode_utf8(chars@).len() <= usize::MAX,
        decreases to - i,
    {
        proof {
            lemma_byte_offset_step(chars@, i as int);
            lemma_byte_offset_mono(chars@, i + 1, chars@.len() as int);
        }
        b = b + len_utf8(chars[i]);
        i = i + 1;
    }
    b
}

/// Encoding a concatenation encodes each part in turn.
pub proof fn lemma_encode_utf8_concat(a: Seq<char>, b: Seq<char>)
    ensures
        encode_utf8(a + b) == encode_utf8(a) + encode_utf8(b),
    decreases a.len(),
{
    if a.len() == 0 {
        assert(a + b =~= b);
    } else {
        lemma_encode_utf8_concat(a.drop_first(), b);
        assert((a + b).drop_first() =~= a.drop_first() + b);
        assert(encode_utf8(a + b) =~= encode_utf8(a) + encode_utf8(b));
    }
}

/// Each character is encoded in between one and four bytes.
pub proof fn lemma_char_width(c: char)
    ensures
        1 <= char_width(c) <= 4,
{
    char_is_scalar(c);
}

/// The byte offset of the next character adds the width of this one.
pub proof fn lemma_byte_offset_step(s: Seq<char>, i: int)
    requires
        0 <= i < s.len(),
    ensures
        byte_offset(s, i + 1) == byte_offset(s, i) + char_width(s[i]),
{
    assert(s.take(i + 1) =~= s.take(i) + seq![s[i]]);
    lemma_encode_utf8_concat(s.take(i), seq![s[i]]);
    lemma_encode_utf8_single(s[i]);
}

/// A single character is encoded as its scalar.
pub proof fn lemma_encode_utf8_single(c: char)
    ensures
        encode_utf8(seq![c]) == encode_scalar(c as u32),
{
    assert(seq![c].drop_first() =~= Seq::<char>::empty());
    assert(encode_utf8(Seq::<char>::empty()) =~= Seq::<u8>::empty());
    assert(encode_utf8(seq![c]) =~= encode_scalar(c as u32));
}

/// Byte offsets grow with the character index, and the offset of the end
/// is the length of the whole encoding.
pub proof fn lemma_byte_offset_mono(s: Seq<char>, i: int, j: int)
    requires
        0 <= i <= j <= s.len(),
    ensures
        byte_offset(s, i) <= byte_offset(s, j) <= encode_utf8(s).len(),
        byte_offset(s, j) - byte_offset(s, i) >= j - i,
    decreases s.len() - i,
{
    if i < s.len() {
        lemma_byte_offset_step(s, i);
        lemma_char_width(s[i]);
        lemma_byte_offset_mono(s, i + 1, if j > i { j } else { i + 1 });
        if j == i {
            lemma_byte_offset_mono(s, i + 1, s.len() as int);
        }
    } else {
        assert(s.take(i) =~= s);
    }
}

/// The bytes between two character positions encode the characters
/// between them.
pub proof fn lemma_byte_offset_subrange(s: Seq<char>, i: int, j: int)
    requires
        0 <= i <= j <= s.len(),
    ensures
        encode_utf8(s).subrange(byte_offset(s, i) as int, byte_offset(s, j) as int)
            == encode_utf8(s.subrange(i, j)),
{
    assert(s =~= s.take(i) + s.subrange(i, j) + s.skip(j));
    lemma_encode_utf8_concat(s.take(i), s.subrange(i, j));
    lemma_encode_utf8_concat(s.take(i) + s.subrange(i, j), s.skip(j));
    assert(s.take(j) =~= s.take(i) + s.subrange(i, j));
    assert(encode_utf8(s).subrange(byte_offset(s, i) as int, byte_offset(s, j) as int)
        =~= encode_utf8(s.subrange(i, j)));
}

/// Moving past `n` characters from character `p` moves the byte offset by
/// the bytes of those characters, and what remains of the text in bytes is
/// the encoding of what remains in characters.
pub proof fn lemma_byte_offset_advance(s: Seq<char>, p: int, n: int)
    requires
        0 <= p,
        0 <= n,
        p + n <= s.len(),
    ensures
        byte_offset(s, p + n) == byte_offset(s, p) + encode_utf8(s.subrange(p, p + n)).len(),
        encode_utf8(s).skip(byte_offset(s, p + n) as int) == encode_utf8(s.skip(p + n)),
{
    lemma_byte_offset_mono(s, p, p + n);
    lemma_byte_offset_subrange(s, p, p + n);
    lemma_byte_offset_mono(s, p + n, s.len() as int);
    lemma_byte_offset_subrange(s, p + n, s.len() as int);
    assert(s.take(s.len() as int) =~= s);
    assert(s.subrange(p + n, s.len() as int) =~= s.skip(p + n));
    assert(encode_utf8(s).skip(byte_offset(s, p + n) as int) =~= encode_utf8(s).subrange(
        byte_offset(s, p + n) as int,
        byte_offset(s, s.len() as int) as int,
    ));
}

/// Every character position is a character boundary of the encoding.
pub proof fn lemma_byte_offset_char_boundary(s: Seq<char>, i: int)
    requires
        0 <= i <= s.len(),
    ensures
        is_char_boundary(encode_utf8(s), byte_offset(s, i) as int),
    decreases s.len(),
{
    broadcast use encode_utf8_valid_utf8;

    if i == 0 {
        assert(s.take(0) =~= Seq::<char>::empty());
    } else {
        let bytes = encode_utf8(s);
        let rest = s.drop_first();
        encode_utf8_first_scalar(s);
        assert(pop_first_scalar(bytes) =~= encode_utf8(rest));
        lemma_byte_offset_char_boundary(rest, i - 1);
        assert(s.take(i) =~= seq![s[0]] + rest.take(i - 1));
        lemma_encode_utf8_concat(seq![s[0]], rest.take(i - 1));
        lemma_encode_utf8_single(s[0]);
        lemma_char_width(s[0]);
        lemma_byte_offset_mono(s, i, s.len() as int);
        assert(byte_offset(s, i) == char_width(s[0]) + byte_offset(rest, i - 1));
        assert(length_of_first_scalar(bytes) == char_width(s[0]));
        assert(byte_offset(s, i) > 0);
        assert(is_char_boundary(pop_first_scalar(bytes), byte_offset(s, i) - length_of_first_scalar(bytes)));
    }
}

} // verus!
