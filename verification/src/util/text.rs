//! Byte classes and UTF-8 slicing shared by the constructs.

use vstd::prelude::*;
use vstd::utf8::*;
use vstd::string::*;

verus! {

broadcast use vstd::utf8::encode_utf8_valid_utf8, vstd::utf8::is_char_boundary_start_end_of_seq,
    vstd::string::group_string_axioms;

/// ASCII letter.
pub open spec fn spec_is_ascii_alphabetic(c: u8) -> bool {
    (0x41 <= c && c <= 0x5a) || (0x61 <= c && c <= 0x7a)
}

/// ASCII digit.
pub open spec fn spec_is_ascii_digit(c: u8) -> bool {
    0x30 <= c && c <= 0x39
}

/// ASCII letter or digit.
pub open spec fn spec_is_ascii_alphanumeric(c: u8) -> bool {
    spec_is_ascii_alphabetic(c) || spec_is_ascii_digit(c)
}

/// ASCII whitespace as `u8::is_ascii_whitespace` defines it: space, tab,
/// line feed, form feed, carriage return.
pub open spec fn spec_is_ascii_whitespace(c: u8) -> bool {
    c == 0x20 || c == 0x09 || c == 0x0a || c == 0x0c || c == 0x0d
}

/// Byte of an Obsidian block id: ASCII alphanumeric, `-`, or `_`.
pub open spec fn spec_is_block_id_byte(c: u8) -> bool {
    spec_is_ascii_alphanumeric(c) || c == 0x2d || c == 0x5f
}

/// `u8::is_ascii_alphabetic`.
pub fn is_ascii_alphabetic(c: u8) -> (r: bool)
    ensures
        r == spec_is_ascii_alphabetic(c),
{
    (0x41 <= c && c <= 0x5a) || (0x61 <= c && c <= 0x7a)
}

/// `u8::is_ascii_alphanumeric`.
pub fn is_ascii_alphanumeric(c: u8) -> (r: bool)
    ensures
        r == spec_is_ascii_alphanumeric(c),
{
    is_ascii_alphabetic(c) || (0x30 <= c && c <= 0x39)
}

/// `u8::is_ascii_whitespace`.
pub fn is_ascii_whitespace(c: u8) -> (r: bool)
    ensures
        r == spec_is_ascii_whitespace(c),
{
    c == 0x20 || c == 0x09 || c == 0x0a || c == 0x0c || c == 0x0d
}

/// Whether `c` may occur in an Obsidian block id.
pub fn is_block_id_byte(c: u8) -> (r: bool)
    ensures
        r == spec_is_block_id_byte(c),
{
    is_ascii_alphanumeric(c) || c == 0x2d || c == 0x5f
}

/// Encoding a concatenation concatenates the encodings.
pub proof fn lemma_encode_utf8_concat(a: Seq<char>, b: Seq<char>)
    ensures
        encode_utf8(a + b) == encode_utf8(a) + encode_utf8(b),
    decreases a.len(),
{
    if a.len() == 0 {
        assert(a + b =~= b);
        assert(encode_utf8(a) + encode_utf8(b) =~= encode_utf8(b));
    } else {
        assert((a + b).drop_first() =~= a.drop_first() + b);
        lemma_encode_utf8_concat(a.drop_first(), b);
        assert(encode_utf8(a + b) =~= encode_utf8(a) + encode_utf8(b));
    }
}

/// The encoding of a string determines the string.
pub proof fn lemma_encode_utf8_injective(a: Seq<char>, b: Seq<char>)
    requires
        encode_utf8(a) == encode_utf8(b),
    ensures
        a == b,
{
    encode_utf8_decode_utf8(a);
    encode_utf8_decode_utf8(b);
}

/// In valid UTF-8, an index that is the end or holds an ASCII byte is a
/// character boundary.
pub proof fn lemma_ascii_boundary(bytes: Seq<u8>, index: int)
    requires
        valid_utf8(bytes),
        0 <= index <= bytes.len(),
        index == bytes.len() || bytes[index] < 0x80,
    ensures
        is_char_boundary(bytes, index),
{
    if index == bytes.len() {
        is_char_boundary_start_end_of_seq(bytes);
    } else {
        is_char_boundary_iff_not_is_continuation_byte(bytes, index);
    }
}

/// A boundary of `bytes` at or after `from` is a boundary of the suffix that
/// starts at the boundary `from`.
pub proof fn lemma_boundary_of_suffix(bytes: Seq<u8>, from: int, index: int)
    requires
        valid_utf8(bytes),
        is_char_boundary(bytes, from),
        is_char_boundary(bytes, index),
        0 <= from <= index <= bytes.len(),
    ensures
        valid_utf8(bytes.subrange(from, bytes.len() as int)),
        is_char_boundary(bytes.subrange(from, bytes.len() as int), index - from),
{
    let tail = bytes.subrange(from, bytes.len() as int);
    valid_utf8_split(bytes, from);
    if index == bytes.len() {
        is_char_boundary_start_end_of_seq(tail);
    } else {
        is_char_boundary_iff_not_is_continuation_byte(bytes, index);
        is_char_boundary_iff_not_is_continuation_byte(tail, index - from);
    }
}

/// In valid UTF-8, the index right after an ASCII byte is a character
/// boundary.
pub proof fn lemma_boundary_after_ascii(bytes: Seq<u8>, index: int)
    requires
        valid_utf8(bytes),
        0 < index <= bytes.len(),
        bytes[index - 1] < 0x80,
    ensures
        is_char_boundary(bytes, index),
{
    if index == bytes.len() {
        is_char_boundary_start_end_of_seq(bytes);
    } else {
        lemma_ascii_boundary(bytes, index - 1);
        let tail = bytes.subrange(index - 1, bytes.len() as int);
        valid_utf8_split(bytes, index - 1);
        assert(tail[0] == bytes[index - 1]);
        assert(length_of_first_scalar(tail) == 1);
        reveal_with_fuel(is_char_boundary, 2);
        assert(is_char_boundary(tail, 1));
        is_char_boundary_iff_not_is_continuation_byte(tail, 1);
        is_char_boundary_iff_not_is_continuation_byte(bytes, index);
    }
}

/// Bytes between two character boundaries are valid UTF-8.
pub proof fn lemma_valid_subrange(bytes: Seq<u8>, from: int, to: int)
    requires
        valid_utf8(bytes),
        is_char_boundary(bytes, from),
        is_char_boundary(bytes, to),
        0 <= from <= to <= bytes.len(),
    ensures
        valid_utf8(bytes.subrange(from, to)),
{
    lemma_boundary_of_suffix(bytes, from, to);
    let tail = bytes.subrange(from, bytes.len() as int);
    valid_utf8_split(tail, to - from);
    assert(tail.subrange(0, to - from) =~= bytes.subrange(from, to));
}

/// The bytes `from..to` of `s`, both character boundaries.
pub fn substring(s: &str, from: usize, to: usize) -> (r: &str)
    requires
        from <= to <= s.spec_bytes().len(),
        is_char_boundary(s.spec_bytes(), from as int),
        is_char_boundary(s.spec_bytes(), to as int),
    ensures
        r.spec_bytes() == s.spec_bytes().subrange(from as int, to as int),
{
    let (_, tail) = s.split_at(from);
    proof {
        lemma_boundary_of_suffix(s.spec_bytes(), from as int, to as int);
    }
    let (middle, _) = tail.split_at(to - from);
    assert(middle.spec_bytes() =~= s.spec_bytes().subrange(from as int, to as int));
    middle
}

/// The bytes `from..to` of `s` as an owned string.
pub fn substring_owned(s: &str, from: usize, to: usize) -> (r: String)
    requires
        from <= to <= s.spec_bytes().len(),
        is_char_boundary(s.spec_bytes(), from as int),
        is_char_boundary(s.spec_bytes(), to as int),
    ensures
        encode_utf8(r@) == s.spec_bytes().subrange(from as int, to as int),
{
    substring(s, from, to).to_owned()
}

/// `String::push`: appends one character.
#[verifier::external_body]
pub(crate) fn push_char(s: &mut String, c: char)
    ensures
        final(s)@ == old(s)@.push(c),
{
    s.push(c);
}

/// The characters of `s`.
pub fn chars_of(s: &str) -> (r: Vec<char>)
    ensures
        r@ == s@,
{
    let mut r: Vec<char> = Vec::new();
    for c in iter: s.chars()
        invariant
            iter.seq() == s@,
            r@ == s@.take(iter.index() as int),
    {
        r.push(c);
        proof {
            assert(s@.take(iter.index() + 1) =~= r@);
        }
    }
    proof {
        assert(s@.take(s@.len() as int) =~= s@);
    }
    r
}

/// The characters `from..to` of `chars` as a string.
pub fn string_of(chars: &Vec<char>, from: usize, to: usize) -> (r: String)
    requires
        from <= to <= chars@.len(),
    ensures
        r@ == chars@.subrange(from as int, to as int),
{
    let mut r = String::new();
    let mut i = from;
    while i < to
        invariant
            from <= i <= to <= chars@.len(),
            r@ == chars@.subrange(from as int, i as int),
        decreases to - i,
    {
        push_char(&mut r, chars[i]);
        proof {
            assert(r@ =~= chars@.subrange(from as int, i + 1));
        }
        i += 1;
    }
    r
}

/// The text of `format!("{:?}", value)` for an optional string `value`.
pub uninterp spec fn option_debug_text(value: Option<Seq<char>>) -> Seq<char>;

/// `Debug` formatting of an optional string, as `format!("{:?}", ..)` gives it;
/// `None` prints as `None`.
#[verifier::external_body]
pub(crate) fn option_debug(value: &Option<String>) -> (r: String)
    ensures
        r@ == option_debug_text(match value {
            Some(s) => Some(s@),
            None => None,
        }),
        value is None ==> r@ == "None"@,
{
    format!("{:?}", value)
}

} // verus!
