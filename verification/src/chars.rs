//! Character classification and UTF-8 byte positions.
//!
//! The parser walks the source as a sequence of characters, while [`crate::Offset`]
//! and [`crate::Span`] count bytes.  The functions here connect the two views:
//! every character position has a byte position, the length of the UTF-8
//! encoding of the characters before it.
use vstd::prelude::*;
use vstd::utf8::encode_scalar;
use vstd::utf8::encode_utf8;

verus! {

/// The number of bytes in the UTF-8 encoding of `c`.
pub open spec fn char_bytes(c: char) -> int {
    encode_scalar(c as u32).len() as int
}

/// The byte position of character index `i` of `s`: the length of the UTF-8
/// encoding of the characters before it.
pub open spec fn byte_of(s: Seq<char>, i: int) -> int {
    encode_utf8(s.take(i)).len() as int
}

/// The number of newline characters in `s`.
pub open spec fn count_nl(s: Seq<char>) -> int
    decreases s.len(),
{
    if s.len() <= 0 {
        0
    } else {
        count_nl(s.drop_last()) + if s.last() == '\n' {
            1int
        } else {
            0int
        }
    }
}

/// The 1-based line number of character position `i` of `s`.
pub open spec fn line_of(s: Seq<char>, i: int) -> int {
    1 + count_nl(s.take(i))
}

/// True for the characters with the Unicode `White_Space` property, the
/// characters `char::is_whitespace` accepts.
pub open spec fn is_ws_char(c: char) -> bool {
    let u = c as u32;
    u == 0x20 || (0x09 <= u && u <= 0x0D) || u == 0x85 || u == 0xA0 || u == 0x1680 || (0x2000
        <= u && u <= 0x200A) || u == 0x2028 || u == 0x2029 || u == 0x202F || u == 0x205F || u
        == 0x3000
}

/// True for characters that cannot be part of a word or number token:
/// whitespace, the comment and directive markers, and the group delimiters.
pub open spec fn is_structure(c: char) -> bool {
    is_ws_char(c) || c == ';' || c == ':' || c == '(' || c == ')' || c == '[' || c == ']' || c
        == '{' || c == '}'
}

/// True for the ASCII decimal digits.
pub open spec fn is_digit(c: char) -> bool {
    '0' <= c && c <= '9'
}

/// Decides [`is_ws_char`], the Unicode `White_Space` property.
pub fn is_whitespace_char(c: char) -> (r: bool)
    ensures
        r == is_ws_char(c),
{
    let u = c as u32;
    u == 0x20 || (0x09 <= u && u <= 0x0D) || u == 0x85 || u == 0xA0 || u == 0x1680 || (0x2000 <= u
        && u <= 0x200A) || u == 0x2028 || u == 0x2029 || u == 0x202F || u == 0x205F || u == 0x3000
}

/// Decides [`is_structure`].
pub fn is_structure_char(c: char) -> (r: bool)
    ensures
        r == is_structure(c),
{
    is_whitespace_char(c) || c == ';' || c == ':' || c == '(' || c == ')' || c == '[' || c == ']'
        || c == '{' || c == '}'
}

/// Decides [`is_digit`].
pub fn is_digit_char(c: char) -> (r: bool)
    ensures
        r == is_digit(c),
{
    let u = c as u32;
    0x30 <= u && u <= 0x39
}

/// Computes [`char_bytes`], the UTF-8 width of a character.
pub fn char_byte_len(c: char) -> (n: usize)
    ensures
        n == char_bytes(c),
        1 <= n <= 4,
{
    let u = c as u32;
    if u < 0x80 {
        1
    } else if u < 0x800 {
        2
    } else if u < 0x10000 {
        3
    } else {
        4
    }
}

/// Relies on `str::len`: the byte length of a string slice.  A Rust
/// allocation never exceeds `isize::MAX` bytes, so the length fits.
#[verifier::external_body]
pub fn byte_len(s: &str) -> (n: usize)
    ensures
        n as int == encode_utf8(s@).len(),
        n <= isize::MAX as usize,
{
    s.len()
}

/// Relies on `String`'s `FromIterator<char>`: collecting characters builds
/// the string of exactly those characters in order.
#[verifier::external_body]
pub fn string_from_chars(v: &Vec<char>) -> (r: String)
    ensures
        r@ == v@,
{
    v.iter().collect()
}

/// Every character occupies between one and four bytes.
pub proof fn lemma_char_bytes_bounds(c: char)
    ensures
        1 <= char_bytes(c) <= 4,
{
}

/// Encoding a sequence extended by one character appends that character's
/// encoding.
pub proof fn lemma_encode_push(s: Seq<char>, c: char)
    ensures
        encode_utf8(s.push(c)) == encode_utf8(s) + encode_scalar(c as u32),
    decreases s.len(),
{
    if s.len() == 0 {
        let t = s.push(c);
        assert(t[0] == c);
        assert(t.drop_first() =~= Seq::<char>::empty());
        assert(encode_utf8(t) == encode_scalar(c as u32) + encode_utf8(Seq::<char>::empty()));
        assert(encode_utf8(t) =~= encode_scalar(c as u32));
        assert(encode_utf8(s) + encode_scalar(c as u32) =~= encode_scalar(c as u32));
    } else {
        lemma_encode_push(s.drop_first(), c);
        assert(s.push(c).drop_first() =~= s.drop_first().push(c));
        assert(encode_utf8(s.push(c)) == encode_scalar(s[0] as u32) + encode_utf8(
            s.drop_first().push(c),
        ));
        assert(encode_utf8(s.push(c)) =~= encode_utf8(s) + encode_scalar(c as u32));
    }
}

/// The byte position of character index 0 is 0.
pub proof fn lemma_byte_of_zero(s: Seq<char>)
    ensures
        byte_of(s, 0) == 0,
{
    assert(s.take(0) =~= Seq::<char>::empty());
}

/// Advancing one character advances the byte position by that character's
/// width.
pub proof fn lemma_byte_of_step(s: Seq<char>, i: int)
    requires
        0 <= i < s.len(),
    ensures
        byte_of(s, i + 1) == byte_of(s, i) + char_bytes(s[i]),
{
    assert(s.take(i + 1) =~= s.take(i).push(s[i]));
    lemma_encode_push(s.take(i), s[i]);
}

/// Byte positions are strictly increasing in the character position.
pub proof fn lemma_byte_of_mono(s: Seq<char>, i: int, j: int)
    requires
        0 <= i <= j <= s.len(),
    ensures
        byte_of(s, i) <= byte_of(s, j),
        i < j ==> byte_of(s, i) + (j - i) <= byte_of(s, j),
    decreases j - i,
{
    if i < j {
        lemma_byte_of_mono(s, i, j - 1);
        lemma_byte_of_step(s, j - 1);
        lemma_char_bytes_bounds(s[j - 1]);
    }
}

/// Counting newlines in a sequence extended by one character.
pub proof fn lemma_count_nl_push(s: Seq<char>, c: char)
    ensures
        count_nl(s.push(c)) == count_nl(s) + if c == '\n' {
            1int
        } else {
            0int
        },
{
    assert(s.push(c).drop_last() =~= s);
    assert(s.push(c).last() == c);
}

/// Advancing one character advances the line number when that character is a
/// newline.
pub proof fn lemma_line_of_step(s: Seq<char>, i: int)
    requires
        0 <= i < s.len(),
    ensures
        line_of(s, i + 1) == line_of(s, i) + if s[i] == '\n' {
            1int
        } else {
            0int
        },
{
    assert(s.take(i + 1) =~= s.take(i).push(s[i]));
    lemma_count_nl_push(s.take(i), s[i]);
}

/// Newline counts, and so line numbers, never decrease along the source.
pub proof fn lemma_line_of_mono(s: Seq<char>, i: int, j: int)
    requires
        0 <= i <= j <= s.len(),
    ensures
        line_of(s, i) <= line_of(s, j),
        line_of(s, j) <= line_of(s, i) + (j - i),
    decreases j - i,
{
    if i < j {
        lemma_line_of_mono(s, i, j - 1);
        lemma_line_of_step(s, j - 1);
    }
}

/// The byte position of the end of `s` is the length of its whole encoding,
/// and the character count never exceeds it.
pub proof fn lemma_byte_of_full(s: Seq<char>)
    ensures
        byte_of(s, s.len() as int) == encode_utf8(s).len(),
        s.len() <= encode_utf8(s).len(),
{
    assert(s.take(s.len() as int) =~= s);
    lemma_byte_of_zero(s);
    lemma_byte_of_mono(s, 0, s.len() as int);
}

/// Newline counts are bounded by the length.
pub proof fn lemma_count_nl_bound(s: Seq<char>)
    ensures
        0 <= count_nl(s) <= s.len(),
    decreases s.len(),
{
    if s.len() > 0 {
        lemma_count_nl_bound(s.drop_last());
    }
}

} // verus!
