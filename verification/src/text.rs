//! Text: byte strings read as UTF-8, and lines that are safe to send back.

use crate::bytes::{append_bytes, SPACE};
use vstd::prelude::*;
use vstd::string::*;
use vstd::utf8::{decode_utf8, encode_utf8, valid_utf8};

verus! {

/// What `String::from_utf8_lossy` makes of a byte string.
pub uninterp spec fn lossy_text(bytes: Seq<u8>) -> Seq<char>;

/// Calls `String::from_utf8_lossy`.
///
/// Taken on trust: the text depends on the bytes alone; valid UTF-8 is decoded
/// unchanged; anything else is replaced by U+FFFD, so that an ASCII character
/// of the text is a byte of the input. How many replacement characters stand
/// for a malformed stretch is left unsaid.
#[verifier::external_body]
pub(crate) fn decode_lossy(bytes: &[u8]) -> (text: String)
    ensures
        text@ == lossy_text(bytes@),
        valid_utf8(bytes@) ==> text@ == decode_utf8(bytes@),
        forall|i: int|
            0 <= i < text@.len() && (#[trigger] text@[i] as u32) < 0x80 ==> bytes@.contains(
                text@[i] as u8,
            ),
{
    String::from_utf8_lossy(bytes).into_owned()
}

/// `String::push` appends one character.
pub assume_specification[ String::push ](s: &mut String, c: char)
    ensures
        final(s)@ == old(s)@.push(c),
;

/// The UTF-8 encoding of a text.
pub open spec fn utf8(text: Seq<char>) -> Seq<u8> {
    encode_utf8(text)
}

/// Appends the UTF-8 encoding of `text`.
pub fn append_text(out: &mut Vec<u8>, text: &str)
    ensures
        final(out)@ == old(out)@ + utf8(text@),
{
    append_bytes(out, text.as_bytes());
}

/// The UTF-8 encoding of `text` as an owned byte string.
pub fn text_bytes(text: &str) -> (r: Vec<u8>)
    ensures
        r@ == utf8(text@),
{
    vstd::slice::slice_to_vec(text.as_bytes())
}

/// A byte with control characters blanked out.
pub open spec fn safe_byte(b: u8) -> u8 {
    if b < SPACE {
        SPACE
    } else {
        b
    }
}

/// A byte string with control characters blanked out.
pub open spec fn safe_bytes(s: Seq<u8>) -> Seq<u8> {
    s.map_values(|b: u8| safe_byte(b))
}

/// A character with control characters blanked out.
pub open spec fn safe_char(c: char) -> char {
    if ' ' <= c {
        c
    } else {
        ' '
    }
}

/// A text with control characters blanked out.
pub open spec fn safe_chars(s: Seq<char>) -> Seq<char> {
    s.map_values(|c: char| safe_char(c))
}

/// The text on one line: no control characters, hence neither CR nor LF.
pub open spec fn is_line(s: Seq<char>) -> bool {
    forall|i: int| 0 <= i < s.len() ==> ' ' <= #[trigger] s[i]
}

proof fn lemma_wide_bytes(v: u32)
    by (bit_vector)
    ensures
        (0xC0u8 | ((v >> 6) & 0x1F) as u8) >= 0x80,
        (0xE0u8 | ((v >> 12) & 0x0F) as u8) >= 0x80,
        (0xF0u8 | ((v >> 18) & 0x7) as u8) >= 0x80,
        (0x80u8 | (v & 0x3F) as u8) >= 0x80,
        (0x80u8 | ((v >> 6) & 0x3F) as u8) >= 0x80,
        (0x80u8 | ((v >> 12) & 0x3F) as u8) >= 0x80,
{
}

proof fn lemma_narrow_byte(v: u32)
    by (bit_vector)
    requires
        v <= 0x7F,
    ensures
        (v & 0x7F) as u8 == v,
{
}

/// A character keeps its code in every integer type that can hold it.
proof fn lemma_char_code(c: char)
    ensures
        0 <= c as int <= 0x10FFFF,
        (c as u32) as int == c as int,
        (c as int) < 0x100 ==> (c as u8) as int == c as int,
        vstd::utf8::is_scalar(c as u32),
{
}

/// Blanking out control characters before encoding a text, or in its encoding,
/// comes to the same.
pub(crate) proof fn lemma_safe_encoding(s: Seq<char>)
    ensures
        utf8(safe_chars(s)) == safe_bytes(utf8(s)),
    decreases s.len(),
{
    if s.len() == 0 {
        assert(safe_chars(s) =~= s);
        assert(safe_bytes(utf8(s)) =~= utf8(s));
    } else {
        let c: char = s[0];
        let v = c as u32;
        lemma_char_code(c);
        let first = vstd::utf8::encode_scalar(v);
        let safe_first = vstd::utf8::encode_scalar(safe_char(s[0]) as u32);
        lemma_safe_encoding(s.drop_first());
        assert(safe_chars(s).drop_first() =~= safe_chars(s.drop_first()));
        assert(safe_chars(s)[0] == safe_char(s[0]));
        lemma_wide_bytes(v);
        if v <= 0x7F {
            lemma_narrow_byte(v);
            lemma_narrow_byte(32);
        }
        assert(safe_first =~= safe_bytes(first));
        assert(safe_bytes(first + utf8(s.drop_first())) =~= safe_bytes(first) + safe_bytes(
            utf8(s.drop_first()),
        ));
    }
}

/// The encoding of a text that is put together of two.
pub(crate) proof fn lemma_utf8_add(a: Seq<char>, b: Seq<char>)
    ensures
        utf8(a + b) == utf8(a) + utf8(b),
    decreases a.len(),
{
    if a.len() == 0 {
        assert(a + b =~= b);
        assert(utf8(a + b) =~= utf8(a) + utf8(b));
    } else {
        lemma_utf8_add(a.drop_first(), b);
        assert((a + b).drop_first() =~= a.drop_first() + b);
        assert(utf8(a + b) =~= utf8(a) + utf8(b));
    }
}

/// The encoding of a line holds no control characters, hence neither CR nor LF.
pub proof fn law_line_bytes(line: Seq<char>)
    requires
        is_line(line),
    ensures
        forall|i: int| 0 <= i < utf8(line).len() ==> SPACE <= #[trigger] utf8(line)[i],
{
    assert(safe_chars(line) =~= line);
    lemma_safe_encoding(line);
    assert forall|i: int| 0 <= i < utf8(line).len() implies SPACE <= #[trigger] utf8(line)[i] by {
        assert(safe_bytes(utf8(line))[i] == safe_byte(utf8(line)[i]));
    }
}

/// Makes a line out of a text.
pub fn safe_line_from_string(s: String) -> (r: String)
    ensures
        r@ == safe_chars(s@),
        is_line(r@),
{
    let line = safe_line_from_slice(s.as_str().as_bytes());
    proof {
        lemma_safe_encoding(s@);
        vstd::utf8::encode_utf8_valid_utf8(safe_chars(s@));
        vstd::utf8::encode_utf8_decode_utf8(safe_chars(s@));
    }
    line
}

/// Makes a line out of a byte string: control characters become spaces, and what
/// is not UTF-8 is replaced.
pub fn safe_line_from_slice(s: &[u8]) -> (r: String)
    ensures
        r@ == lossy_text(safe_bytes(s@)),
        valid_utf8(safe_bytes(s@)) ==> r@ == decode_utf8(safe_bytes(s@)),
        is_line(r@),
{
    let mut out: Vec<u8> = Vec::new();
    let mut i: usize = 0;
    while i < s.len()
        invariant
            i <= s.len(),
            out@ == safe_bytes(s@.take(i as int)),
        decreases s.len() - i,
    {
        if s[i] < SPACE {
            out.push(SPACE);
        } else {
            out.push(s[i]);
        }
        i = i + 1;
        assert(out@ =~= safe_bytes(s@.take(i as int)));
    }
    assert(s@.take(s@.len() as int) =~= s@);
    let line = decode_lossy(out.as_slice());
    assert(is_line(line@)) by {
        assert forall|j: int| 0 <= j < line@.len() implies ' ' <= #[trigger] line@[j] by {
            let c: char = line@[j];
            lemma_char_code(c);
            if (c as u32) < 0x80 {
                let k = out@.index_of(c as u8);
                assert(out@[k] == safe_byte(s@[k]));
            }
        }
    }
    line
}

} // verus!
