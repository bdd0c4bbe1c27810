//! Moving text between its three forms: raw bytes, `String`, and a vector of
//! characters. The rendering works on characters; towards its callers it
//! speaks of offsets in bytes within the UTF-8 form of the text, and this
//! module relates the two.

use vstd::prelude::*;
use vstd::string::StringSliceAdditionalSpecFns;
use vstd::utf8::{char_is_scalar, decode_utf8, encode_scalar, encode_utf8, valid_utf8};

verus! {

/// The error of [`String::from_utf8`], carried through unread.
#[verifier::external_type_specification]
#[verifier::external_body]
pub struct ExFromUtf8Error(std::string::FromUtf8Error);

/// [`String::from_utf8`] accepts exactly the byte vectors that are valid
/// UTF-8, and the string it returns holds the characters they encode.
pub assume_specification[ String::from_utf8 ](vec: Vec<u8>) -> (r: Result<
    String,
    std::string::FromUtf8Error,
>)
    ensures
        r is Ok <==> valid_utf8(vec@),
        r matches Ok(s) ==> s@ == decode_utf8(vec@),
;

/// [`String::push`] appends one character and changes nothing else.
pub assume_specification[ String::push ](s: &mut String, ch: char)
    ensures
        final(s)@ == old(s)@.push(ch),
;

/// The characters of `text`, in order. Their UTF-8 form is that of `text`,
/// so its length is one that a `usize` holds.
pub fn chars_of(text: &str) -> (out: Vec<char>)
    ensures
        out@ == text@,
        fits_in_memory(out@),
{
    broadcast use vstd::string::group_string_axioms;
    broadcast use vstd::slice::group_slice_axioms;

    let mut out: Vec<char> = Vec::with_capacity(text.as_bytes().len());
    for c in it: text.chars()
        invariant
            it.seq() == text@,
            out@ == text@.take(it.index()),
            fits_in_memory(text@),
    {
        out.push(c);
    }
    out
}

/// The string made of `chars`, in order.
pub fn string_of(chars: &[char]) -> (out: String)
    ensures
        out@ == chars@,
{
    let mut out = String::new();
    let mut i: usize = 0;
    while i < chars.len()
        invariant
            i <= chars.len(),
            out@ == chars@.take(i as int),
        decreases chars.len() - i,
    {
        out.push(chars[i]);
        i += 1;
    }
    out
}

/// The offset in bytes, within the UTF-8 form of `text`, at which the
/// character at `position` starts: the length of what is encoded before it.
pub open spec fn byte_offset(text: Seq<char>, position: int) -> nat {
    encode_utf8(text.take(position)).len()
}

/// Whether a character of `text` starts at `offset` of its UTF-8 form.
pub open spec fn is_char_start(text: Seq<char>, offset: int) -> bool {
    exists|p: int| 0 <= p < text.len() && #[trigger] byte_offset(text, p) == offset
}

/// Whether the UTF-8 form of `text` has a length that a `usize` holds, as
/// that of every string in memory does.
pub open spec fn fits_in_memory(text: Seq<char>) -> bool {
    encode_utf8(text).len() <= usize::MAX
}

/// Two texts in a row are encoded as their encodings in a row.
pub proof fn lemma_encode_concat(a: Seq<char>, b: Seq<char>)
    ensures
        encode_utf8(a + b) == encode_utf8(a) + encode_utf8(b),
    decreases a.len(),
{
    if a.len() == 0 {
        assert(a + b =~= b);
        assert(encode_utf8(a) + encode_utf8(b) =~= encode_utf8(b));
    } else {
        assert((a + b).drop_first() =~= a.drop_first() + b);
        lemma_encode_concat(a.drop_first(), b);
        assert(encode_utf8(a + b) =~= encode_utf8(a) + encode_utf8(b));
    }
}

/// The next character starts behind the bytes of this one, of which there
/// are one to four.
pub proof fn lemma_byte_offset_next(text: Seq<char>, position: int)
    requires
        0 <= position < text.len(),
    ensures
        byte_offset(text, position + 1) == byte_offset(text, position) + encode_scalar(
            text[position] as u32,
        ).len(),
        1 <= encode_scalar(text[position] as u32).len() <= 4,
{
    let one = seq![text[position]];
    assert(text.take(position + 1) =~= text.take(position) + one);
    lemma_encode_concat(text.take(position), one);
    assert(one.drop_first() =~= Seq::<char>::empty());
    reveal_with_fuel(encode_utf8, 2);
    assert(encode_utf8(one) =~= encode_scalar(text[position] as u32));
}

/// A later character starts at a greater offset.
pub proof fn lemma_byte_offset_rises(text: Seq<char>, p: int, q: int)
    requires
        0 <= p < q <= text.len(),
    ensures
        byte_offset(text, p) < byte_offset(text, q),
    decreases q - p,
{
    lemma_byte_offset_next(text, q - 1);
    if p < q - 1 {
        lemma_byte_offset_rises(text, p, q - 1);
    }
}

/// No character starts at or behind the length of the UTF-8 form.
pub proof fn lemma_byte_offset_within(text: Seq<char>, position: int)
    requires
        0 <= position <= text.len(),
    ensures
        byte_offset(text, position) <= encode_utf8(text).len(),
        position < text.len() ==> byte_offset(text, position) < encode_utf8(text).len(),
{
    assert(text.take(text.len() as int) =~= text);
    if position < text.len() {
        lemma_byte_offset_rises(text, position, text.len() as int);
    }
}

/// The number of bytes that encode `c` in UTF-8.
pub fn utf8_width(c: char) -> (width: usize)
    ensures
        width == encode_scalar(c as u32).len(),
        1 <= width <= 4,
{
    proof {
        char_is_scalar(c);
    }
    let scalar = c as u32;
    if scalar < 0x80 {
        1
    } else if scalar < 0x800 {
        2
    } else if scalar < 0x10000 {
        3
    } else {
        4
    }
}

/// The offset in bytes at which the character at `position` starts.
pub fn byte_offset_of(text: &[char], position: usize) -> (offset: usize)
    requires
        position <= text.len(),
        fits_in_memory(text@),
    ensures
        offset == byte_offset(text@, position as int),
{
    let mut offset: usize = 0;
    let mut p: usize = 0;
    assert(text@.take(0) =~= Seq::<char>::empty());
    while p < position
        invariant
            p <= position <= text.len(),
            fits_in_memory(text@),
            offset == byte_offset(text@, p as int),
        decreases position - p,
    {
        proof {
            lemma_byte_offset_next(text@, p as int);
            lemma_byte_offset_within(text@, p + 1);
        }
        offset += utf8_width(text[p]);
        p += 1;
    }
    offset
}

} // verus!
