//! UTF-8 text as the tokenizer sees it: characters are encoded and put together
//! into text runs.

use vstd::prelude::*;
use vstd::utf8::{
    char_is_scalar, codepoint_width_2, codepoint_width_3, codepoint_width_4, decode_first_codepoint,
    encode_scalar, encode_utf8, length_of_first_scalar, pop_first_scalar, valid_first_scalar,
    valid_utf8,
};

use crate::bytes::{c1_byte, continuation_byte, control_byte};
use crate::utf8_model::{char_front, in_char, no_control, no_raw_c1, textual, whole_char};

verus! {

/// A control character of ASCII.
pub open spec fn control_char(c: char) -> bool {
    c < '\u{20}' || c == '\u{7F}'
}

/// Encoding goes character by character.
pub proof fn lemma_encode_concat(a: Seq<char>, b: Seq<char>)
    ensures
        encode_utf8(a + b) == encode_utf8(a) + encode_utf8(b),
    decreases a.len(),
{
    if a.len() == 0 {
        assert(a + b =~= b);
        assert(encode_utf8(a) + encode_utf8(b) =~= encode_utf8(b));
    } else {
        assert((a + b).drop_first() =~= a.drop_first() + b);
        lemma_encode_concat(a.drop_first(), b);
        let first = encode_scalar(a[0] as u32);
        assert(first + encode_utf8(a.drop_first()) + encode_utf8(b) =~= first + (encode_utf8(
            a.drop_first(),
        ) + encode_utf8(b)));
    }
}

proof fn lemma_char_plain(c: char)
    requires
        !control_char(c),
    ensures
        no_control(encode_scalar(c as u32)),
{
    char_is_scalar(c);
    let v = c as u32;
    assert(v >= 0x20 && v != 0x7F);
    assert(v <= 0x7F ==> (v & 0x7F) as u8 == v) by (bit_vector);
    assert(0xC0 | ((v >> 6) & 0x1F) as u8 >= 0x80) by (bit_vector);
    assert(0xE0 | ((v >> 12) & 0x0F) as u8 >= 0x80) by (bit_vector);
    assert(0xF0 | ((v >> 18) & 0x7) as u8 >= 0x80) by (bit_vector);
    assert(0x80 | (v & 0x3F) as u8 >= 0x80) by (bit_vector);
    assert(0x80 | ((v >> 6) & 0x3F) as u8 >= 0x80) by (bit_vector);
    assert(0x80 | ((v >> 12) & 0x3F) as u8 >= 0x80) by (bit_vector);
}

/// Characters that are no control characters are encoded without control
/// bytes.
pub proof fn lemma_encode_plain(chars: Seq<char>)
    requires
        forall|i: int| 0 <= i < chars.len() ==> !control_char(#[trigger] chars[i]),
    ensures
        no_control(encode_utf8(chars)),
    decreases chars.len(),
{
    if chars.len() > 0 {
        assert(!control_char(chars[0]));
        lemma_char_plain(chars[0]);
        assert forall|i: int| 0 <= i < chars.len() - 1 implies !control_char(
            #[trigger] chars.drop_first()[i],
        ) by {
            assert(chars.drop_first()[i] == chars[i + 1]);
        }
        lemma_encode_plain(chars.drop_first());
    }
}

/// How many bytes a character takes.
pub proof fn lemma_encode_char_len(c: char)
    ensures
        1 <= encode_utf8(seq![c]).len() <= 4,
        '\u{800}' <= c && c <= '\u{FFFF}' ==> encode_utf8(seq![c]).len() == 3,
        c <= '\u{7F}' ==> encode_utf8(seq![c]).len() == 1,
{
    let s = seq![c];
    assert(s.drop_first() =~= seq![]);
    assert(encode_utf8(s.drop_first()) == Seq::<u8>::empty());
    assert(encode_utf8(s) =~= encode_scalar(c as u32));
}

/// The first byte of a character of three bytes.
pub proof fn lemma_three_byte_lead(c: char)
    requires
        '\u{800}' <= c && c <= '\u{FFFF}',
    ensures
        forall|rest: Seq<char>|
            rest.len() > 0 && rest[0] == c ==> 0xE0 <= #[trigger] encode_utf8(rest)[0] <= 0xEF,
{
    char_is_scalar(c);
    let v = c as u32;
    assert(0xE0 <= (0xE0 | ((v >> 12) & 0x0F) as u8) <= 0xEF) by (bit_vector);
}

// --- text runs ------------------------------------------------------------------

/// After its first byte, a begun character has continuation bytes.
pub proof fn lemma_begun_continuation(part: Seq<u8>, i: int)
    requires
        char_front(part),
        1 <= i < part.len(),
    ensures
        continuation_byte(part[i]),
{
}

/// A byte inside a character stays inside it when bytes are put around.
proof fn lemma_in_char_within(a: Seq<u8>, b: Seq<u8>, c: Seq<u8>, i: int)
    requires
        in_char(b, i),
    ensures
        in_char(a + b + c, a.len() + i),
{
    let (from, to) = choose|from: int, to: int|
        0 <= from < i && i < to <= b.len() && whole_char(#[trigger] b.subrange(from, to));
    let all = a + b + c;
    assert(all.subrange(a.len() + from, a.len() + to) =~= b.subrange(from, to));
}

/// Two pieces without raw C1 bytes make one.
pub proof fn lemma_no_raw_c1_concat(a: Seq<u8>, b: Seq<u8>)
    requires
        no_raw_c1(a),
        no_raw_c1(b),
    ensures
        no_raw_c1(a + b),
{
    let all = a + b;
    let none = Seq::<u8>::empty();
    assert forall|i: int| 0 <= i < all.len() && c1_byte(#[trigger] all[i]) implies in_char(
        all,
        i,
    ) by {
        if i < a.len() {
            lemma_in_char_within(none, a, b, i);
            assert(none + a + b =~= all);
        } else {
            lemma_in_char_within(a, b, none, i - a.len());
            assert(a + b + none =~= all);
        }
    }
}

/// Two text runs make one.
pub proof fn lemma_textual_concat(a: Seq<u8>, b: Seq<u8>)
    requires
        textual(a),
        textual(b),
    ensures
        textual(a + b),
{
    lemma_no_raw_c1_concat(a, b);
}

/// A byte that is no control of either kind carries a text run on.
pub proof fn lemma_textual_push(text: Seq<u8>, b: u8)
    requires
        textual(text),
        !control_byte(b),
        !c1_byte(b),
    ensures
        textual(text.push(b)),
{
    lemma_textual_concat(text, seq![b]);
    assert(text.push(b) =~= text + seq![b]);
}

/// A character is a text run.
pub proof fn lemma_char_textual(s: Seq<u8>)
    requires
        whole_char(s),
    ensures
        textual(s),
{
    assert forall|i: int| 0 <= i < s.len() && c1_byte(#[trigger] s[i]) implies in_char(s, i) by {
        assert(s.subrange(0, s.len() as int) =~= s);
    }
}

/// The first character of valid UTF-8 is well-formed by its bytes.
pub proof fn lemma_first_scalar(bytes: Seq<u8>)
    requires
        valid_utf8(bytes),
        bytes.len() > 0,
    ensures
        1 <= length_of_first_scalar(bytes) <= bytes.len(),
        length_of_first_scalar(bytes) == 1 ==> bytes[0] < 0x80,
        length_of_first_scalar(bytes) > 1 ==> whole_char(
            bytes.take(length_of_first_scalar(bytes)),
        ),
        pop_first_scalar(bytes) == bytes.skip(length_of_first_scalar(bytes)),
        valid_utf8(pop_first_scalar(bytes)),
{
    let n = length_of_first_scalar(bytes);
    assert(pop_first_scalar(bytes) =~= bytes.skip(n));
    let v = decode_first_codepoint(bytes);
    let b1 = bytes[0];
    if n == 2 {
        let b2 = bytes[1];
        assert(v == codepoint_width_2(b1, b2));
        assert(0xC0 <= b1 <= 0xC1 && ((((b1 & 0x1F) as u32) << 6) | ((b2 & 0x3F) as u32)) >= 0x80
            ==> false) by (bit_vector);
    } else if n == 3 {
        let b2 = bytes[1];
        let b3 = bytes[2];
        assert(v == codepoint_width_3(b1, b2, b3));
        let w = (((b1 & 0x0F) as u32) << 12) | (((b2 & 0x3F) as u32) << 6) | ((b3 & 0x3F) as u32);
        assert(v == w);
        assert(b1 == 0xE0 && 0x80 <= b2 < 0xA0 ==> ((((b1 & 0x0F) as u32) << 12) | (((b2
            & 0x3F) as u32) << 6) | ((b3 & 0x3F) as u32)) < 0x800) by (bit_vector);
        assert(b1 == 0xED && 0xA0 <= b2 <= 0xBF ==> 0xD800 <= ((((b1 & 0x0F) as u32) << 12) | (((b2
            & 0x3F) as u32) << 6) | ((b3 & 0x3F) as u32)) <= 0xDFFF) by (bit_vector);
    } else if n == 4 {
        let b2 = bytes[1];
        let b3 = bytes[2];
        let b4 = bytes[3];
        assert(v == codepoint_width_4(b1, b2, b3, b4));
        assert(b1 == 0xF0 && 0x80 <= b2 < 0x90 ==> ((((b1 & 0x07) as u32) << 18) | (((b2
            & 0x3F) as u32) << 12) | (((b3 & 0x3F) as u32) << 6) | ((b4 & 0x3F) as u32))
            < 0x10000) by (bit_vector);
        assert(b1 == 0xF4 && 0x90 <= b2 <= 0xBF ==> ((((b1 & 0x07) as u32) << 18) | (((b2
            & 0x3F) as u32) << 12) | (((b3 & 0x3F) as u32) << 6) | ((b4 & 0x3F) as u32))
            > 0x10FFFF) by (bit_vector);
        assert(0xF5 <= b1 <= 0xF7 ==> ((((b1 & 0x07) as u32) << 18) | (((b2 & 0x3F) as u32)
            << 12) | (((b3 & 0x3F) as u32) << 6) | ((b4 & 0x3F) as u32)) > 0x10FFFF)
            by (bit_vector);
    }
}

/// UTF-8 without control bytes is a text run: no byte of a multi-byte
/// character is mistaken for an 8-bit control.
pub proof fn lemma_textual_utf8(bytes: Seq<u8>)
    requires
        valid_utf8(bytes),
        no_control(bytes),
    ensures
        textual(bytes),
    decreases bytes.len(),
{
    if bytes.len() > 0 {
        let n = length_of_first_scalar(bytes);
        let first = bytes.take(n);
        let rest = pop_first_scalar(bytes);
        lemma_first_scalar(bytes);
        if n > 1 {
            lemma_char_textual(first);
        }
        assert forall|i: int| 0 <= i < rest.len() implies !control_byte(#[trigger] rest[i]) by {
            assert(rest[i] == bytes[i + n]);
        }
        lemma_textual_utf8(rest);
        lemma_textual_concat(first, rest);
        assert(first + rest =~= bytes);
    }
}

// --- what the standard says -------------------------------------------------------

/// Is this the UTF-8 encoding of one Unicode scalar, and nothing more?
pub open spec fn one_scalar(s: Seq<u8>) -> bool {
    valid_first_scalar(s) && length_of_first_scalar(s) == s.len()
}

/// A well-formed character of several bytes is the UTF-8 encoding of a Unicode
/// scalar: no overlong form, no surrogate, nothing beyond the last scalar, and
/// all that is left.
pub proof fn lemma_whole_char_exactly(s: Seq<u8>)
    ensures
        whole_char(s) <==> s.len() > 1 && one_scalar(s),
{
    if s.len() > 1 && one_scalar(s) {
        assert(pop_first_scalar(s) =~= seq![]);
        assert(valid_utf8(pop_first_scalar(s)));
        assert(valid_utf8(s));
        lemma_first_scalar(s);
        assert(s.take(length_of_first_scalar(s)) =~= s);
    }
    if whole_char(s) {
        lemma_char_is_scalar(s);
    }
}

proof fn lemma_char_is_scalar(s: Seq<u8>)
    requires
        whole_char(s),
    ensures
        one_scalar(s),
{
    let b1 = s[0];
    let b2 = s[1];
    if s.len() == 2 {
        assert(continuation_byte(b2));
        let v = ((((b1 & 0x1F) as u32) << 6) | ((b2 & 0x3F) as u32));
        assert(decode_first_codepoint(s) == codepoint_width_2(b1, b2));
        assert(decode_first_codepoint(s) == v);
        assert(0xC2 <= b1 <= 0xDF && 0x80 <= b2 <= 0xBF ==> 0x80 <= ((((b1 & 0x1F) as u32) << 6)
            | ((b2 & 0x3F) as u32)) <= 0x7FF) by (bit_vector);
    } else if s.len() == 3 {
        let b3 = s[2];
        assert(continuation_byte(b3));
        let v = (((b1 & 0x0F) as u32) << 12) | (((b2 & 0x3F) as u32) << 6) | ((b3 & 0x3F) as u32);
        assert(decode_first_codepoint(s) == codepoint_width_3(b1, b2, b3));
        assert(decode_first_codepoint(s) == v);
        assert(b1 == 0xE0 && 0xA0 <= b2 <= 0xBF ==> 0x800 <= ((((b1 & 0x0F) as u32) << 12) | (((b2
            & 0x3F) as u32) << 6) | ((b3 & 0x3F) as u32)) <= 0xFFF) by (bit_vector);
        assert(b1 == 0xED && 0x80 <= b2 <= 0x9F ==> 0xD000 <= ((((b1 & 0x0F) as u32) << 12) | (((b2
            & 0x3F) as u32) << 6) | ((b3 & 0x3F) as u32)) <= 0xD7FF) by (bit_vector);
        assert(0xE1 <= b1 <= 0xEF && b1 != 0xED ==> 0x1000 <= ((((b1 & 0x0F) as u32) << 12) | (((b2
            & 0x3F) as u32) << 6) | ((b3 & 0x3F) as u32)) && !(0xD000 <= ((((b1 & 0x0F) as u32)
            << 12) | (((b2 & 0x3F) as u32) << 6) | ((b3 & 0x3F) as u32)) <= 0xDFFF))
            by (bit_vector);
    } else {
        let b3 = s[2];
        let b4 = s[3];
        assert(continuation_byte(b3) && continuation_byte(b4));
        let v = (((b1 & 0x07) as u32) << 18) | (((b2 & 0x3F) as u32) << 12) | (((b3 & 0x3F) as u32)
            << 6) | ((b4 & 0x3F) as u32);
        assert(decode_first_codepoint(s) == codepoint_width_4(b1, b2, b3, b4));
        assert(decode_first_codepoint(s) == v);
        assert(b1 == 0xF0 && 0x90 <= b2 <= 0xBF ==> 0x10000 <= ((((b1 & 0x07) as u32) << 18) | (((
        b2 & 0x3F) as u32) << 12) | (((b3 & 0x3F) as u32) << 6) | ((b4 & 0x3F) as u32)) <= 0x3FFFF)
            by (bit_vector);
        assert(b1 == 0xF4 && 0x80 <= b2 <= 0x8F ==> 0x100000 <= ((((b1 & 0x07) as u32) << 18) | (((
        b2 & 0x3F) as u32) << 12) | (((b3 & 0x3F) as u32) << 6) | ((b4 & 0x3F) as u32))
            <= 0x10FFFF) by (bit_vector);
        assert(0xF1 <= b1 <= 0xF3 ==> 0x40000 <= ((((b1 & 0x07) as u32) << 18) | (((b2
            & 0x3F) as u32) << 12) | (((b3 & 0x3F) as u32) << 6) | ((b4 & 0x3F) as u32))
            <= 0xFFFFF) by (bit_vector);
    }
}

/// Does the byte at `i` belong to the encoding of a scalar that starts before
/// it?
pub open spec fn within_scalar(s: Seq<u8>, i: int) -> bool {
    exists|from: int, to: int|
        0 <= from < i && i < to <= s.len() && one_scalar(#[trigger] s.subrange(from, to))
}

/// Text is what holds no control byte, and in the C1 range only bytes that
/// belong to the encoding of a scalar.
pub proof fn lemma_textual_exactly(s: Seq<u8>)
    ensures
        textual(s) <==> {
            &&& forall|i: int| 0 <= i < s.len() ==> #[trigger] s[i] >= 0x20 && s[i] != 0x7F
            &&& forall|i: int|
                0 <= i < s.len() && 0x80 <= #[trigger] s[i] <= 0x9F ==> within_scalar(s, i)
        },
        no_raw_c1(s) <==> forall|i: int|
            0 <= i < s.len() && 0x80 <= #[trigger] s[i] <= 0x9F ==> within_scalar(s, i),
{
    assert forall|i: int| 0 <= i < s.len() implies (#[trigger] in_char(s, i) <==> within_scalar(
        s,
        i,
    )) by {
        if in_char(s, i) {
            let (from, to) = choose|from: int, to: int|
                0 <= from < i && i < to <= s.len() && whole_char(#[trigger] s.subrange(from, to));
            lemma_whole_char_exactly(s.subrange(from, to));
        }
        if within_scalar(s, i) {
            let (from, to) = choose|from: int, to: int|
                0 <= from < i && i < to <= s.len() && one_scalar(#[trigger] s.subrange(from, to));
            lemma_whole_char_exactly(s.subrange(from, to));
        }
    }
    if no_raw_c1(s) {
        assert forall|i: int| 0 <= i < s.len() && 0x80 <= #[trigger] s[i]
            <= 0x9F implies within_scalar(s, i) by {
            assert(c1_byte(s[i]));
            assert(in_char(s, i));
        }
    } else {
        let i = choose|i: int| 0 <= i < s.len() && c1_byte(#[trigger] s[i]) && !in_char(s, i);
        assert(!within_scalar(s, i));
        assert(0x80 <= s[i] <= 0x9F);
    }
    if no_control(s) {
        assert forall|i: int| 0 <= i < s.len() implies #[trigger] s[i] >= 0x20 && s[i] != 0x7F by {
            assert(!control_byte(s[i]));
        }
    } else {
        let i = choose|i: int| 0 <= i < s.len() && control_byte(#[trigger] s[i]);
        assert(s[i] < 0x20 || s[i] == 0x7F);
    }
}

} // verus!
