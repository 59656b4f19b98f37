//! Well-formed UTF-8, byte by byte, and the text runs that the tokenizer makes
//! of it.

use vstd::prelude::*;

use crate::bytes::{c1_byte, continuation_byte, control_byte};

verus! {

/// How many bytes a character has that starts with `b`, where that is more
/// than one; zero for a byte that starts no such character.
pub open spec fn char_len(b: u8) -> nat {
    if 0xC2 <= b <= 0xDF {
        2
    } else if 0xE0 <= b <= 0xEF {
        3
    } else if 0xF0 <= b <= 0xF4 {
        4
    } else {
        0
    }
}

/// May `b` follow the first byte of a character? The narrower ranges keep out
/// overlong forms, surrogates and what lies beyond Unicode.
pub open spec fn second_byte(lead: u8, b: u8) -> bool {
    if lead == 0xE0 {
        0xA0 <= b <= 0xBF
    } else if lead == 0xED {
        0x80 <= b <= 0x9F
    } else if lead == 0xF0 {
        0x90 <= b <= 0xBF
    } else if lead == 0xF4 {
        0x80 <= b <= 0x8F
    } else {
        continuation_byte(b)
    }
}

/// Are these the first bytes, at least one, of a character of several bytes?
pub open spec fn char_front(s: Seq<u8>) -> bool {
    &&& 0 < s.len() <= char_len(s[0])
    &&& s.len() > 1 ==> second_byte(s[0], s[1])
    &&& forall|i: int| 2 <= i < s.len() ==> continuation_byte(#[trigger] s[i])
}

/// Is this one well-formed character of several bytes?
pub open spec fn whole_char(s: Seq<u8>) -> bool {
    char_front(s) && s.len() == char_len(s[0])
}

/// Are these the first bytes of a character that needs more?
pub open spec fn char_begun(s: Seq<u8>) -> bool {
    char_front(s) && s.len() < char_len(s[0])
}

/// Does `b` carry on the character that `part` begins?
pub open spec fn continues(part: Seq<u8>, b: u8) -> bool {
    if part.len() == 1 {
        second_byte(part[0], b)
    } else {
        continuation_byte(b)
    }
}

/// Is the byte at `i` one after the first of a well-formed character in
/// `text`?
pub open spec fn in_char(text: Seq<u8>, i: int) -> bool {
    exists|from: int, to: int|
        0 <= from < i && i < to <= text.len() && whole_char(#[trigger] text.subrange(from, to))
}

/// Does every byte in the C1 range continue a well-formed character?
pub open spec fn no_raw_c1(bytes: Seq<u8>) -> bool {
    forall|i: int| 0 <= i < bytes.len() && c1_byte(#[trigger] bytes[i]) ==> in_char(bytes, i)
}

/// Does `bytes` hold no control byte?
pub open spec fn no_control(bytes: Seq<u8>) -> bool {
    forall|i: int| 0 <= i < bytes.len() ==> !control_byte(#[trigger] bytes[i])
}

/// Is `text` a run of ordinary bytes, without control bytes of either kind?
pub open spec fn textual(text: Seq<u8>) -> bool {
    no_control(text) && no_raw_c1(text)
}

} // verus!
