//! Bytes made visible: a rendering holds printable characters only, and tells
//! which bytes it shows.

use vstd::prelude::*;
use vstd::utf8::{encode_utf8, encode_utf8_valid_utf8};

use crate::bytes::{BEL, ESC};
use crate::sanitize_model::{hex_char, shown, shown_all, shown_byte};
use crate::utf8_laws::{control_char, lemma_encode_plain, lemma_textual_utf8};
use crate::utf8_model::textual;

verus! {

/// A character that a rendering of bytes may hold.
pub open spec fn rendered_char(c: char) -> bool {
    ||| ' ' <= c && c <= '~'
    ||| c == '\u{27E8}'
    ||| c == '\u{27E9}'
    ||| c == '\u{2026}'
}

/// Is every character one that a rendering may hold?
pub open spec fn all_rendered(s: Seq<char>) -> bool {
    forall|i: int| 0 <= i < s.len() ==> rendered_char(#[trigger] s[i])
}

proof fn lemma_shown_byte_visible(b: u8)
    ensures
        all_rendered(shown_byte(b)),
{
    reveal_strlit("\u{27E8}ESC\u{27E9}");
    reveal_strlit("\u{27E8}BEL\u{27E9}");
    reveal_strlit("\u{27E8}0x");
    reveal_strlit("\u{27E9}");
    let hi = b as int / 16;
    let lo = b as int % 16;
    assert(0 <= hi < 16 && 0 <= lo < 16);
    assert(rendered_char(hex_char(hi)) && rendered_char(hex_char(lo)));
}

proof fn lemma_shown_all_visible(bytes: Seq<u8>)
    ensures
        all_rendered(shown_all(bytes)),
    decreases bytes.len(),
{
    if bytes.len() > 0 {
        lemma_shown_all_visible(bytes.drop_last());
        lemma_shown_byte_visible(bytes.last());
        let front = shown_all(bytes.drop_last());
        let s = shown_all(bytes);
        assert forall|i: int| 0 <= i < s.len() implies rendered_char(#[trigger] s[i]) by {
            if i < front.len() {
                assert(s[i] == front[i]);
            } else {
                assert(s[i] == shown_byte(bytes.last())[i - front.len()]);
            }
        }
    }
}

/// A rendering cannot smuggle a sequence: it holds printable characters only,
/// and read as output it is one run of text.
pub proof fn lemma_rendering_is_text(bytes: Seq<u8>, cap: nat)
    ensures
        all_rendered(shown(bytes, cap)),
        textual(encode_utf8(shown(bytes, cap))),
{
    let s = shown(bytes, cap);
    lemma_shown_all_visible(bytes);
    lemma_shown_all_visible(bytes.take(cap as int));
    let encoded = encode_utf8(s);
    assert forall|i: int| 0 <= i < s.len() implies !control_char(#[trigger] s[i]) by {
        assert(rendered_char(s[i]));
    }
    lemma_encode_plain(s);
    encode_utf8_valid_utf8(s);
    lemma_textual_utf8(encoded);
}

/// How the rendering of a byte ends.
proof fn lemma_shown_byte_end(b: u8)
    ensures
        ({
            let s = shown_byte(b);
            let n = s.len() as int;
            if 0x20 <= b <= 0x7E {
                n == 1 && s[0] == b as char && s[0] != '\u{27E9}'
            } else {
                &&& n >= 5
                &&& s[n - 1] == '\u{27E9}'
                &&& if b == ESC {
                    n == 5 && s[n - 2] == 'C' && s[n - 3] == 'S'
                } else if b == BEL {
                    n == 5 && s[n - 2] == 'L' && s[n - 3] == 'E'
                } else {
                    &&& n == 6
                    &&& s[n - 2] == hex_char(b as int % 16)
                    &&& s[n - 3] == hex_char(b as int / 16)
                }
            }
        }),
{
    reveal_strlit("\u{27E8}ESC\u{27E9}");
    reveal_strlit("\u{27E8}BEL\u{27E9}");
    reveal_strlit("\u{27E8}0x");
    reveal_strlit("\u{27E9}");
}

/// Hexadecimal digits differ, and none is a letter past `F`.
proof fn lemma_hex_chars(c: int, d: int)
    requires
        0 <= c < 16,
        0 <= d < 16,
    ensures
        hex_char(c) == hex_char(d) ==> c == d,
        hex_char(c) != 'S',
        hex_char(c) != 'L',
{
}

/// A rendering tells its last byte and what is before it.
proof fn lemma_shown_last(p: Seq<char>, x: u8, q: Seq<char>, y: u8)
    requires
        p + shown_byte(x) == q + shown_byte(y),
    ensures
        x == y,
        p == q,
{
    let s = p + shown_byte(x);
    let n = s.len() as int;
    lemma_shown_byte_end(x);
    lemma_shown_byte_end(y);
    lemma_hex_chars(x as int % 16, y as int % 16);
    lemma_hex_chars(y as int % 16, x as int % 16);
    lemma_hex_chars(x as int / 16, y as int / 16);
    lemma_hex_chars(y as int / 16, x as int / 16);
    let k = shown_byte(x).len() as int;
    let m = shown_byte(y).len() as int;
    assert(s[n - 1] == shown_byte(x)[k - 1] && s[n - 1] == shown_byte(y)[m - 1]);
    if k > 1 && m > 1 {
        assert(s[n - 2] == shown_byte(x)[k - 2] && s[n - 2] == shown_byte(y)[m - 2]);
        assert(s[n - 3] == shown_byte(x)[k - 3] && s[n - 3] == shown_byte(y)[m - 3]);
    }
    assert(x == y);
    assert(p =~= s.take(n - k));
    assert(q =~= s.take(n - k));
}

proof fn lemma_shown_all_tells(a: Seq<u8>, b: Seq<u8>)
    requires
        shown_all(a) == shown_all(b),
    ensures
        a == b,
    decreases a.len() + b.len(),
{
    if a.len() > 0 {
        lemma_shown_byte_end(a.last());
    }
    if b.len() > 0 {
        lemma_shown_byte_end(b.last());
    }
    if a.len() > 0 && b.len() > 0 {
        lemma_shown_last(
            shown_all(a.drop_last()),
            a.last(),
            shown_all(b.drop_last()),
            b.last(),
        );
        lemma_shown_all_tells(a.drop_last(), b.drop_last());
        assert(a =~= a.drop_last().push(a.last()));
        assert(b =~= b.drop_last().push(b.last()));
    } else {
        assert(shown_all(a).len() == 0 || shown_all(b).len() == 0);
        assert(a.len() > 0 ==> shown_all(a).len() > 0);
        assert(b.len() > 0 ==> shown_all(b).len() > 0);
        assert(a =~= b);
    }
}

/// A rendering that is not cut tells the bytes: different bytes never look the
/// same.
pub proof fn lemma_rendering_is_injective(a: Seq<u8>, b: Seq<u8>, cap: nat)
    requires
        a.len() <= cap,
        b.len() <= cap,
        shown(a, cap) == shown(b, cap),
    ensures
        a == b,
{
    lemma_shown_all_tells(a, b);
}

} // verus!
