//! Recognising well-formed UTF-8 in bytes that may hold anything.

use vstd::prelude::*;
use vstd::slice::slice_subrange;

use crate::bytes::{c1_byte, continuation_byte, control_byte};
use crate::utf8_model::{char_len, continues, in_char, textual, whole_char};

verus! {

/// How many bytes a character of several bytes has that starts with `b`.
pub fn char_size(b: u8) -> (n: usize)
    ensures
        n == char_len(b),
{
    if 0xC2 <= b && b <= 0xDF {
        2
    } else if 0xE0 <= b && b <= 0xEF {
        3
    } else if 0xF0 <= b && b <= 0xF4 {
        4
    } else {
        0
    }
}

/// Does `b` carry on the character that `part` begins?
pub fn continues_char(part: &[u8], b: u8) -> (yes: bool)
    requires
        part@.len() > 0,
    ensures
        yes == continues(part@, b),
{
    let lead = part[0];
    if part.len() > 1 {
        0x80 <= b && b <= 0xBF
    } else if lead == 0xE0 {
        0xA0 <= b && b <= 0xBF
    } else if lead == 0xED {
        0x80 <= b && b <= 0x9F
    } else if lead == 0xF0 {
        0x90 <= b && b <= 0xBF
    } else if lead == 0xF4 {
        0x80 <= b && b <= 0x8F
    } else {
        0x80 <= b && b <= 0xBF
    }
}

/// The length of the character of several bytes that starts at `i`; zero where
/// none does.
fn char_at(s: &[u8], i: usize) -> (n: usize)
    requires
        i < s@.len(),
    ensures
        n > 0 ==> i + n <= s@.len() && whole_char(s@.subrange(i as int, i + n)),
        n == 0 ==> forall|to: int|
            i < to <= s@.len() ==> !whole_char(#[trigger] s@.subrange(i as int, to)),
{
    let size = char_size(s[i]);
    if size == 0 || s.len() - i < size {
        return 0;
    }
    let mut n: usize = 1;
    while n < size
        invariant
            1 <= n <= size == char_len(s@[i as int]),
            i + size <= s@.len() <= usize::MAX,
            forall|j: int|
                1 <= j < n ==> continues(s@.subrange(i as int, i + j), #[trigger] s@[i + j]),
        decreases size - n,
    {
        let part = slice_subrange(s, i, i + n);
        if !continues_char(part, s[i + n]) {
            assert forall|to: int| i < to <= s@.len() implies !whole_char(
                #[trigger] s@.subrange(i as int, to),
            ) by {
                let c = s@.subrange(i as int, to);
                assert(c[0] == s@[i as int]);
                if c.len() == size {
                    assert(c[n as int] == s@[i + n]);
                }
            }
            return 0;
        }
        n += 1;
    }
    let ghost c = s@.subrange(i as int, i + n);
    assert(whole_char(c)) by {
        assert(continues(s@.subrange(i as int, i + 1), s@[i + 1]));
        assert forall|j: int| 2 <= j < c.len() implies continuation_byte(
            #[trigger] c[j],
        ) by {
            assert(continues(s@.subrange(i as int, i + j), s@[i + j]));
        }
    }
    n
}

/// Does no character lie across `i`?
spec fn between(s: Seq<u8>, i: int) -> bool {
    forall|from: int, to: int|
        0 <= from < i && i < to <= s.len() ==> !whole_char(#[trigger] s.subrange(from, to))
}

/// After a character that starts between two others, the next may start.
proof fn lemma_after_char(s: Seq<u8>, i: int, n: int)
    requires
        0 <= i,
        0 < n,
        i + n <= s.len(),
        between(s, i),
        whole_char(s.subrange(i, i + n)),
    ensures
        between(s, i + n),
{
    let c = s.subrange(i, i + n);
    assert forall|from: int, to: int|
        0 <= from < i + n && i + n < to <= s.len() implies !whole_char(
        #[trigger] s.subrange(from, to),
    ) by {
        let d = s.subrange(from, to);
        assert(d[0] == s[from]);
        if from == i {
            assert(c[0] == s[i]);
        } else if from > i {
            assert(c[from - i] == s[from]);
        }
    }
}

/// Is `s` a run of ordinary bytes, without control bytes of either kind? A byte
/// in the C1 range that continues a character is an ordinary one.
pub fn is_textual(s: &[u8]) -> (yes: bool)
    ensures
        yes == textual(s@),
{
    let mut i: usize = 0;
    while i < s.len()
        invariant
            i <= s@.len(),
            between(s@, i as int),
            forall|j: int| 0 <= j < i ==> !control_byte(#[trigger] s@[j]),
            forall|j: int| 0 <= j < i && c1_byte(#[trigger] s@[j]) ==> in_char(s@, j),
        decreases s@.len() - i,
    {
        let n = char_at(s, i);
        if n > 0 {
            let ghost c = s@.subrange(i as int, i + n);
            assert forall|j: int| i <= j < i + n implies !control_byte(#[trigger] s@[j]) && (
            c1_byte(s@[j]) ==> in_char(s@, j)) by {
                assert(c[j - i] == s@[j]);
            }
            proof {
                lemma_after_char(s@, i as int, n as int);
            }
            i += n;
        } else {
            let b = s[i];
            if b < 0x20 || (0x7F <= b && b <= 0x9F) {
                return false;
            }
            i += 1;
        }
    }
    true
}

} // verus!
