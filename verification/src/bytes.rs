//! Named bytes and small verified operations on byte slices.

use vstd::prelude::*;

use crate::classify_laws::lemma_find;
use crate::classify_model::find;

verus! {

/// `BEL`, the xterm terminator of an operating system command.
pub const BEL: u8 = 0x07;

/// Horizontal tab.
pub const TAB: u8 = 0x09;

/// Line feed.
pub const LF: u8 = 0x0A;

/// Carriage return.
pub const CR: u8 = 0x0D;

/// The escape byte that introduces every 7-bit sequence.
pub const ESC: u8 = 0x1B;

/// Delete.
pub const DEL: u8 = 0x7F;

/// The 8-bit control sequence introducer.
pub const C1_CSI: u8 = 0x9B;

/// The 8-bit string terminator.
pub const C1_ST: u8 = 0x9C;

/// `[`, which follows `ESC` in the 7-bit control sequence introducer.
pub const BRACKET: u8 = 0x5B;

/// `\`, which follows `ESC` in the 7-bit string terminator.
pub const BACKSLASH: u8 = 0x5C;

/// `;`, the field separator of parameters and payloads.
pub const SEMICOLON: u8 = 0x3B;

/// A C0 control byte or `DEL`.
pub open spec fn control_byte(b: u8) -> bool {
    b < 0x20 || b == DEL
}

/// A byte in the 8-bit C1 control range.
pub open spec fn c1_byte(b: u8) -> bool {
    0x80 <= b <= 0x9F
}

/// A byte that may continue a multi-byte UTF-8 character.
pub open spec fn continuation_byte(b: u8) -> bool {
    0x80 <= b <= 0xBF
}

/// A CSI parameter byte.
pub open spec fn param_byte(b: u8) -> bool {
    0x30 <= b <= 0x3F
}

/// An intermediate byte.
pub open spec fn intermediate_byte(b: u8) -> bool {
    0x20 <= b <= 0x2F
}

/// An ASCII decimal digit.
pub open spec fn digit_byte(b: u8) -> bool {
    0x30 <= b <= 0x39
}

/// Is every byte of `s` a parameter byte?
pub open spec fn all_params(s: Seq<u8>) -> bool {
    forall|i: int| 0 <= i < s.len() ==> param_byte(#[trigger] s[i])
}

/// Is every byte of `s` an intermediate byte?
pub open spec fn all_intermediates(s: Seq<u8>) -> bool {
    forall|i: int| 0 <= i < s.len() ==> intermediate_byte(#[trigger] s[i])
}

/// Is every byte of `s` a digit?
pub open spec fn all_digits(s: Seq<u8>) -> bool {
    forall|i: int| 0 <= i < s.len() ==> digit_byte(#[trigger] s[i])
}

/// How often `b` stands in `s`.
pub open spec fn count_of(s: Seq<u8>, b: u8) -> nat
    decreases s.len(),
{
    if s.len() == 0 {
        0
    } else {
        count_of(s.drop_last(), b) + if s.last() == b {
            1nat
        } else {
            0nat
        }
    }
}

/// Counts add up.
pub proof fn lemma_count_concat(s: Seq<u8>, t: Seq<u8>, b: u8)
    ensures
        count_of(s + t, b) == count_of(s, b) + count_of(t, b),
    decreases t.len(),
{
    if t.len() == 0 {
        assert(s + t =~= s);
    } else {
        assert((s + t).drop_last() =~= s + t.drop_last());
        lemma_count_concat(s, t.drop_last(), b);
    }
}

/// A byte that does not occur counts zero, and one by itself counts one.
pub proof fn lemma_count_none(s: Seq<u8>, b: u8)
    ensures
        (forall|i: int| 0 <= i < s.len() ==> s[i] != b) ==> count_of(s, b) == 0,
        count_of(seq![b], b) == 1,
    decreases s.len(),
{
    let one = seq![b];
    assert(one.drop_last() =~= seq![]);
    assert(count_of(one.drop_last(), b) == 0);
    if s.len() > 0 {
        lemma_count_none(s.drop_last(), b);
    }
}

/// Appends the bytes of `more` to `out`.
pub fn append_bytes(out: &mut Vec<u8>, more: &[u8])
    ensures
        final(out)@ == old(out)@ + more@,
{
    out.extend_from_slice(more);
    assert(out@ =~= old(out)@ + more@);
}

/// Empties `v` and hands back what it held.
pub fn take_bytes(v: &mut Vec<u8>) -> (taken: Vec<u8>)
    ensures
        taken@ == old(v)@,
        final(v)@ == Seq::<u8>::empty(),
{
    let mut taken: Vec<u8> = Vec::new();
    std::mem::swap(v, &mut taken);
    taken
}

/// The first index from `from` on at which `b` stands in `s`, or the length
/// of `s`.
pub fn find_byte(s: &[u8], from: usize, b: u8) -> (i: usize)
    requires
        from <= s@.len(),
    ensures
        from <= i <= s@.len(),
        i - from == find(s@.skip(from as int), b),
        i < s@.len() ==> s@[i as int] == b,
        forall|j: int| from <= j < i ==> s@[j] != b,
{
    let mut i: usize = from;
    while i < s.len() && s[i] != b
        invariant
            from <= i <= s@.len(),
            forall|j: int| from <= j < i ==> s@[j] != b,
        decreases s@.len() - i,
    {
        i += 1;
    }
    proof {
        lemma_find(s@.skip(from as int), b, i - from);
    }
    i
}

/// Does `s` consist of the byte `b` alone?
pub fn is_byte(s: &[u8], b: u8) -> (alone: bool)
    ensures
        alone == (s@ == seq![b]),
{
    if s.len() == 1 && s[0] == b {
        assert(s@ =~= seq![b]);
        true
    } else {
        assert(seq![b].len() == 1 && seq![b][0] == b);
        false
    }
}

/// Does `s` begin with `front`?
pub fn starts_with(s: &[u8], front: &[u8]) -> (starts: bool)
    ensures
        starts == front@.is_prefix_of(s@),
{
    if s.len() < front.len() {
        return false;
    }
    let mut i: usize = 0;
    while i < front.len()
        invariant
            i <= front@.len() <= s@.len(),
            forall|j: int| 0 <= j < i ==> s@[j] == front@[j],
        decreases front@.len() - i,
    {
        if s[i] != front[i] {
            assert(s@.subrange(0, front@.len() as int)[i as int] != front@[i as int]);
            return false;
        }
        i += 1;
    }
    assert(s@.subrange(0, front@.len() as int) =~= front@);
    true
}

} // verus!
