//! What holds of reports on every input.

use vstd::prelude::*;

use crate::finding_laws::lemma_summary_adds_up;
use crate::report_model::{counted_severity, escaped, escaped_char, small_hex_char};
use crate::sanitize_model::{worst, SanitizerView};

verus! {

// --- JSON strings ---------------------------------------------------------------

/// The value of a hexadecimal digit.
pub open spec fn hex_value(c: char) -> Option<int> {
    if '0' <= c && c <= '9' {
        Some(c as int - 0x30)
    } else if 'a' <= c && c <= 'f' {
        Some(c as int - 0x57)
    } else if 'A' <= c && c <= 'F' {
        Some(c as int - 0x37)
    } else {
        None
    }
}

/// The character that four hexadecimal digits name, unless they name a
/// surrogate.
pub open spec fn unicode_escape(a: char, b: char, c: char, d: char) -> Option<char> {
    match (hex_value(a), hex_value(b), hex_value(c), hex_value(d)) {
        (Some(w), Some(x), Some(y), Some(z)) => {
            let code = 4096 * w + 256 * x + 16 * y + z;
            if 0xD800 <= code <= 0xDFFF {
                None
            } else {
                Some(code as char)
            }
        },
        _ => None,
    }
}

/// The character that a letter after a backslash names.
pub open spec fn letter_escape(c: char) -> Option<char> {
    if c == '"' || c == '\\' || c == '/' {
        Some(c)
    } else if c == 'b' {
        Some('\u{8}')
    } else if c == 'f' {
        Some('\u{C}')
    } else if c == 'n' {
        Some('\n')
    } else if c == 'r' {
        Some('\r')
    } else if c == 't' {
        Some('\t')
    } else {
        None
    }
}

/// `c` before what was read after it.
pub open spec fn then_read(c: Option<char>, rest: Option<Seq<char>>) -> Option<Seq<char>> {
    match (c, rest) {
        (Some(c), Some(rest)) => Some(seq![c] + rest),
        _ => None,
    }
}

/// What the characters between the quotes of a JSON string denote. A quote or
/// a control character cannot stand there by itself, and a backslash needs an
/// escape after it.
pub open spec fn json_string(body: Seq<char>) -> Option<Seq<char>>
    decreases body.len(),
{
    if body.len() == 0 {
        Some(seq![])
    } else if body[0] == '"' || body[0] <= '\u{1F}' {
        None
    } else if body[0] != '\\' {
        then_read(Some(body[0]), json_string(body.skip(1)))
    } else if body.len() >= 6 && body[1] == 'u' {
        then_read(
            unicode_escape(body[2], body[3], body[4], body[5]),
            json_string(body.skip(6)),
        )
    } else if body.len() >= 2 {
        then_read(letter_escape(body[1]), json_string(body.skip(2)))
    } else {
        None
    }
}

/// Escaping goes character by character: two texts escaped one after the other
/// are the two in one.
pub proof fn lemma_escaped_concat(a: Seq<char>, b: Seq<char>)
    ensures
        escaped(a + b) == escaped(a) + escaped(b),
    decreases b.len(),
{
    if b.len() == 0 {
        assert(a + b =~= a);
        assert(escaped(a) + Seq::<char>::empty() =~= escaped(a));
    } else {
        lemma_escaped_concat(a, b.drop_last());
        assert((a + b).drop_last() =~= a + b.drop_last());
        assert(escaped(a) + escaped(b.drop_last()) + escaped_char(b.last()) =~= escaped(a) + (
        escaped(b.drop_last()) + escaped_char(b.last())));
    }
}

proof fn lemma_escaped_first(s: Seq<char>)
    requires
        s.len() > 0,
    ensures
        escaped(s) == escaped_char(s[0]) + escaped(s.drop_first()),
{
    let one = seq![s[0]];
    lemma_escaped_concat(one, s.drop_first());
    assert(s =~= one + s.drop_first());
    assert(one.drop_last() =~= seq![]);
    assert(escaped(one.drop_last()) =~= seq![]);
    assert(escaped(one) =~= escaped_char(s[0]));
}

/// A small number in hexadecimal digits reads back.
proof fn lemma_hex_digits(c: char)
    requires
        (c as int) < 0x20,
    ensures
        unicode_escape(
            '0',
            '0',
            small_hex_char(c as int / 16),
            small_hex_char(c as int % 16),
        ) == Some(c),
{
    let hi = c as int / 16;
    let lo = c as int % 16;
    assert(0 <= hi <= 1 && 0 <= lo < 16);
    assert(hex_value(small_hex_char(hi)) == Some(hi));
    assert(hex_value(small_hex_char(lo)) == Some(lo));
    assert(16 * hi + lo == c as int);
}

/// One escaped character reads back, whatever follows it.
proof fn lemma_escaped_char_reads(c: char, rest: Seq<char>)
    ensures
        json_string(escaped_char(c) + rest) == then_read(Some(c), json_string(rest)),
{
    let e = escaped_char(c);
    let body = e + rest;
    if e.len() == 1 {
        assert(body.skip(1) =~= rest);
    } else if e.len() == 2 {
        assert(body.skip(2) =~= rest);
    } else {
        assert(body.skip(6) =~= rest);
        lemma_hex_digits(c);
    }
}

/// An escaped text cannot break the document: between quotes it is one JSON
/// string, and that string is the text.
pub proof fn lemma_escaped_reads_back(s: Seq<char>)
    ensures
        json_string(escaped(s)) == Some(s),
    decreases s.len(),
{
    if s.len() > 0 {
        lemma_escaped_first(s);
        lemma_escaped_reads_back(s.drop_first());
        lemma_escaped_char_reads(s[0], escaped(s.drop_first()));
        assert(seq![s[0]] + s.drop_first() =~= s);
    }
}

// --- severity -------------------------------------------------------------------

/// The severity in a report is the highest among all findings, also among
/// those that were counted but not stored.
pub proof fn lemma_report_severity(v: SanitizerView)
    requires
        v.marks.len() <= v.toks().len(),
    ensures
        counted_severity(v.summary()) == worst(v.log().findings),
{
    lemma_summary_adds_up(v);
}

} // verus!
