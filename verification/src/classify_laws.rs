//! What holds of the classification table as a whole.

use vstd::prelude::*;

use crate::bytes::{all_digits, digit_byte, CR, LF, TAB};
use crate::classify::{Class, Severity};
use crate::classify_model::{
    control_verdict, csi_verdict, digits_front, digits_value, esc_verdict, find, malformed_verdict,
    osc_verdict, str_verdict, verdict_on,
};
use crate::parser::{MalformedReason, StrKind};
use crate::parser_model::TokenView;

verus! {

/// `find` is the first place of a byte.
pub proof fn lemma_find(s: Seq<u8>, b: u8, i: int)
    requires
        0 <= i <= s.len(),
        forall|j: int| 0 <= j < i ==> s[j] != b,
        i < s.len() ==> s[i] == b,
    ensures
        find(s, b) == i,
    decreases s.len(),
{
    if s.len() > 0 && s[0] != b {
        lemma_find(s.drop_first(), b, i - 1);
    }
}

/// `digits_front` is the place of the first byte that is no digit.
pub proof fn lemma_digits_front(s: Seq<u8>, i: int)
    requires
        0 <= i <= s.len(),
        forall|j: int| 0 <= j < i ==> digit_byte(#[trigger] s[j]),
        i < s.len() ==> !digit_byte(s[i]),
    ensures
        digits_front(s) == i,
    decreases s.len(),
{
    if s.len() > 0 && digit_byte(s[0]) {
        assert forall|j: int| 0 <= j < i - 1 implies digit_byte(#[trigger] s.drop_first()[j]) by {
            assert(s.drop_first()[j] == s[j + 1]);
        }
        lemma_digits_front(s.drop_first(), i - 1);
    }
}

/// Ten to the power `n`.
spec fn power_of_ten(n: nat) -> nat
    decreases n,
{
    if n == 0 {
        1
    } else {
        10 * power_of_ten((n - 1) as nat)
    }
}

proof fn lemma_digits_below(s: Seq<u8>)
    requires
        all_digits(s),
    ensures
        digits_value(s) < power_of_ten(s.len()),
    decreases s.len(),
{
    if s.len() > 0 {
        assert forall|j: int| 0 <= j < s.len() - 1 implies digit_byte(
            #[trigger] s.drop_last()[j],
        ) by {
            assert(s.drop_last()[j] == s[j]);
        }
        lemma_digits_below(s.drop_last());
        assert(digit_byte(s[s.len() - 1]));
    }
}

/// Up to seven digits leave room for one more.
pub proof fn lemma_digits_bound(s: Seq<u8>)
    requires
        all_digits(s),
        s.len() <= 7,
    ensures
        digits_value(s) < 10_000_000,
{
    lemma_digits_below(s);
    reveal_with_fuel(power_of_ten, 9);
}

/// What tells the class names apart: length and first two letters.
spec fn name_key(name: Seq<char>) -> (int, char, char) {
    (name.len() as int, name[0], name[1])
}

spec fn class_key(c: Class) -> (int, char, char) {
    match c {
        Class::Sgr => (3, 's', 'g'),
        Class::Cursor => (6, 'c', 'u'),
        Class::Screen => (6, 's', 'c'),
        Class::Mode => (4, 'm', 'o'),
        Class::Title => (5, 't', 'i'),
        Class::Clipboard => (9, 'c', 'l'),
        Class::Palette => (7, 'p', 'a'),
        Class::Hyperlink => (9, 'h', 'y'),
        Class::Query => (5, 'q', 'u'),
        Class::Dcs => (3, 'd', 'c'),
        Class::Charset => (7, 'c', 'h'),
        Class::Reset => (5, 'r', 'e'),
        Class::Control => (7, 'c', 'o'),
        Class::C1 => (2, 'c', '1'),
        Class::Unknown => (7, 'u', 'n'),
        Class::Malformed => (9, 'm', 'a'),
    }
}

proof fn lemma_class_key(c: Class)
    ensures
        name_key(c.title()) == class_key(c),
{
    match c {
        Class::Sgr => reveal_strlit("sgr"),
        Class::Cursor => reveal_strlit("cursor"),
        Class::Screen => reveal_strlit("screen"),
        Class::Mode => reveal_strlit("mode"),
        Class::Title => reveal_strlit("title"),
        Class::Clipboard => reveal_strlit("clipboard"),
        Class::Palette => reveal_strlit("palette"),
        Class::Hyperlink => reveal_strlit("hyperlink"),
        Class::Query => reveal_strlit("query"),
        Class::Dcs => reveal_strlit("dcs"),
        Class::Charset => reveal_strlit("charset"),
        Class::Reset => reveal_strlit("reset"),
        Class::Control => reveal_strlit("control"),
        Class::C1 => reveal_strlit("c1"),
        Class::Unknown => reveal_strlit("unknown"),
        Class::Malformed => reveal_strlit("malformed"),
    }
}

/// Class names round-trip: the name of a class names that class and no other.
pub proof fn lemma_class_named(c: Class)
    ensures
        Class::named(c.title()) == Some(c),
        forall|d: Class| #[trigger] d.title() == c.title() ==> d == c,
{
    assert forall|d: Class| #[trigger] d.title() == c.title() implies d == c by {
        lemma_class_key(c);
        lemma_class_key(d);
    }
}

// --- the table ----------------------------------------------------------------

/// A printable ASCII character other than the space.
pub open spec fn label_char(c: char) -> bool {
    '!' <= c && c <= '~'
}

/// A label is short and consists of printable ASCII characters.
pub open spec fn label_ok(label: Seq<char>) -> bool {
    &&& 0 < label.len() <= 20
    &&& forall|i: int| 0 <= i < label.len() ==> label_char(#[trigger] label[i])
}

proof fn lemma_control_label(b: u8)
    ensures
        label_ok(control_verdict(b).label),
{
    reveal_strlit("backspace");
    reveal_strlit("bell");
    reveal_strlit("c0-control");
    reveal_strlit("delete");
    reveal_strlit("enquiry");
    reveal_strlit("form-feed");
    reveal_strlit("shift-in");
    reveal_strlit("shift-out");
    reveal_strlit("vertical-tab");
    reveal_strlit("whitespace");
}

proof fn lemma_csi_label(params: Seq<u8>, intermediates: Seq<u8>, final_byte: u8)
    ensures
        label_ok(csi_verdict(params, intermediates, final_byte).label),
{
    reveal_strlit("csi-unknown");
    reveal_strlit("cursor-move");
    reveal_strlit("cursor-save-restore");
    reveal_strlit("cursor-style");
    reveal_strlit("device-attributes");
    reveal_strlit("device-status-report");
    reveal_strlit("edit-line");
    reveal_strlit("erase-display");
    reveal_strlit("erase-line");
    reveal_strlit("private-sgr");
    reveal_strlit("scroll");
    reveal_strlit("scroll-region");
    reveal_strlit("sgr");
    reveal_strlit("soft-reset");
    reveal_strlit("terminal-parameters");
    reveal_strlit("alt-screen");
    reveal_strlit("ansi-mode");
    reveal_strlit("bracketed-paste");
    reveal_strlit("cursor-visibility");
    reveal_strlit("mouse-tracking");
    reveal_strlit("sync-update");
    reveal_strlit("private-mode-reset");
    reveal_strlit("private-mode-set");
    reveal_strlit("title-stack");
    reveal_strlit("window-op");
    reveal_strlit("window-report");
}

proof fn lemma_esc_label(intermediates: Seq<u8>, final_byte: u8)
    ensures
        label_ok(esc_verdict(intermediates, final_byte).label),
{
    reveal_strlit("charset-designate");
    reveal_strlit("charset-select");
    reveal_strlit("cursor-save-restore");
    reveal_strlit("dec-screen-test");
    reveal_strlit("device-attributes");
    reveal_strlit("esc-unknown");
    reveal_strlit("hard-reset");
    reveal_strlit("index");
    reveal_strlit("keypad-mode");
    reveal_strlit("locking-shift");
    reveal_strlit("single-shift");
    reveal_strlit("stray-terminator");
    reveal_strlit("tab-set");
}

proof fn lemma_osc_label(payload: Seq<u8>)
    ensures
        label_ok(osc_verdict(payload).label),
{
    reveal_strlit("clipboard-read");
    reveal_strlit("clipboard-write");
    reveal_strlit("color-query");
    reveal_strlit("cwd-report");
    reveal_strlit("default-colors");
    reveal_strlit("default-colors-reset");
    reveal_strlit("desktop-notification");
    reveal_strlit("hyperlink");
    reveal_strlit("iterm2-proprietary");
    reveal_strlit("osc-unknown");
    reveal_strlit("palette-reset");
    reveal_strlit("palette-set");
    reveal_strlit("pointer-shape");
    reveal_strlit("semantic-prompt");
    reveal_strlit("title-set");
}

proof fn lemma_str_label(kind: StrKind, payload: Seq<u8>)
    ensures
        label_ok(str_verdict(kind, payload).label),
{
    reveal_strlit("apc");
    reveal_strlit("pm");
    reveal_strlit("sos");
    reveal_strlit("dcs");
    reveal_strlit("decrqss");
    reveal_strlit("sixel");
    reveal_strlit("tmux-passthrough");
    reveal_strlit("xtgettcap");
    if kind == StrKind::Osc {
        lemma_osc_label(payload);
    }
}

proof fn lemma_malformed_label(reason: MalformedReason)
    ensures
        label_ok(malformed_verdict(reason).label),
{
    reveal_strlit("corrupt-sequence");
    reveal_strlit("oversized-sequence");
    reveal_strlit("spliced-sequence");
    reveal_strlit("truncated-sequence");
}

/// Every label is short and printable, so a marker made of it is plain text.
pub proof fn lemma_label_ok(t: TokenView)
    ensures
        label_ok(verdict_on(t).label),
{
    match t {
        TokenView::Text(_) => reveal_strlit("text"),
        TokenView::Control(b) => lemma_control_label(b),
        TokenView::C1(_) => reveal_strlit("c1-control"),
        TokenView::Csi { params, intermediates, final_byte, .. } => lemma_csi_label(
            params,
            intermediates,
            final_byte,
        ),
        TokenView::Esc { intermediates, final_byte, .. } => lemma_esc_label(
            intermediates,
            final_byte,
        ),
        TokenView::Str { kind, payload, overlong, .. } => {
            reveal_strlit("oversized-string");
            lemma_str_label(kind, payload);
        },
        TokenView::Malformed { reason, .. } => lemma_malformed_label(reason),
    }
}

/// The severities that a class can have when one of its sequences is removed.
pub open spec fn severity_range(class: Class, severity: Severity) -> bool {
    match class {
        Class::Sgr => severity == Severity::Benign,
        Class::Hyperlink => severity == Severity::Benign || severity == Severity::Medium,
        Class::Cursor => severity == Severity::Medium,
        Class::Screen => severity == Severity::Medium,
        Class::Mode => severity == Severity::Medium || severity == Severity::High,
        Class::Title => severity == Severity::High,
        Class::Clipboard => severity == Severity::Critical,
        Class::Palette => severity == Severity::Medium,
        Class::Query => severity == Severity::High,
        Class::Dcs => Severity::Medium.rank() <= severity.rank() <= Severity::Critical.rank(),
        Class::Charset => severity == Severity::Medium || severity == Severity::High,
        Class::Reset => severity == Severity::High,
        Class::Control => severity == Severity::Low || severity == Severity::Medium,
        Class::C1 => severity == Severity::High,
        Class::Unknown => severity == Severity::Low || severity == Severity::Medium,
        Class::Malformed => severity == Severity::Medium || severity == Severity::High,
    }
}

/// Is this text, or whitespace that passes?
pub open spec fn harmless(t: TokenView) -> bool {
    match t {
        TokenView::Text(_) => true,
        TokenView::Control(b) => b == LF || b == TAB || b == CR,
        _ => false,
    }
}

/// The class of a sequence bounds its severity. Text and whitespace are
/// harmless.
pub proof fn lemma_severity_of_class(t: TokenView)
    ensures
        !harmless(t) ==> severity_range(verdict_on(t).class, verdict_on(t).severity),
        harmless(t) ==> verdict_on(t).severity == Severity::Benign,
{
}

/// Only malformed and overlong sequences are classed as malformed, and all of
/// them are.
pub proof fn lemma_malformed_class(t: TokenView)
    ensures
        verdict_on(t).class == Class::Malformed <==> (t is Malformed || (t matches TokenView::Str {
            overlong,
            ..
        } && overlong)),
{
}

/// Hyperlinks are operating system commands that are not overlong.
pub proof fn lemma_hyperlink_class(t: TokenView)
    ensures
        verdict_on(t).class == Class::Hyperlink ==> (t matches TokenView::Str {
            kind,
            overlong,
            ..
        } && kind == StrKind::Osc && !overlong),
{
}

/// The names of thresholds name one level each, and `any` is the
/// lowest of them.
pub proof fn lemma_severity_named(severity: Severity)
    ensures
        severity != Severity::Benign ==> Severity::named(severity.title()) == Some(severity),
        Severity::named("any"@) == Some(Severity::Low),
        Severity::named(Severity::Benign.title()) is None,
{
    reveal_strlit("none");
    reveal_strlit("low");
    reveal_strlit("any");
    reveal_strlit("medium");
    reveal_strlit("high");
    reveal_strlit("critical");
    assert("none"@[0] == 'n' && "none"@.len() == 4);
    assert("low"@[0] == 'l' && "low"@.len() == 3);
    assert("any"@[0] == 'a' && "any"@.len() == 3);
    assert("medium"@[0] == 'm');
    assert("high"@[0] == 'h');
    assert("critical"@[0] == 'c');
}

} // verus!
