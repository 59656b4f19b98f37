//! The classification table as mathematics: which class, severity and label
//! each token has.

use vstd::prelude::*;

use crate::bytes::{all_digits, digit_byte, SEMICOLON};
use crate::classify::{Class, Severity};
use crate::parser::{MalformedReason, StrKind};
use crate::parser_model::TokenView;

verus! {

/// A verdict with its label as a character sequence.
#[verifier::ext_equal]
pub struct VerdictView {
    pub class: Class,
    pub severity: Severity,
    pub label: Seq<char>,
}

/// A verdict from its parts.
pub open spec fn judged(class: Class, severity: Severity, label: Seq<char>) -> VerdictView {
    VerdictView { class, severity, label }
}

// --- fields and numbers -------------------------------------------------------

/// The first index at which `b` stands in `s`, or the length of `s`.
pub open spec fn find(s: Seq<u8>, b: u8) -> int
    decreases s.len(),
{
    if s.len() == 0 || s[0] == b {
        0
    } else {
        1 + find(s.drop_first(), b)
    }
}

/// The fields between the separators `;` of `s`.
pub open spec fn fields(s: Seq<u8>) -> Seq<Seq<u8>>
    decreases s.len(),
{
    let i = find(s, SEMICOLON);
    if 0 <= i < s.len() {
        seq![s.take(i)] + fields(s.skip(i + 1))
    } else {
        seq![s]
    }
}

/// The field that asks the terminal to answer.
pub open spec fn question() -> Seq<u8> {
    seq![0x3F]
}

/// The number that a sequence of decimal digits denotes.
pub open spec fn digits_value(s: Seq<u8>) -> nat
    decreases s.len(),
{
    if s.len() == 0 {
        0
    } else {
        digits_value(s.drop_last()) * 10 + (s.last() - 0x30) as nat
    }
}

/// The number that `s` spells: one to eight decimal digits and nothing else.
pub open spec fn number(s: Seq<u8>) -> Option<u32> {
    if 1 <= s.len() <= 8 && all_digits(s) {
        Some(digits_value(s) as u32)
    } else {
        None
    }
}

/// How many digits `s` starts with.
pub open spec fn digits_front(s: Seq<u8>) -> int
    decreases s.len(),
{
    if s.len() == 0 || !digit_byte(s[0]) {
        0
    } else {
        1 + digits_front(s.drop_first())
    }
}

/// The number that the digits at the front of `s` spell.
pub open spec fn leading_number_of(s: Seq<u8>) -> Option<u32> {
    number(s.take(digits_front(s)))
}

/// The selector of an operating system command: what its first field spells.
pub open spec fn osc_selector(payload: Seq<u8>) -> Option<u32> {
    number(payload.take(find(payload, SEMICOLON)))
}

/// What follows the first separator of an operating system command.
pub open spec fn osc_rest(payload: Seq<u8>) -> Seq<u8> {
    let i = find(payload, SEMICOLON);
    if i < payload.len() {
        payload.skip(i + 1)
    } else {
        seq![]
    }
}

/// The URI of an `OSC 8 ; params ; uri` payload, if it has that form.
pub open spec fn link_uri(payload: Seq<u8>) -> Option<Seq<u8>> {
    if seq![0x38u8, SEMICOLON].is_prefix_of(payload) {
        let rest = payload.skip(2);
        let i = find(rest, SEMICOLON);
        if i < rest.len() {
            Some(rest.skip(i + 1))
        } else {
            None
        }
    } else {
        None
    }
}

// --- the table ----------------------------------------------------------------

/// Bare control bytes.
pub open spec fn control_verdict(b: u8) -> VerdictView {
    match b {
        // LF, TAB, CR
        0x0A | 0x09 | 0x0D => judged(Class::Control, Severity::Benign, "whitespace"@),
        0x07 => judged(Class::Control, Severity::Low, "bell"@),
        0x08 => judged(Class::Control, Severity::Medium, "backspace"@),
        0x0B => judged(Class::Control, Severity::Medium, "vertical-tab"@),
        0x0C => judged(Class::Control, Severity::Medium, "form-feed"@),
        0x05 => judged(Class::Query, Severity::High, "enquiry"@),
        0x0E => judged(Class::Charset, Severity::High, "shift-out"@),
        0x0F => judged(Class::Charset, Severity::Medium, "shift-in"@),
        0x7F => judged(Class::Control, Severity::Medium, "delete"@),
        _ => judged(Class::Control, Severity::Low, "c0-control"@),
    }
}

/// A byte that styling parameters may hold: a digit, `;` or `:`.
pub open spec fn sgr_byte(b: u8) -> bool {
    digit_byte(b) || b == SEMICOLON || b == 0x3A
}

/// Are these parameters of plain styling?
pub open spec fn sgr_params(params: Seq<u8>) -> bool {
    forall|i: int| 0 <= i < params.len() ==> sgr_byte(#[trigger] params[i])
}

/// Control sequences.
pub open spec fn csi_verdict(params: Seq<u8>, intermediates: Seq<u8>, final_byte: u8) -> VerdictView {
    if intermediates.len() > 0 {
        if intermediates == seq![0x21u8] && final_byte == 0x70 {
            // CSI ! p
            judged(Class::Reset, Severity::High, "soft-reset"@)
        } else if intermediates == seq![0x20u8] && final_byte == 0x71 {
            // CSI SP q
            judged(Class::Mode, Severity::Medium, "cursor-style"@)
        } else {
            judged(Class::Unknown, Severity::Medium, "csi-unknown"@)
        }
    } else {
        match final_byte {
            // m
            0x6D => if sgr_params(params) {
                judged(Class::Sgr, Severity::Benign, "sgr"@)
            } else {
                judged(Class::Mode, Severity::Medium, "private-sgr"@)
            },
            // A B C D E F G H a d e f `
            0x41 | 0x42 | 0x43 | 0x44 | 0x45 | 0x46 | 0x47 | 0x48 | 0x61 | 0x64 | 0x65 | 0x66
            | 0x60 => judged(Class::Cursor, Severity::Medium, "cursor-move"@),
            // s u
            0x73 | 0x75 => judged(Class::Cursor, Severity::Medium, "cursor-save-restore"@),
            // J
            0x4A => judged(Class::Screen, Severity::Medium, "erase-display"@),
            // K
            0x4B => judged(Class::Screen, Severity::Medium, "erase-line"@),
            // L M P X @ b
            0x4C | 0x4D | 0x50 | 0x58 | 0x40 | 0x62 => judged(
                Class::Screen,
                Severity::Medium,
                "edit-line"@,
            ),
            // S T
            0x53 | 0x54 => judged(Class::Screen, Severity::Medium, "scroll"@),
            // r
            0x72 => judged(Class::Screen, Severity::Medium, "scroll-region"@),
            // h l
            0x68 | 0x6C => mode_verdict(params, final_byte == 0x68),
            // n
            0x6E => judged(Class::Query, Severity::High, "device-status-report"@),
            // c
            0x63 => judged(Class::Query, Severity::High, "device-attributes"@),
            // x
            0x78 => judged(Class::Query, Severity::High, "terminal-parameters"@),
            // t
            0x74 => window_verdict(params),
            _ => judged(Class::Unknown, Severity::Medium, "csi-unknown"@),
        }
    }
}

/// Mode switches: `h` sets, `l` resets, and `?` marks the private ones.
pub open spec fn mode_verdict(params: Seq<u8>, set: bool) -> VerdictView {
    if params.len() > 0 && params[0] == 0x3F {
        let label = match leading_number_of(params.skip(1)) {
            Some(47) | Some(1047) | Some(1049) => "alt-screen"@,
            Some(2004) => "bracketed-paste"@,
            Some(25) => "cursor-visibility"@,
            Some(2026) => "sync-update"@,
            Some(n) => if 1000 <= n <= 1016 {
                "mouse-tracking"@
            } else {
                private_mode_label(set)
            },
            None => private_mode_label(set),
        };
        judged(Class::Mode, Severity::High, label)
    } else {
        judged(Class::Mode, Severity::Medium, "ansi-mode"@)
    }
}

/// The label of a private mode that has no label of its own.
pub open spec fn private_mode_label(set: bool) -> Seq<char> {
    if set {
        "private-mode-set"@
    } else {
        "private-mode-reset"@
    }
}

/// Window operations.
pub open spec fn window_verdict(params: Seq<u8>) -> VerdictView {
    match leading_number_of(params) {
        Some(22) | Some(23) => judged(Class::Title, Severity::High, "title-stack"@),
        Some(11) | Some(13) | Some(14) | Some(18) | Some(19) | Some(20) | Some(21) => judged(
            Class::Query,
            Severity::High,
            "window-report"@,
        ),
        _ => judged(Class::Query, Severity::High, "window-op"@),
    }
}

/// Plain escape sequences.
pub open spec fn esc_verdict(intermediates: Seq<u8>, final_byte: u8) -> VerdictView {
    if intermediates.len() > 0 {
        match intermediates[0] {
            // ( ) * + - . /
            0x28 | 0x29 | 0x2A | 0x2B | 0x2D | 0x2E | 0x2F => judged(
                Class::Charset,
                Severity::High,
                "charset-designate"@,
            ),
            // %
            0x25 => judged(Class::Charset, Severity::High, "charset-select"@),
            // #
            0x23 => judged(Class::Screen, Severity::Medium, "dec-screen-test"@),
            _ => judged(Class::Unknown, Severity::Medium, "esc-unknown"@),
        }
    } else {
        match final_byte {
            // 7 8
            0x37 | 0x38 => judged(Class::Cursor, Severity::Medium, "cursor-save-restore"@),
            // D E M
            0x44 | 0x45 | 0x4D => judged(Class::Screen, Severity::Medium, "index"@),
            // c
            0x63 => judged(Class::Reset, Severity::High, "hard-reset"@),
            // = >
            0x3D | 0x3E => judged(Class::Mode, Severity::Medium, "keypad-mode"@),
            // N O
            0x4E | 0x4F => judged(Class::Charset, Severity::High, "single-shift"@),
            // n o | } ~
            0x6E | 0x6F | 0x7C | 0x7D | 0x7E => judged(
                Class::Charset,
                Severity::High,
                "locking-shift"@,
            ),
            // H
            0x48 => judged(Class::Screen, Severity::Medium, "tab-set"@),
            // Z
            0x5A => judged(Class::Query, Severity::High, "device-attributes"@),
            // backslash
            0x5C => judged(Class::Unknown, Severity::Low, "stray-terminator"@),
            _ => judged(Class::Unknown, Severity::Medium, "esc-unknown"@),
        }
    }
}

/// Complete string sequences.
pub open spec fn str_verdict(kind: StrKind, payload: Seq<u8>) -> VerdictView {
    match kind {
        StrKind::Osc => osc_verdict(payload),
        StrKind::Dcs => dcs_verdict(payload),
        StrKind::Apc => judged(Class::Dcs, Severity::High, "apc"@),
        StrKind::Pm => judged(Class::Dcs, Severity::High, "pm"@),
        StrKind::Sos => judged(Class::Dcs, Severity::High, "sos"@),
    }
}

/// Operating system commands.
pub open spec fn osc_verdict(payload: Seq<u8>) -> VerdictView {
    let parts = fields(osc_rest(payload));
    match osc_selector(payload) {
        Some(0) | Some(1) | Some(2) => judged(Class::Title, Severity::High, "title-set"@),
        Some(4) | Some(5) => judged(Class::Palette, Severity::Medium, "palette-set"@),
        Some(104) | Some(105) => judged(Class::Palette, Severity::Medium, "palette-reset"@),
        Some(8) => judged(Class::Hyperlink, Severity::Benign, "hyperlink"@),
        Some(52) => if parts.len() > 1 && parts[1] == question() {
            judged(Class::Clipboard, Severity::Critical, "clipboard-read"@)
        } else {
            judged(Class::Clipboard, Severity::Critical, "clipboard-write"@)
        },
        Some(7) => judged(Class::Unknown, Severity::Low, "cwd-report"@),
        Some(9) | Some(99) | Some(777) => judged(
            Class::Unknown,
            Severity::Medium,
            "desktop-notification"@,
        ),
        Some(133) => judged(Class::Unknown, Severity::Low, "semantic-prompt"@),
        Some(22) => judged(Class::Unknown, Severity::Low, "pointer-shape"@),
        Some(1337) => judged(Class::Dcs, Severity::Critical, "iterm2-proprietary"@),
        Some(n) => if 10 <= n <= 19 {
            if parts.contains(question()) {
                judged(Class::Query, Severity::High, "color-query"@)
            } else {
                judged(Class::Palette, Severity::Medium, "default-colors"@)
            }
        } else if 110 <= n <= 119 {
            judged(Class::Palette, Severity::Medium, "default-colors-reset"@)
        } else {
            judged(Class::Unknown, Severity::Medium, "osc-unknown"@)
        },
        None => judged(Class::Unknown, Severity::Medium, "osc-unknown"@),
    }
}

/// Does a `q` stand among the first eight bytes?
pub open spec fn early_q(payload: Seq<u8>) -> bool {
    exists|i: int| 0 <= i < payload.len() && i < 8 && #[trigger] payload[i] == 0x71
}

/// Device control strings.
pub open spec fn dcs_verdict(payload: Seq<u8>) -> VerdictView {
    if seq![0x24u8, 0x71].is_prefix_of(payload) {
        // $q
        judged(Class::Dcs, Severity::Critical, "decrqss"@)
    } else if seq![0x2Bu8, 0x71].is_prefix_of(payload) {
        // +q
        judged(Class::Dcs, Severity::Critical, "xtgettcap"@)
    } else if seq![0x74u8, 0x6D, 0x75, 0x78, 0x3B].is_prefix_of(payload) {
        // tmux;
        judged(Class::Dcs, Severity::Critical, "tmux-passthrough"@)
    } else if early_q(payload) {
        judged(Class::Dcs, Severity::Medium, "sixel"@)
    } else {
        judged(Class::Dcs, Severity::High, "dcs"@)
    }
}

/// Sequences that never completed correctly.
pub open spec fn malformed_verdict(reason: MalformedReason) -> VerdictView {
    let label = match reason {
        MalformedReason::Truncated => "truncated-sequence"@,
        MalformedReason::AbortedByControl => "spliced-sequence"@,
        MalformedReason::Oversized => "oversized-sequence"@,
        MalformedReason::BadByte => "corrupt-sequence"@,
    };
    judged(Class::Malformed, Severity::Medium, label)
}

/// The verdict on a token.
pub open spec fn verdict_on(t: TokenView) -> VerdictView {
    match t {
        TokenView::Text(_) => judged(Class::Control, Severity::Benign, "text"@),
        TokenView::Control(b) => control_verdict(b),
        TokenView::C1(_) => judged(Class::C1, Severity::High, "c1-control"@),
        TokenView::Csi { params, intermediates, final_byte, .. } => csi_verdict(
            params,
            intermediates,
            final_byte,
        ),
        TokenView::Esc { intermediates, final_byte, .. } => esc_verdict(intermediates, final_byte),
        TokenView::Str { kind, payload, overlong, .. } => if overlong {
            judged(Class::Malformed, Severity::High, "oversized-string"@)
        } else {
            str_verdict(kind, payload)
        },
        TokenView::Malformed { reason, .. } => malformed_verdict(reason),
    }
}

} // verus!
