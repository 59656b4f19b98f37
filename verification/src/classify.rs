//! Semantic classification of parsed tokens.
//!
//! Every token gets a [`Class`] (what the sequence *does*, the unit the
//! policy engine reasons about) and a [`Severity`] (how dangerous it is when
//! it arrives in untrusted output, the unit `scan --fail-on` gates on).
//! Classification is purely descriptive: it never decides keep-vs-strip;
//! that is [`crate::policy`]'s job.

use vstd::prelude::*;
use vstd::slice::slice_subrange;

use crate::bytes::{all_digits, digit_byte, find_byte, is_byte, starts_with, SEMICOLON};
use crate::classify_laws::{lemma_class_named, lemma_digits_bound, lemma_digits_front};
use crate::classify_model::{
    control_verdict, csi_verdict, dcs_verdict, digits_value, early_q, esc_verdict, fields, find,
    judged, leading_number_of, link_uri, malformed_verdict, mode_verdict, number, osc_rest,
    osc_selector, osc_verdict, question, sgr_byte, sgr_params, str_verdict, verdict_on,
    window_verdict, VerdictView,
};
use crate::parser::{MalformedReason, StrKind, Token};
use crate::text::str_eq;

verus! {

/// Semantic class of a sequence. These are the names accepted by
/// `--allow` / `--deny` on the command line.
#[derive(Debug, Clone, Copy, PartialEq, Eq, PartialOrd, Ord, Structural)]
pub enum Class {
    /// Select Graphic Rendition: colors, bold, underline... (`CSI ... m`).
    Sgr,
    /// Cursor positioning and save/restore (`CSI A/B/C/D/H...`, `ESC 7/8`).
    Cursor,
    /// Erase, scroll, and insert/delete operations (`CSI J/K/L/M/P/S/T/X/@`).
    Screen,
    /// Terminal mode switches: alt screen, mouse tracking, bracketed paste,
    /// keypad modes (`CSI ... h/l`, `ESC = / >`).
    Mode,
    /// Window/icon title changes (`OSC 0/1/2`, title stack via `CSI 22/23 t`).
    Title,
    /// Clipboard read/write (`OSC 52`).
    Clipboard,
    /// Color palette and default-color changes (`OSC 4/10..19/104/110..119`).
    Palette,
    /// Hyperlinks (`OSC 8`).
    Hyperlink,
    /// Anything that makes the terminal *answer* on stdin: DA, DSR, window
    /// ops, ENQ answerback; the raw material of response-injection attacks.
    Query,
    /// String-payload channels: DCS, APC, PM, SOS (DECRQSS, sixel, kitty
    /// graphics, tmux passthrough, XTGETTCAP...).
    Dcs,
    /// Character-set designation and shifts (`ESC ( 0`, SI/SO, SS2/SS3...).
    Charset,
    /// Full or soft terminal reset (`ESC c`, `CSI ! p`).
    Reset,
    /// Bare C0 control bytes and DEL (BEL, BS, VT, FF...). `\n`, `\t` and
    /// `\r` belong here too but are hardwired safe in the sanitizer.
    Control,
    /// Standalone raw 8-bit C1 control bytes.
    C1,
    /// Well-formed but unrecognized sequences.
    Unknown,
    /// Truncated, spliced, or oversized sequences. Never re-emittable.
    Malformed,
}

/// All classes, in display order for `seqsafe classes` and reports.
pub const ALL_CLASSES: [Class; 16] = [
    Class::Sgr,
    Class::Hyperlink,
    Class::Cursor,
    Class::Screen,
    Class::Mode,
    Class::Title,
    Class::Clipboard,
    Class::Palette,
    Class::Query,
    Class::Dcs,
    Class::Charset,
    Class::Reset,
    Class::Control,
    Class::C1,
    Class::Unknown,
    Class::Malformed,
];

impl Class {
    /// The place of the class in [`ALL_CLASSES`].
    pub open spec fn place(self) -> int {
        match self {
            Class::Sgr => 0,
            Class::Hyperlink => 1,
            Class::Cursor => 2,
            Class::Screen => 3,
            Class::Mode => 4,
            Class::Title => 5,
            Class::Clipboard => 6,
            Class::Palette => 7,
            Class::Query => 8,
            Class::Dcs => 9,
            Class::Charset => 10,
            Class::Reset => 11,
            Class::Control => 12,
            Class::C1 => 13,
            Class::Unknown => 14,
            Class::Malformed => 15,
        }
    }

    /// The stable lowercase name.
    pub open spec fn title(self) -> Seq<char> {
        match self {
            Class::Sgr => "sgr"@,
            Class::Cursor => "cursor"@,
            Class::Screen => "screen"@,
            Class::Mode => "mode"@,
            Class::Title => "title"@,
            Class::Clipboard => "clipboard"@,
            Class::Palette => "palette"@,
            Class::Hyperlink => "hyperlink"@,
            Class::Query => "query"@,
            Class::Dcs => "dcs"@,
            Class::Charset => "charset"@,
            Class::Reset => "reset"@,
            Class::Control => "control"@,
            Class::C1 => "c1"@,
            Class::Unknown => "unknown"@,
            Class::Malformed => "malformed"@,
        }
    }

    /// The class that bears a name, if one does.
    pub open spec fn named(name: Seq<char>) -> Option<Class> {
        if exists|c: Class| #[trigger] c.title() == name {
            Some(choose|c: Class| #[trigger] c.title() == name)
        } else {
            None
        }
    }

    /// The one-line description.
    pub open spec fn description(self) -> Seq<char> {
        match self {
            Class::Sgr => ABOUT_SGR@,
            Class::Cursor => ABOUT_CURSOR@,
            Class::Screen => ABOUT_SCREEN@,
            Class::Mode => ABOUT_MODE@,
            Class::Title => ABOUT_TITLE@,
            Class::Clipboard => ABOUT_CLIPBOARD@,
            Class::Palette => ABOUT_PALETTE@,
            Class::Hyperlink => ABOUT_HYPERLINK@,
            Class::Query => ABOUT_QUERY@,
            Class::Dcs => ABOUT_DCS@,
            Class::Charset => ABOUT_CHARSET@,
            Class::Reset => ABOUT_RESET@,
            Class::Control => ABOUT_CONTROL@,
            Class::C1 => ABOUT_C1@,
            Class::Unknown => ABOUT_UNKNOWN@,
            Class::Malformed => ABOUT_MALFORMED@,
        }
    }

    /// Stable lowercase name used on the CLI and in JSON output.
    pub fn name(self) -> (name: &'static str)
        ensures
            name@ == self.title(),
    {
        match self {
            Class::Sgr => "sgr",
            Class::Cursor => "cursor",
            Class::Screen => "screen",
            Class::Mode => "mode",
            Class::Title => "title",
            Class::Clipboard => "clipboard",
            Class::Palette => "palette",
            Class::Hyperlink => "hyperlink",
            Class::Query => "query",
            Class::Dcs => "dcs",
            Class::Charset => "charset",
            Class::Reset => "reset",
            Class::Control => "control",
            Class::C1 => "c1",
            Class::Unknown => "unknown",
            Class::Malformed => "malformed",
        }
    }

    /// Parse a CLI class name.
    pub fn from_name(name: &str) -> (class: Option<Class>)
        ensures
            class == Class::named(name@),
            forall|c: Class| class == Some(c) <==> #[trigger] c.title() == name@,
    {
        let mut i: usize = 0;
        while i < 16
            invariant
                i <= 16,
                forall|c: Class| c.place() < i ==> #[trigger] c.title() != name@,
            decreases 16 - i,
        {
            let class = ALL_CLASSES[i];
            proof {
                lemma_place(class);
            }
            if str_eq(class.name(), name) {
                proof {
                    lemma_class_named(class);
                    assert forall|c: Class| #[trigger] c.title() == name@ implies c == class by {
                        lemma_class_named(c);
                    }
                }
                return Some(class);
            }
            assert forall|c: Class| c.place() < i + 1 implies #[trigger] c.title() != name@ by {
                lemma_place(c);
            }
            i += 1;
        }
        None
    }

    /// One-line description shown by `seqsafe classes` and `explain`.
    pub fn describe(self) -> (text: &'static str)
        ensures
            text@ == self.description(),
    {
        match self {
            Class::Sgr => ABOUT_SGR,
            Class::Cursor => ABOUT_CURSOR,
            Class::Screen => ABOUT_SCREEN,
            Class::Mode => ABOUT_MODE,
            Class::Title => ABOUT_TITLE,
            Class::Clipboard => ABOUT_CLIPBOARD,
            Class::Palette => ABOUT_PALETTE,
            Class::Hyperlink => ABOUT_HYPERLINK,
            Class::Query => ABOUT_QUERY,
            Class::Dcs => ABOUT_DCS,
            Class::Charset => ABOUT_CHARSET,
            Class::Reset => ABOUT_RESET,
            Class::Control => ABOUT_CONTROL,
            Class::C1 => ABOUT_C1,
            Class::Unknown => ABOUT_UNKNOWN,
            Class::Malformed => ABOUT_MALFORMED,
        }
    }
}

/// [`ALL_CLASSES`] lists every class exactly once, each at its place.
pub proof fn lemma_place(c: Class)
    ensures
        0 <= c.place() < 16,
        ALL_CLASSES@[c.place()] == c,
        forall|i: int| 0 <= i < 16 ==> (#[trigger] ALL_CLASSES@[i]).place() == i,
        ALL_CLASSES@.len() == 16,
{
    assert(ALL_CLASSES@[0] == Class::Sgr);
    assert(ALL_CLASSES@[1] == Class::Hyperlink);
    assert(ALL_CLASSES@[2] == Class::Cursor);
    assert(ALL_CLASSES@[3] == Class::Screen);
    assert(ALL_CLASSES@[4] == Class::Mode);
    assert(ALL_CLASSES@[5] == Class::Title);
    assert(ALL_CLASSES@[6] == Class::Clipboard);
    assert(ALL_CLASSES@[7] == Class::Palette);
    assert(ALL_CLASSES@[8] == Class::Query);
    assert(ALL_CLASSES@[9] == Class::Dcs);
    assert(ALL_CLASSES@[10] == Class::Charset);
    assert(ALL_CLASSES@[11] == Class::Reset);
    assert(ALL_CLASSES@[12] == Class::Control);
    assert(ALL_CLASSES@[13] == Class::C1);
    assert(ALL_CLASSES@[14] == Class::Unknown);
    assert(ALL_CLASSES@[15] == Class::Malformed);
}

pub const ABOUT_SGR: &'static str = "colors and text styling (CSI ... m); the thing worth keeping";

pub const ABOUT_CURSOR: &'static str = "cursor movement lets output overwrite earlier, already-trusted lines";

pub const ABOUT_SCREEN: &'static str = "erase/scroll/insert can hide evidence or displace what you just read";

pub const ABOUT_MODE: &'static str = "alt screen, mouse tracking and bracketed-paste switches change how the terminal behaves after the output ends";

pub const ABOUT_TITLE: &'static str = "window titles persist after the output and are spoofing bait for humans and prompts";

pub const ABOUT_CLIPBOARD: &'static str = "OSC 52 writes (or reads) your clipboard; the classic paste-a-command attack";

pub const ABOUT_PALETTE: &'static str = "palette changes can render later text invisible (foreground = background)";

pub const ABOUT_HYPERLINK: &'static str = "OSC 8 hyperlinks; safe schemes are kept, anything else is stripped";

pub const ABOUT_QUERY: &'static str = "device queries make the terminal type an answer into stdin, which the foreground program reads as input";

pub const ABOUT_DCS: &'static str = "DCS/APC/PM/SOS payload channels: DECRQSS, XTGETTCAP, graphics, tmux passthrough — high-bandwidth and terminal-specific";

pub const ABOUT_CHARSET: &'static str = "charset designation remaps glyphs so the bytes you audit are not the glyphs you see";

pub const ABOUT_RESET: &'static str = "full/soft resets wipe terminal state including your scrollback settings";

pub const ABOUT_CONTROL: &'static str = "bare control bytes: BEL rings, BS overwrites, VT/FF move vertically";

pub const ABOUT_C1: &'static str = "raw 8-bit C1 controls; legitimate UTF-8 output never contains them standalone";

pub const ABOUT_UNKNOWN: &'static str = "well-formed sequences seqsafe does not recognize; stripped on principle";

pub const ABOUT_MALFORMED: &'static str = "truncated/spliced/oversized sequences; always stripped, cannot be allowed";

/// How dangerous a finding is. Ordered so `>=` comparisons gate correctly.
#[derive(Debug, Clone, Copy, PartialEq, Eq, Ord, Structural)]
pub enum Severity {
    /// Harmless (level `none`); kept sequences and plain whitespace.
    Benign,
    Low,
    Medium,
    High,
    Critical,
}

impl Severity {
    /// The level's place in the order.
    pub open spec fn rank(self) -> int {
        match self {
            Severity::Benign => 0,
            Severity::Low => 1,
            Severity::Medium => 2,
            Severity::High => 3,
            Severity::Critical => 4,
        }
    }

    /// The level's name.
    pub open spec fn title(self) -> Seq<char> {
        match self {
            Severity::Benign => "none"@,
            Severity::Low => "low"@,
            Severity::Medium => "medium"@,
            Severity::High => "high"@,
            Severity::Critical => "critical"@,
        }
    }

    /// The threshold that a name stands for: the name of a level above
    /// harmless, or `any` for the lowest of them.
    pub open spec fn named(name: Seq<char>) -> Option<Severity> {
        if name == "low"@ || name == "any"@ {
            Some(Severity::Low)
        } else if name == "medium"@ {
            Some(Severity::Medium)
        } else if name == "high"@ {
            Some(Severity::High)
        } else if name == "critical"@ {
            Some(Severity::Critical)
        } else {
            None
        }
    }

    fn level(self) -> (level: u8)
        ensures
            level == self.rank(),
    {
        match self {
            Severity::Benign => 0,
            Severity::Low => 1,
            Severity::Medium => 2,
            Severity::High => 3,
            Severity::Critical => 4,
        }
    }

    pub fn name(self) -> (name: &'static str)
        ensures
            name@ == self.title(),
    {
        match self {
            Severity::Benign => "none",
            Severity::Low => "low",
            Severity::Medium => "medium",
            Severity::High => "high",
            Severity::Critical => "critical",
        }
    }

    /// Parse a `--fail-on` level. `any` means "any finding at all".
    pub fn from_name(name: &str) -> (severity: Option<Severity>)
        ensures
            severity == Severity::named(name@),
    {
        if str_eq(name, "low") || str_eq(name, "any") {
            Some(Severity::Low)
        } else if str_eq(name, "medium") {
            Some(Severity::Medium)
        } else if str_eq(name, "high") {
            Some(Severity::High)
        } else if str_eq(name, "critical") {
            Some(Severity::Critical)
        } else {
            None
        }
    }
}

impl PartialOrd for Severity {
    fn partial_cmp(&self, other: &Self) -> (order: Option<core::cmp::Ordering>) {
        let a = self.level();
        let b = other.level();
        if a < b {
            Some(core::cmp::Ordering::Less)
        } else if a == b {
            Some(core::cmp::Ordering::Equal)
        } else {
            Some(core::cmp::Ordering::Greater)
        }
    }
}

impl vstd::std_specs::cmp::PartialOrdSpecImpl for Severity {
    open spec fn obeys_partial_cmp_spec() -> bool {
        true
    }

    open spec fn partial_cmp_spec(&self, other: &Self) -> Option<core::cmp::Ordering> {
        if self.rank() < other.rank() {
            Some(core::cmp::Ordering::Less)
        } else if self.rank() == other.rank() {
            Some(core::cmp::Ordering::Equal)
        } else {
            Some(core::cmp::Ordering::Greater)
        }
    }
}

/// The classifier's judgement on one token.
#[derive(Debug, Clone, PartialEq, Eq)]
pub struct Verdict {
    pub class: Class,
    pub severity: Severity,
    /// Short stable identifier for *what* the sequence is (`osc52-write`,
    /// `alt-screen`, `decrqss`...), more specific than the class.
    pub label: &'static str,
}

impl View for Verdict {
    type V = VerdictView;

    open spec fn view(&self) -> VerdictView {
        judged(self.class, self.severity, self.label@)
    }
}

fn v(class: Class, severity: Severity, label: &'static str) -> (verdict: Verdict)
    ensures
        verdict@ == judged(class, severity, label@),
{
    Verdict { class, severity, label }
}

/// Classify one token. [`Token::Text`] is not classified (it is always kept).
pub fn classify(token: &Token) -> (verdict: Verdict)
    ensures
        verdict@ == verdict_on(token@),
{
    match token {
        Token::Text(_) => v(Class::Control, Severity::Benign, "text"),
        Token::Control(b) => classify_control(*b),
        Token::C1(_) => v(Class::C1, Severity::High, "c1-control"),
        Token::Csi { params, intermediates, final_byte, .. } => classify_csi(
            params.as_slice(),
            intermediates.as_slice(),
            *final_byte,
        ),
        Token::Esc { intermediates, final_byte, .. } => classify_esc(
            intermediates.as_slice(),
            *final_byte,
        ),
        Token::Str { kind, payload, overlong, .. } => {
            if *overlong {
                // An 8 KiB+ string payload is not styling; treat as hostile.
                v(Class::Malformed, Severity::High, "oversized-string")
            } else {
                classify_str(*kind, payload.as_slice())
            }
        },
        Token::Malformed { reason, .. } => classify_malformed(*reason),
    }
}

/// Classify a bare control byte.
pub fn classify_control(b: u8) -> (verdict: Verdict)
    ensures
        verdict@ == control_verdict(b),
{
    match b {
        // LF, TAB, CR
        0x0A | 0x09 | 0x0D => v(Class::Control, Severity::Benign, "whitespace"),
        0x07 => v(Class::Control, Severity::Low, "bell"),
        0x08 => v(Class::Control, Severity::Medium, "backspace"),
        0x0B => v(Class::Control, Severity::Medium, "vertical-tab"),
        0x0C => v(Class::Control, Severity::Medium, "form-feed"),
        // ENQ triggers the answerback string: the terminal types into stdin.
        0x05 => v(Class::Query, Severity::High, "enquiry"),
        // SO/SI switch between G0/G1 charsets: glyph remapping.
        0x0E => v(Class::Charset, Severity::High, "shift-out"),
        0x0F => v(Class::Charset, Severity::Medium, "shift-in"),
        0x7F => v(Class::Control, Severity::Medium, "delete"),
        _ => v(Class::Control, Severity::Low, "c0-control"),
    }
}

fn classify_csi(params: &[u8], intermediates: &[u8], final_byte: u8) -> (verdict: Verdict)
    ensures
        verdict@ == csi_verdict(params@, intermediates@, final_byte),
{
    if intermediates.len() > 0 {
        if is_byte(intermediates, 0x21) && final_byte == 0x70 {
            // CSI ! p
            return v(Class::Reset, Severity::High, "soft-reset");
        }
        if is_byte(intermediates, 0x20) && final_byte == 0x71 {
            // CSI SP q
            return v(Class::Mode, Severity::Medium, "cursor-style");
        }
        return v(Class::Unknown, Severity::Medium, "csi-unknown");
    }
    match final_byte {
        // m
        0x6D => {
            if valid_sgr_params(params) {
                v(Class::Sgr, Severity::Benign, "sgr")
            } else {
                // `CSI > 4 m` and friends are xterm key-modifier settings.
                v(Class::Mode, Severity::Medium, "private-sgr")
            }
        },
        // A B C D E F G H a d e f `
        0x41 | 0x42 | 0x43 | 0x44 | 0x45 | 0x46 | 0x47 | 0x48 | 0x61 | 0x64 | 0x65 | 0x66
        | 0x60 => v(Class::Cursor, Severity::Medium, "cursor-move"),
        // s u
        0x73 | 0x75 => v(Class::Cursor, Severity::Medium, "cursor-save-restore"),
        // J
        0x4A => v(Class::Screen, Severity::Medium, "erase-display"),
        // K
        0x4B => v(Class::Screen, Severity::Medium, "erase-line"),
        // L M P X @ b
        0x4C | 0x4D | 0x50 | 0x58 | 0x40 | 0x62 => v(
            Class::Screen,
            Severity::Medium,
            "edit-line",
        ),
        // S T
        0x53 | 0x54 => v(Class::Screen, Severity::Medium, "scroll"),
        // r
        0x72 => v(Class::Screen, Severity::Medium, "scroll-region"),
        // h l
        0x68 | 0x6C => classify_mode(params, final_byte),
        // n
        0x6E => v(Class::Query, Severity::High, "device-status-report"),
        // c
        0x63 => v(Class::Query, Severity::High, "device-attributes"),
        // x
        0x78 => v(Class::Query, Severity::High, "terminal-parameters"),
        // t
        0x74 => classify_window_op(params),
        _ => v(Class::Unknown, Severity::Medium, "csi-unknown"),
    }
}

/// SGR parameters may contain only digits, `;` and `:` (ISO subparams).
fn valid_sgr_params(params: &[u8]) -> (valid: bool)
    ensures
        valid == sgr_params(params@),
{
    let mut i: usize = 0;
    while i < params.len()
        invariant
            i <= params@.len(),
            forall|j: int| 0 <= j < i ==> sgr_byte(#[trigger] params@[j]),
        decreases params@.len() - i,
    {
        let b = params[i];
        if !((0x30 <= b && b <= 0x39) || b == SEMICOLON || b == 0x3A) {
            assert(!sgr_byte(params@[i as int]));
            return false;
        }
        i += 1;
    }
    true
}

fn classify_mode(params: &[u8], final_byte: u8) -> (verdict: Verdict)
    ensures
        verdict@ == mode_verdict(params@, final_byte == 0x68),
{
    let set = final_byte == 0x68;
    if params.len() > 0 && params[0] == 0x3F {
        // DEC private modes: pick out the ones users actually get bitten by.
        let rest = slice_subrange(params, 1, params.len());
        assert(rest@ =~= params@.skip(1));
        let label = match leading_number(rest) {
            Some(47) | Some(1047) | Some(1049) => "alt-screen",
            Some(2004) => "bracketed-paste",
            Some(25) => "cursor-visibility",
            Some(2026) => "sync-update",
            Some(n) => {
                if 1000 <= n && n <= 1016 {
                    "mouse-tracking"
                } else if set {
                    "private-mode-set"
                } else {
                    "private-mode-reset"
                }
            },
            None => {
                if set {
                    "private-mode-set"
                } else {
                    "private-mode-reset"
                }
            },
        };
        return v(Class::Mode, Severity::High, label);
    }
    v(Class::Mode, Severity::Medium, "ansi-mode")
}

fn classify_window_op(params: &[u8]) -> (verdict: Verdict)
    ensures
        verdict@ == window_verdict(params@),
{
    match leading_number(params) {
        // Title stack push/pop manipulates the window title like OSC 0/2.
        Some(22) | Some(23) => v(Class::Title, Severity::High, "title-stack"),
        // 11/13/14/18/19/20/21 make the terminal report geometry or title
        // back on stdin; the title report (21) is a proven injection vector.
        Some(11) | Some(13) | Some(14) | Some(18) | Some(19) | Some(20) | Some(21) => {
            v(Class::Query, Severity::High, "window-report")
        },
        // The rest move/resize/iconify the window.
        _ => v(Class::Query, Severity::High, "window-op"),
    }
}

fn classify_esc(intermediates: &[u8], final_byte: u8) -> (verdict: Verdict)
    ensures
        verdict@ == esc_verdict(intermediates@, final_byte),
{
    if intermediates.len() > 0 {
        return match intermediates[0] {
            // ESC ( ) * + - . / designate character sets: `ESC ( 0` turns
            // subsequent text into DEC line-drawing glyphs.
            0x28 | 0x29 | 0x2A | 0x2B | 0x2D | 0x2E | 0x2F => {
                v(Class::Charset, Severity::High, "charset-designate")
            },
            // %
            0x25 => v(Class::Charset, Severity::High, "charset-select"),
            // #
            0x23 => v(Class::Screen, Severity::Medium, "dec-screen-test"),
            _ => v(Class::Unknown, Severity::Medium, "esc-unknown"),
        };
    }
    match final_byte {
        // 7 8
        0x37 | 0x38 => v(Class::Cursor, Severity::Medium, "cursor-save-restore"),
        // D E M
        0x44 | 0x45 | 0x4D => v(Class::Screen, Severity::Medium, "index"),
        // c
        0x63 => v(Class::Reset, Severity::High, "hard-reset"),
        // = >
        0x3D | 0x3E => v(Class::Mode, Severity::Medium, "keypad-mode"),
        // N O
        0x4E | 0x4F => v(Class::Charset, Severity::High, "single-shift"),
        // n o | } ~
        0x6E | 0x6F | 0x7C | 0x7D | 0x7E => v(Class::Charset, Severity::High, "locking-shift"),
        // H
        0x48 => v(Class::Screen, Severity::Medium, "tab-set"),
        // Z
        0x5A => v(Class::Query, Severity::High, "device-attributes"),
        // backslash
        0x5C => v(Class::Unknown, Severity::Low, "stray-terminator"),
        _ => v(Class::Unknown, Severity::Medium, "esc-unknown"),
    }
}

fn classify_str(kind: StrKind, payload: &[u8]) -> (verdict: Verdict)
    ensures
        verdict@ == str_verdict(kind, payload@),
{
    match kind {
        StrKind::Osc => classify_osc(payload),
        StrKind::Dcs => classify_dcs(payload),
        StrKind::Apc => v(Class::Dcs, Severity::High, "apc"),
        StrKind::Pm => v(Class::Dcs, Severity::High, "pm"),
        StrKind::Sos => v(Class::Dcs, Severity::High, "sos"),
    }
}

fn classify_osc(payload: &[u8]) -> (verdict: Verdict)
    ensures
        verdict@ == osc_verdict(payload@),
{
    let (num, rest) = split_osc(payload);
    match num {
        Some(0) | Some(1) | Some(2) => v(Class::Title, Severity::High, "title-set"),
        Some(4) | Some(5) => v(Class::Palette, Severity::Medium, "palette-set"),
        Some(104) | Some(105) => v(Class::Palette, Severity::Medium, "palette-reset"),
        Some(8) => v(Class::Hyperlink, Severity::Benign, "hyperlink"),
        Some(52) => {
            let parts = split_fields(rest);
            if parts.len() > 1 && is_byte(parts[1], 0x3F) {
                // `OSC 52 ; c ; ?` pastes the clipboard back on stdin.
                v(Class::Clipboard, Severity::Critical, "clipboard-read")
            } else {
                v(Class::Clipboard, Severity::Critical, "clipboard-write")
            }
        },
        Some(7) => v(Class::Unknown, Severity::Low, "cwd-report"),
        Some(9) | Some(99) | Some(777) => {
            v(Class::Unknown, Severity::Medium, "desktop-notification")
        },
        Some(133) => v(Class::Unknown, Severity::Low, "semantic-prompt"),
        Some(22) => v(Class::Unknown, Severity::Low, "pointer-shape"),
        // iTerm2's proprietary channel includes file download/upload.
        Some(1337) => v(Class::Dcs, Severity::Critical, "iterm2-proprietary"),
        Some(n) => {
            if 10 <= n && n <= 19 {
                if has_question_field(rest) {
                    // `OSC 10 ; ? ST` asks the terminal to report the color.
                    v(Class::Query, Severity::High, "color-query")
                } else {
                    v(Class::Palette, Severity::Medium, "default-colors")
                }
            } else if 110 <= n && n <= 119 {
                v(Class::Palette, Severity::Medium, "default-colors-reset")
            } else {
                v(Class::Unknown, Severity::Medium, "osc-unknown")
            }
        },
        None => v(Class::Unknown, Severity::Medium, "osc-unknown"),
    }
}

/// Does one of the `;`-separated fields consist of a question mark?
fn has_question_field(s: &[u8]) -> (found: bool)
    ensures
        found == fields(s@).contains(question()),
{
    let parts = split_fields(s);
    let mut i: usize = 0;
    while i < parts.len()
        invariant
            i <= parts@.len(),
            parts@.len() == fields(s@).len(),
            forall|j: int| 0 <= j < parts@.len() ==> (#[trigger] parts@[j])@ == fields(s@)[j],
            forall|j: int| 0 <= j < i ==> #[trigger] fields(s@)[j] != question(),
        decreases parts@.len() - i,
    {
        if is_byte(parts[i], 0x3F) {
            assert(fields(s@)[i as int] == question());
            return true;
        }
        i += 1;
    }
    false
}

fn classify_dcs(payload: &[u8]) -> (verdict: Verdict)
    ensures
        verdict@ == dcs_verdict(payload@),
{
    if starts_with(payload, &[0x24, 0x71]) {
        // DECRQSS (`$q`): the terminal echoes a status string, and lenient
        // terminals have echoed attacker-chosen bytes here (CVE-class bug).
        v(Class::Dcs, Severity::Critical, "decrqss")
    } else if starts_with(payload, &[0x2B, 0x71]) {
        // `+q`
        v(Class::Dcs, Severity::Critical, "xtgettcap")
    } else if starts_with(payload, &[0x74, 0x6D, 0x75, 0x78, 0x3B]) {
        // `tmux;` passthrough wraps an inner sequence that escapes this filter.
        v(Class::Dcs, Severity::Critical, "tmux-passthrough")
    } else if has_early_q(payload) {
        v(Class::Dcs, Severity::Medium, "sixel")
    } else {
        v(Class::Dcs, Severity::High, "dcs")
    }
}

fn has_early_q(payload: &[u8]) -> (found: bool)
    ensures
        found == early_q(payload@),
{
    let mut i: usize = 0;
    while i < payload.len() && i < 8
        invariant
            i <= payload@.len(),
            i <= 8,
            forall|j: int| 0 <= j < i ==> #[trigger] payload@[j] != 0x71,
        decreases payload@.len() - i,
    {
        if payload[i] == 0x71 {
            return true;
        }
        i += 1;
    }
    false
}

fn classify_malformed(reason: MalformedReason) -> (verdict: Verdict)
    ensures
        verdict@ == malformed_verdict(reason),
{
    let label = match reason {
        MalformedReason::Truncated => "truncated-sequence",
        MalformedReason::AbortedByControl => "spliced-sequence",
        MalformedReason::Oversized => "oversized-sequence",
        MalformedReason::BadByte => "corrupt-sequence",
    };
    v(Class::Malformed, Severity::Medium, label)
}

/// The `;`-separated fields of a payload.
fn split_fields(s: &[u8]) -> (parts: Vec<&[u8]>)
    ensures
        parts@.len() == fields(s@).len(),
        forall|i: int| 0 <= i < parts@.len() ==> (#[trigger] parts@[i])@ == fields(s@)[i],
{
    let mut parts: Vec<&[u8]> = Vec::new();
    let mut start: usize = 0;
    let ghost mut done: Seq<Seq<u8>> = seq![];
    assert(s@.skip(0) =~= s@);
    assert(done + fields(s@.skip(0)) =~= fields(s@));
    loop
        invariant
            start <= s@.len(),
            parts@.len() == done.len(),
            forall|i: int| 0 <= i < parts@.len() ==> (#[trigger] parts@[i])@ == done[i],
            done + fields(s@.skip(start as int)) == fields(s@),
        decreases s@.len() - start,
    {
        let ghost tail = s@.skip(start as int);
        let i = find_byte(s, start, SEMICOLON);
        let part = slice_subrange(s, start, i);
        assert(part@ =~= tail.take(find(tail, SEMICOLON)));
        parts.push(part);
        if i == s.len() {
            assert(tail.take(tail.len() as int) =~= tail);
            assert(fields(s@) =~= done.push(part@));
            return parts;
        }
        proof {
            assert(s@.skip(i + 1) =~= tail.skip(find(tail, SEMICOLON) + 1));
            assert(done + fields(tail) =~= done.push(part@) + fields(s@.skip(i + 1)));
            done = done.push(part@);
        }
        start = i + 1;
    }
}

/// Split an OSC payload into its numeric selector and the rest after the
/// first `;`. Returns `None` for a non-numeric or empty selector.
pub fn split_osc(payload: &[u8]) -> (parts: (Option<u32>, &[u8]))
    ensures
        parts.0 == osc_selector(payload@),
        parts.1@ == osc_rest(payload@),
{
    assert(payload@.skip(0) =~= payload@);
    let i = find_byte(payload, 0, SEMICOLON);
    let head = slice_subrange(payload, 0, i);
    assert(head@ =~= payload@.take(find(payload@, SEMICOLON)));
    let from = if i < payload.len() {
        i + 1
    } else {
        i
    };
    let rest = slice_subrange(payload, from, payload.len());
    assert(rest@ =~= osc_rest(payload@));
    (parse_number(head), rest)
}

fn parse_number(bytes: &[u8]) -> (n: Option<u32>)
    ensures
        n == number(bytes@),
{
    if bytes.len() == 0 || bytes.len() > 8 {
        return None;
    }
    let mut value: u32 = 0;
    let mut i: usize = 0;
    assert(bytes@.take(0) =~= seq![]);
    while i < bytes.len()
        invariant
            i <= bytes@.len() <= 8,
            all_digits(bytes@.take(i as int)),
            value == digits_value(bytes@.take(i as int)),
        decreases bytes@.len() - i,
    {
        let b = bytes[i];
        if !(0x30 <= b && b <= 0x39) {
            assert(!digit_byte(bytes@[i as int]));
            return None;
        }
        let ghost next = bytes@.take(i + 1);
        proof {
            assert(next.drop_last() =~= bytes@.take(i as int));
            lemma_digits_bound(bytes@.take(i as int));
        }
        value = value * 10 + (b - 0x30) as u32;
        i += 1;
    }
    assert(bytes@.take(i as int) =~= bytes@);
    Some(value)
}

fn leading_number(params: &[u8]) -> (n: Option<u32>)
    ensures
        n == leading_number_of(params@),
{
    let mut end: usize = 0;
    while end < params.len() && 0x30 <= params[end] && params[end] <= 0x39
        invariant
            end <= params@.len(),
            forall|j: int| 0 <= j < end ==> digit_byte(#[trigger] params@[j]),
        decreases params@.len() - end,
    {
        end += 1;
    }
    proof {
        lemma_digits_front(params@, end as int);
    }
    let front = slice_subrange(params, 0, end);
    assert(front@ =~= params@.take(end as int));
    parse_number(front)
}

/// Extract the URI from an `OSC 8 ; params ; uri` payload, if present.
pub fn hyperlink_uri(payload: &[u8]) -> (uri: Option<&[u8]>)
    ensures
        match uri {
            Some(u) => link_uri(payload@) == Some(u@),
            None => link_uri(payload@) is None,
        },
{
    if !starts_with(payload, &[0x38, SEMICOLON]) {
        return None;
    }
    let ghost rest = payload@.skip(2);
    let i = find_byte(payload, 2, SEMICOLON);
    if i == payload.len() {
        return None;
    }
    let uri = slice_subrange(payload, i + 1, payload.len());
    assert(uri@ =~= rest.skip(find(rest, SEMICOLON) + 1));
    Some(uri)
}

} // verus!
