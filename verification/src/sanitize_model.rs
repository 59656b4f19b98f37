//! The sanitizer as mathematics: what becomes of each token, what is written
//! for it, what is found, and how it all is counted.

use vstd::prelude::*;
use vstd::utf8::encode_utf8;

use crate::bytes::{BACKSLASH, BEL, BRACKET, C1_CSI, CR, ESC, LF, TAB};
use crate::classify::{Class, Severity};
use crate::classify_model::{judged, link_uri, verdict_on, VerdictView};
use crate::parser::StrKind;
use crate::parser_laws::offset_of;
use crate::parser_model::{run, start, string_intro, tokens, TokenView};
use crate::policy_model::{link_allowed, PolicyView};
use crate::sanitize::{Action, EXCERPT_CAP, MAX_FINDINGS};
use crate::utf8_model::textual;

verus! {

// --- decisions ----------------------------------------------------------------

/// What becomes of a token.
#[verifier::ext_equal]
pub enum Outcome {
    /// Text or whitespace, copied.
    Pass(Seq<u8>),
    /// A sequence that the policy keeps, written in its normal form.
    Keep(Seq<u8>),
    /// Removed, with the verdict that it is reported under.
    Strip(VerdictView),
}

/// The bytes that a kept token is written as: 8-bit introducers and
/// terminators become their 7-bit equivalents, and the `BEL` of an operating
/// system command stays.
pub open spec fn normal_form(t: TokenView) -> Seq<u8> {
    match t {
        TokenView::Csi { raw, .. } => if raw.len() > 0 && raw[0] == C1_CSI {
            seq![ESC, BRACKET] + raw.skip(1)
        } else {
            raw
        },
        TokenView::Str { kind, payload, raw, .. } => string_intro(kind, false) + payload
            + terminator_kept(kind, raw),
        _ => t.raw(),
    }
}

/// The terminator that a kept string sequence is written with.
pub open spec fn terminator_kept(kind: StrKind, raw: Seq<u8>) -> Seq<u8> {
    if kind == StrKind::Osc && raw.len() > 0 && raw.last() == BEL {
        seq![BEL]
    } else {
        seq![ESC, BACKSLASH]
    }
}

/// Is this a string sequence whose payload is more than text? In a payload that
/// the tokenizer accepts, only a raw C1 byte can be.
pub open spec fn hides_c1(t: TokenView) -> bool {
    t matches TokenView::Str { payload, .. } && !textual(payload)
}

/// What the policy decides about a sequence or a control byte. A hyperlink must
/// also hold no raw C1 byte, and close a link or point to an allowed place. Any
/// other string sequence with a raw C1 byte in its payload counts as one: it is
/// kept only where the policy keeps those too.
#[verifier::opaque]
pub open spec fn ruling(p: PolicyView, t: TokenView) -> Outcome {
    let verdict = verdict_on(t);
    if verdict.class == Class::Hyperlink && p.allowed.contains(Class::Hyperlink) {
        match link_uri(t->payload) {
            Some(uri) => if textual(t->payload) && (uri.len() == 0 || link_allowed(
                p.link_schemes,
                uri,
            )) {
                Outcome::Keep(normal_form(t))
            } else {
                Outcome::Strip(judged(Class::Hyperlink, Severity::Medium, "unsafe-link"@))
            },
            None => Outcome::Strip(
                judged(Class::Hyperlink, Severity::Medium, "malformed-hyperlink"@),
            ),
        }
    } else if p.allowed.contains(verdict.class) {
        if hides_c1(t) && !p.allowed.contains(Class::C1) {
            Outcome::Strip(judged(Class::C1, Severity::High, "c1-control"@))
        } else {
            Outcome::Keep(normal_form(t))
        }
    } else {
        Outcome::Strip(verdict)
    }
}

/// Whitespace that always passes: line feed, tab and, within limits, carriage
/// return.
pub open spec fn whitespace(b: u8) -> bool {
    b == LF || b == TAB || b == CR
}

/// Is the `i`-th token a carriage return that no line feed follows?
pub open spec fn lone_cr(toks: Seq<TokenView>, i: int) -> bool {
    &&& toks[i] == TokenView::Control(CR)
    &&& !(i + 1 < toks.len() && toks[i + 1] == TokenView::Control(LF))
}

/// What becomes of a token on its own.
pub open spec fn own_outcome(p: PolicyView, t: TokenView) -> Outcome {
    match t {
        TokenView::Text(text) => Outcome::Pass(text),
        TokenView::Control(b) => if whitespace(b) {
            Outcome::Pass(seq![b])
        } else {
            ruling(p, t)
        },
        _ => ruling(p, t),
    }
}

/// What becomes of the `i`-th token.
pub open spec fn outcome(p: PolicyView, toks: Seq<TokenView>, i: int) -> Outcome {
    if !p.allow_lone_cr && lone_cr(toks, i) {
        Outcome::Strip(judged(Class::Control, Severity::Medium, "lone-cr"@))
    } else {
        own_outcome(p, toks[i])
    }
}

/// What becomes of a carriage return where lone ones are removed.
pub open spec fn cr_outcome(followed_by_lf: bool) -> Outcome {
    if followed_by_lf {
        Outcome::Pass(seq![CR])
    } else {
        Outcome::Strip(judged(Class::Control, Severity::Medium, "lone-cr"@))
    }
}

/// Is the last token a carriage return whose fate the next token decides?
pub open spec fn undecided(p: PolicyView, toks: Seq<TokenView>) -> bool {
    !p.allow_lone_cr && toks.len() > 0 && toks.last() == TokenView::Control(CR)
}

/// How many of the tokens are decided while more may follow.
pub open spec fn decided(p: PolicyView, toks: Seq<TokenView>) -> nat {
    if undecided(p, toks) {
        (toks.len() - 1) as nat
    } else {
        toks.len()
    }
}

// --- excerpts and markers -----------------------------------------------------

/// The hexadecimal digit `d` in capital letters.
pub open spec fn hex_char(d: int) -> char {
    if d < 10 {
        (0x30 + d) as char
    } else {
        (0x37 + d) as char
    }
}

/// One byte made visible.
pub open spec fn shown_byte(b: u8) -> Seq<char> {
    if b == ESC {
        "\u{27E8}ESC\u{27E9}"@
    } else if b == BEL {
        "\u{27E8}BEL\u{27E9}"@
    } else if 0x20 <= b <= 0x7E {
        seq![b as char]
    } else {
        "\u{27E8}0x"@ + seq![hex_char(b as int / 16), hex_char(b as int % 16)] + "\u{27E9}"@
    }
}

/// Every byte made visible.
pub open spec fn shown_all(bytes: Seq<u8>) -> Seq<char>
    decreases bytes.len(),
{
    if bytes.len() == 0 {
        seq![]
    } else {
        shown_all(bytes.drop_last()) + shown_byte(bytes.last())
    }
}

/// The first `cap` bytes made visible, with an ellipsis where more follow.
pub open spec fn shown(bytes: Seq<u8>, cap: nat) -> Seq<char> {
    if bytes.len() > cap {
        shown_all(bytes.take(cap as int)).push('\u{2026}')
    } else {
        shown_all(bytes)
    }
}

/// The visible marker that stands where a sequence was.
pub open spec fn marker(label: Seq<char>) -> Seq<char> {
    "\u{27E8}stripped:"@ + label + "\u{27E9}"@
}

// --- the log ------------------------------------------------------------------

/// A finding with its strings as character sequences.
#[verifier::ext_equal]
pub struct FindingView {
    pub offset: nat,
    pub line: nat,
    pub class: Class,
    pub severity: Severity,
    pub label: Seq<char>,
    pub action: Action,
    pub excerpt: Seq<char>,
}

/// All that processing tokens leaves behind: the bytes written, every finding,
/// and how many sequences were kept and removed.
#[verifier::ext_equal]
pub struct Log {
    pub output: Seq<u8>,
    pub findings: Seq<FindingView>,
    pub kept: nat,
    pub stripped: nat,
}

/// Before anything has been processed.
pub open spec fn empty_log() -> Log {
    Log { output: seq![], findings: seq![], kept: 0, stripped: 0 }
}

/// The bytes written for a token.
pub open spec fn written(mark: bool, outcome: Outcome) -> Seq<u8> {
    match outcome {
        Outcome::Pass(bytes) => bytes,
        Outcome::Keep(bytes) => bytes,
        Outcome::Strip(verdict) => written_marker(mark, verdict.label),
    }
}

/// The bytes written in place of a removed sequence.
pub open spec fn written_marker(mark: bool, label: Seq<char>) -> Seq<u8> {
    if mark {
        encode_utf8(marker(label))
    } else {
        seq![]
    }
}

/// The finding on a removed sequence.
pub open spec fn finding_on(
    mark: bool,
    verdict: VerdictView,
    raw: Seq<u8>,
    offset: nat,
    line: nat,
) -> FindingView {
    FindingView {
        offset,
        line,
        class: verdict.class,
        severity: verdict.severity,
        label: verdict.label,
        action: if mark {
            Action::Marked
        } else {
            Action::Stripped
        },
        excerpt: shown(raw, EXCERPT_CAP as nat),
    }
}

/// `log` after one more token with the given outcome, retained bytes and place.
/// Removing what is harmless is no finding.
pub open spec fn log_step(
    log: Log,
    mark: bool,
    outcome: Outcome,
    raw: Seq<u8>,
    offset: nat,
    line: nat,
) -> Log {
    Log {
        output: log.output + written(mark, outcome),
        findings: match outcome {
            Outcome::Strip(verdict) if verdict.severity != Severity::Benign => log.findings.push(
                finding_on(mark, verdict, raw, offset, line),
            ),
            _ => log.findings,
        },
        kept: if outcome is Keep {
            log.kept + 1
        } else {
            log.kept
        },
        stripped: if outcome is Strip {
            log.stripped + 1
        } else {
            log.stripped
        },
    }
}

/// How many lines a token ends. A line feed always stands by itself.
pub open spec fn lines_ended(t: TokenView) -> nat {
    if t == TokenView::Control(LF) {
        1
    } else {
        0
    }
}

/// How many lines the tokens end.
pub open spec fn total_lines(toks: Seq<TokenView>) -> nat
    decreases toks.len(),
{
    if toks.len() == 0 {
        0
    } else {
        total_lines(toks.drop_last()) + lines_ended(toks.last())
    }
}

/// The line, counted from one, on which the `i`-th token starts.
pub open spec fn line_of(toks: Seq<TokenView>, i: int) -> nat {
    1 + total_lines(toks.take(i))
}

/// The log of the first `n` tokens. `marks` tells of each whether marking was
/// on when it was decided.
pub open spec fn log_of(p: PolicyView, marks: Seq<bool>, toks: Seq<TokenView>, n: int) -> Log
    decreases n,
{
    if n <= 0 {
        empty_log()
    } else {
        log_step(
            log_of(p, marks, toks, n - 1),
            marks[n - 1],
            outcome(p, toks, n - 1),
            toks[n - 1].raw(),
            offset_of(toks, n - 1),
            line_of(toks, n - 1),
        )
    }
}

/// How many findings have a severity.
pub open spec fn severity_count(findings: Seq<FindingView>, severity: Severity) -> nat
    decreases findings.len(),
{
    if findings.len() == 0 {
        0
    } else {
        severity_count(findings.drop_last(), severity) + if findings.last().severity == severity {
            1nat
        } else {
            0nat
        }
    }
}

/// The highest severity among the findings.
pub open spec fn worst(findings: Seq<FindingView>) -> Severity
    decreases findings.len(),
{
    if findings.len() == 0 {
        Severity::Benign
    } else {
        let before = worst(findings.drop_last());
        if findings.last().severity.rank() > before.rank() {
            findings.last().severity
        } else {
            before
        }
    }
}

/// The findings that are stored: the first ones up to the cap.
pub open spec fn stored(findings: Seq<FindingView>) -> Seq<FindingView> {
    if findings.len() <= MAX_FINDINGS {
        findings
    } else {
        findings.take(MAX_FINDINGS as int)
    }
}

/// The statistics over a run.
#[verifier::ext_equal]
pub struct SummaryView {
    pub bytes_in: nat,
    pub bytes_out: nat,
    pub kept: nat,
    pub stripped: nat,
    pub findings: nat,
    pub suppressed: nat,
    pub low: nat,
    pub medium: nat,
    pub high: nat,
    pub critical: nat,
}

// --- the sanitizer ------------------------------------------------------------

/// A sanitizer: its settings, the input that it has read, for each decided
/// token whether marking was on, and whether the input has ended.
#[verifier::ext_equal]
pub struct SanitizerView {
    pub policy: PolicyView,
    pub mark: bool,
    pub input: Seq<u8>,
    pub marks: Seq<bool>,
    pub finished: bool,
}

/// `marks` filled up to `n` entries with `mark`.
pub open spec fn filled(marks: Seq<bool>, mark: bool, n: nat) -> Seq<bool> {
    Seq::new(
        n,
        |i: int|
            if i < marks.len() {
                marks[i]
            } else {
                mark
            },
    )
}

impl SanitizerView {
    /// The tokens read: all of them once the input has ended.
    pub open spec fn toks(self) -> Seq<TokenView> {
        if self.finished {
            tokens(self.input)
        } else {
            run(start(), self.input).tokens
        }
    }

    /// The log of all decided tokens.
    pub open spec fn log(self) -> Log {
        log_of(self.policy, self.marks, self.toks(), self.marks.len() as int)
    }

    /// The bytes written so far.
    pub open spec fn output(self) -> Seq<u8> {
        self.log().output
    }

    /// The sanitizer after one more chunk.
    pub open spec fn fed(self, chunk: Seq<u8>) -> SanitizerView {
        let input = self.input + chunk;
        let n = decided(self.policy, run(start(), input).tokens);
        SanitizerView { input, marks: filled(self.marks, self.mark, n), ..self }
    }

    /// The sanitizer after the end of input.
    pub open spec fn ended(self) -> SanitizerView {
        let n = tokens(self.input).len();
        SanitizerView { marks: filled(self.marks, self.mark, n), finished: true, ..self }
    }

    /// The statistics. The number of findings is filled in at the end of
    /// input.
    pub open spec fn summary(self) -> SummaryView {
        let log = self.log();
        SummaryView {
            bytes_in: self.input.len(),
            bytes_out: log.output.len(),
            kept: log.kept,
            stripped: log.stripped,
            findings: if self.finished {
                log.findings.len()
            } else {
                0
            },
            suppressed: (log.findings.len() - stored(log.findings).len()) as nat,
            low: severity_count(log.findings, Severity::Low),
            medium: severity_count(log.findings, Severity::Medium),
            high: severity_count(log.findings, Severity::High),
            critical: severity_count(log.findings, Severity::Critical),
        }
    }

    /// Do the counters of this sanitizer fit the machine? They do whenever the
    /// input is [`GROWTH`] times smaller than what a counter can hold.
    pub open spec fn fits(self) -> bool {
        ||| self.input.len() * GROWTH <= usize::MAX
        ||| self.input.len() < usize::MAX && self.output().len() <= usize::MAX
    }
}

/// No input byte makes more than this many output bytes.
pub const GROWTH: usize = 36;

/// A sanitizer that has read nothing.
pub open spec fn fresh(policy: PolicyView, mark: bool) -> SanitizerView {
    SanitizerView { policy, mark, input: seq![], marks: seq![], finished: false }
}

/// The sanitizer after the whole of `input`.
pub open spec fn sanitized(policy: PolicyView, mark: bool, input: Seq<u8>) -> SanitizerView {
    let n = tokens(input).len();
    SanitizerView { policy, mark, input, marks: filled(seq![], mark, n), finished: true }
}

} // verus!
