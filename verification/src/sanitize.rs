//! The streaming sanitizer: parser → classifier → policy → clean bytes.
//!
//! [`Sanitizer`] is fed arbitrary chunks and writes sanitized bytes plus a
//! bounded list of [`Finding`]s describing everything it removed. Kept
//! sequences are re-emitted with introducer and terminator normalized to the
//! 7-bit `ESC`-prefixed form, and a string sequence with a raw C1 byte in its
//! payload is not kept. So downstream consumers never see raw C1 bytes even
//! when the input used them, unless the policy allows the class `c1` itself.

use vstd::prelude::*;
use vstd::slice::slice_subrange;
use vstd::string::StringExecFns;

use crate::bytes::{append_bytes, BACKSLASH, BEL, BRACKET, C1_CSI, CR, ESC, LF, TAB};
use crate::classify::{classify, hyperlink_uri, Class, Severity};
use crate::classify_model::judged;
use crate::parser::{views, Parser, StrKind, Token};
use crate::parser_laws::{lemma_run_concat, lemma_run_len, lemma_start_ok, offset_of, total_len};
use crate::parser_model::{flush, run, start, TokenView};
use crate::policy::Policy;
use crate::utf8::is_textual;
use crate::sanitize_laws::{
    lemma_fits, lemma_log_counts, lemma_log_next, lemma_log_prefix, lemma_toks_fit,
    lemma_total_split, lemma_unmarked_fits,
};
use crate::sanitize_model::{
    cr_outcome, decided, filled, finding_on, fresh, hex_char, line_of, log_of, log_step,
    normal_form, own_outcome, ruling, sanitized, severity_count, shown, shown_all, shown_byte,
    stored, total_lines, worst, written, written_marker, FindingView, Log, Outcome, SanitizerView,
    SummaryView,
};

verus! {

/// Cap on individually recorded findings; past this they are only counted.
pub const MAX_FINDINGS: usize = 1000;

/// Cap on excerpt length (in visible characters) inside a finding.
pub const EXCERPT_CAP: usize = 48;

/// What the sanitizer did about one offending token.
#[derive(Debug, Clone, Copy, PartialEq, Eq, Structural)]
pub enum Action {
    /// Removed from the output entirely.
    Stripped,
    /// Replaced with a visible `⟨stripped:label⟩` marker (`--mark`).
    Marked,
}

impl Action {
    /// The action's name.
    pub open spec fn title(self) -> Seq<char> {
        match self {
            Action::Stripped => "stripped"@,
            Action::Marked => "marked"@,
        }
    }

    pub fn name(self) -> (name: &'static str)
        ensures
            name@ == self.title(),
    {
        match self {
            Action::Stripped => "stripped",
            Action::Marked => "marked",
        }
    }
}

/// One removed (or marked) sequence, with enough context to audit it.
#[derive(Debug, Clone)]
pub struct Finding {
    /// Byte offset of the sequence start in the input.
    pub offset: usize,
    /// 1-based input line the sequence started on.
    pub line: usize,
    pub class: Class,
    pub severity: Severity,
    /// Specific identifier (`clipboard-write`, `alt-screen`, `unsafe-link`...).
    pub label: &'static str,
    pub action: Action,
    /// Human-readable rendering of the raw bytes, controls escaped.
    pub excerpt: String,
}

impl View for Finding {
    type V = FindingView;

    open spec fn view(&self) -> FindingView {
        FindingView {
            offset: self.offset as nat,
            line: self.line as nat,
            class: self.class,
            severity: self.severity,
            label: self.label@,
            action: self.action,
            excerpt: self.excerpt@,
        }
    }
}

/// The models of a sequence of findings.
pub open spec fn finding_views(findings: Seq<Finding>) -> Seq<FindingView> {
    findings.map_values(|f: Finding| f@)
}

/// Aggregate statistics over one sanitizer run.
#[derive(Debug)]
pub struct Summary {
    pub bytes_in: usize,
    pub bytes_out: usize,
    /// Escape sequences re-emitted because the policy allows them.
    pub kept: usize,
    /// Tokens removed, including benign ones (e.g. SGR under `plain`).
    pub stripped: usize,
    /// Findings recorded or counted (stripped tokens with severity > none).
    pub findings: usize,
    /// Findings beyond [`MAX_FINDINGS`] that were counted but not stored.
    pub suppressed: usize,
    /// Count of findings per severity: [low, medium, high, critical].
    pub by_severity: [usize; 4],
}

impl View for Summary {
    type V = SummaryView;

    open spec fn view(&self) -> SummaryView {
        SummaryView {
            bytes_in: self.bytes_in as nat,
            bytes_out: self.bytes_out as nat,
            kept: self.kept as nat,
            stripped: self.stripped as nat,
            findings: self.findings as nat,
            suppressed: self.suppressed as nat,
            low: self.by_severity@[0] as nat,
            medium: self.by_severity@[1] as nat,
            high: self.by_severity@[2] as nat,
            critical: self.by_severity@[3] as nat,
        }
    }
}

impl Default for Summary {
    fn default() -> (s: Self)
        ensures
            s@ == (SummaryView {
                bytes_in: 0,
                bytes_out: 0,
                kept: 0,
                stripped: 0,
                findings: 0,
                suppressed: 0,
                low: 0,
                medium: 0,
                high: 0,
                critical: 0,
            }),
    {
        Summary {
            bytes_in: 0,
            bytes_out: 0,
            kept: 0,
            stripped: 0,
            findings: 0,
            suppressed: 0,
            by_severity: [0, 0, 0, 0],
        }
    }
}

impl Clone for Summary {
    fn clone(&self) -> (copy: Self)
        ensures
            copy@ == self@,
    {
        Summary {
            bytes_in: self.bytes_in,
            bytes_out: self.bytes_out,
            kept: self.kept,
            stripped: self.stripped,
            findings: self.findings,
            suppressed: self.suppressed,
            by_severity: self.by_severity,
        }
    }
}

/// Streaming sanitizer. One instance per input stream.
pub struct Sanitizer {
    parser: Parser,
    policy: Policy,
    mark: bool,
    findings: Vec<Finding>,
    summary: Summary,
    max_severity: Severity,
    offset: usize,
    line: usize,
    /// A held carriage return waiting to learn whether an LF follows
    /// (only used when the policy forbids lone CR).
    pending_cr: Option<(usize, usize)>,
    tokens: Vec<Token>,
    /// All input so far.
    input: Ghost<Seq<u8>>,
    /// For each decided token, whether marking was on.
    marks: Ghost<Seq<bool>>,
    /// The end of input has been flushed.
    finished: Ghost<bool>,
}

impl View for Sanitizer {
    type V = SanitizerView;

    closed spec fn view(&self) -> SanitizerView {
        SanitizerView {
            policy: self.policy@,
            mark: self.mark,
            input: self.input@,
            marks: self.marks@,
            finished: self.finished@,
        }
    }
}

impl Sanitizer {
    /// The fields agree with each other.
    pub closed spec fn wf(&self) -> bool {
        &&& self.parser.wf()
        &&& self.parser@ == if self.finished@ {
            start()
        } else {
            run(start(), self.input@).phase
        }
        &&& self.marks@.len() == if self.finished@ {
            self@.toks().len()
        } else {
            decided(self.policy@, self@.toks())
        }
        &&& self.tracks(self@.toks(), self.marks@.len())
        &&& self.summary.bytes_in == self.input@.len()
        &&& self.summary.findings == if self.finished@ {
            self@.log().findings.len()
        } else {
            0
        }
    }

    /// While more input may come, every token read is decided but for a held
    /// carriage return. At the end all of them are.
    pub proof fn lemma_decided(&self)
        requires
            self.wf(),
        ensures
            self@.finished ==> self@.marks.len() == self@.toks().len(),
            !self@.finished ==> self@.marks.len() == decided(self@.policy, self@.toks()),
            self@.marks.len() <= self@.toks().len(),
    {
    }

    pub fn new(policy: Policy) -> (s: Sanitizer)
        ensures
            s.wf(),
            s@ == fresh(policy@, false),
    {
        let s = Sanitizer {
            parser: Parser::new(),
            policy,
            mark: false,
            findings: Vec::new(),
            summary: Summary::default(),
            max_severity: Severity::Benign,
            offset: 0,
            line: 1,
            pending_cr: None,
            tokens: Vec::new(),
            input: Ghost(Seq::empty()),
            marks: Ghost(Seq::empty()),
            finished: Ghost(false),
        };
        assert(s@.toks() =~= seq![]);
        assert(finding_views(s.findings@) =~= seq![]);
        s
    }

    /// Replace stripped sequences with visible markers instead of deleting.
    pub fn with_mark(self, mark: bool) -> (s: Sanitizer)
        requires
            self.wf(),
        ensures
            s.wf(),
            s@ == (SanitizerView { mark, ..self@ }),
    {
        let mut s = self;
        s.mark = mark;
        assert(s@.toks() == self@.toks());
        s
    }

    /// Sanitize a chunk, appending clean bytes to `out`.
    pub fn feed(&mut self, chunk: &[u8], out: &mut Vec<u8>)
        requires
            old(self).wf(),
            !old(self)@.finished,
            old(self)@.fed(chunk@).fits(),
        ensures
            final(self).wf(),
            final(self)@ == old(self)@.fed(chunk@),
            old(self)@.output().is_prefix_of(final(self)@.output()),
            final(out)@ == old(out)@ + final(self)@.output().skip(
                old(self)@.output().len() as int,
            ),
    {
        let ghost before = self@;
        let ghost after = before.fed(chunk@);
        let ghost earlier = before.toks();
        proof {
            lemma_fits(after);
            lemma_start_ok();
            lemma_run_len(start(), self.input@);
            lemma_run_concat(start(), self.input@, chunk@);
        }
        self.summary.bytes_in = self.summary.bytes_in + chunk.len();
        let mut tokens: Vec<Token> = Vec::new();
        std::mem::swap(&mut tokens, &mut self.tokens);
        tokens.clear();
        self.parser.feed(chunk, &mut tokens);
        assert(views(tokens@) =~= run(run(start(), self.input@).phase, chunk@).tokens);
        proof {
            self.input@ = after.input;
        }
        self.process_all(&tokens, out, Ghost(earlier), Ghost(after));
        assert(earlier + views(tokens@) =~= after.toks());
        self.tokens = tokens;
        assert(self@ =~= after);
    }

    /// Flush end-of-input. Must be called exactly once.
    #[verifier::rlimit(40)]
    pub fn finish(&mut self, out: &mut Vec<u8>)
        requires
            old(self).wf(),
            !old(self)@.finished,
            old(self)@.ended().fits(),
        ensures
            final(self).wf(),
            final(self)@ == old(self)@.ended(),
            old(self)@.output().is_prefix_of(final(self)@.output()),
            final(out)@ == old(out)@ + final(self)@.output().skip(
                old(self)@.output().len() as int,
            ),
    {
        let ghost before = self@;
        let ghost after = before.ended();
        let ghost earlier = before.toks();
        proof {
            lemma_fits(after);
            lemma_start_ok();
            lemma_run_len(start(), self.input@);
        }
        let mut tokens: Vec<Token> = Vec::new();
        std::mem::swap(&mut tokens, &mut self.tokens);
        tokens.clear();
        self.parser.finish(&mut tokens);
        assert(views(tokens@) =~= flush(run(start(), self.input@).phase));
        assert(earlier + views(tokens@) =~= after.toks());
        self.process_all(&tokens, out, Ghost(earlier), Ghost(after));
        self.tokens = tokens;
        // A CR at EOF with no LF after it is a lone CR.
        let ghost p = self.policy@;
        let ghost toks = after.toks();
        let ghost n = toks.len() as int;
        let ghost held = log_of(p, self.marks@, toks, decided(p, toks) as int);
        proof {
            lemma_log_prefix(p, before.marks, self.mark, toks, toks, n);
            lemma_log_counts(p, after.marks, toks, n);
            lemma_log_counts(p, self.marks@, toks, decided(p, toks) as int);
            lemma_toks_fit(after);
        }
        self.resolve_pending_cr(None, out, Ghost(held));
        proof {
            self.marks@ = after.marks;
            self.finished@ = true;
        }
        assert(self.reports(after.log()));
        self.summary.findings = self.findings.len() + self.summary.suppressed;
        assert(self@ =~= after);
        assert(toks.take(n) =~= toks);
    }

    pub fn findings(&self) -> (findings: &[Finding])
        requires
            self.wf(),
        ensures
            finding_views(findings@) == stored(self@.log().findings),
    {
        self.findings.as_slice()
    }

    pub fn summary(&self) -> (summary: &Summary)
        requires
            self.wf(),
        ensures
            summary@ == self@.summary(),
    {
        &self.summary
    }

    /// Highest severity among all findings (for `--fail-on` gating).
    pub fn max_severity(&self) -> (severity: Severity)
        requires
            self.wf(),
        ensures
            severity == worst(self@.log().findings),
    {
        self.max_severity
    }

    // --- internals ----------------------------------------------------------

    /// Account for the tokens that follow `earlier`.
    #[verifier::spinoff_prover]
    #[verifier::rlimit(60)]
    fn process_all(
        &mut self,
        tokens: &Vec<Token>,
        out: &mut Vec<u8>,
        Ghost(earlier): Ghost<Seq<TokenView>>,
        Ghost(after): Ghost<SanitizerView>,
    )
        requires
            old(self).tracks(earlier, decided(old(self).policy@, earlier)),
            after.policy == old(self).policy@,
            after.toks() == earlier + views(tokens@),
            decided(after.policy, after.toks()) <= after.marks.len() <= after.toks().len(),
            after.marks == filled(old(self).marks@, old(self).mark, after.marks.len()),
            after.input.len() < usize::MAX,
            after.output().len() <= usize::MAX,
        ensures
            ({
                let p = after.policy;
                let all = after.toks();
                let n = decided(p, all);
                let before = log_of(p, old(self).marks@, earlier, decided(p, earlier) as int);
                let now = log_of(p, final(self).marks@, all, n as int);
                &&& final(self).tracks(all, n)
                &&& final(self).marks@ == filled(old(self).marks@, old(self).mark, n)
                &&& final(out)@ == old(out)@ + now.output.skip(before.output.len() as int)
                &&& before.output.is_prefix_of(now.output)
            }),
            final(self).same_stream(old(self)),
    {
        let ghost p = after.policy;
        let ghost all = after.toks();
        let ghost marks = self.marks@;
        let ghost mark = self.mark;
        let ghost before = log_of(p, marks, earlier, decided(p, earlier) as int);
        let ghost new = views(tokens@);
        let mut i: usize = 0;
        proof {
            lemma_toks_fit(after);
            assert(earlier + new.take(0) =~= earlier);
            assert(filled(marks, mark, decided(p, earlier)) =~= marks);
            assert(out@ =~= old(out)@ + before.output.skip(before.output.len() as int));
            assert(before.output.take(before.output.len() as int) =~= before.output);
        }
        while i < tokens.len()
            invariant
                i <= tokens@.len(),
                p == after.policy,
                p == self.policy@,
                new == views(tokens@),
                all == earlier + new,
                all == after.toks(),
                total_len(all) <= after.input.len(),
                total_lines(all) <= after.input.len(),
                all.len() <= after.input.len(),
                after.input.len() < usize::MAX,
                after.output().len() <= usize::MAX,
                marks == old(self).marks@,
                mark == old(self).mark,
                marks.len() == decided(p, earlier),
                before == log_of(p, marks, earlier, decided(p, earlier) as int),
                decided(p, all) <= after.marks.len() <= all.len(),
                after.marks == filled(marks, mark, after.marks.len()),
                self.same_stream(old(self)),
                self.tracks(
                    earlier + new.take(i as int),
                    decided(p, earlier + new.take(i as int)),
                ),
                self.marks@ == filled(marks, mark, decided(p, earlier + new.take(i as int))),
                decided(p, earlier) <= decided(p, earlier + new.take(i as int)),
                ({
                    let so_far = earlier + new.take(i as int);
                    let now = log_of(p, self.marks@, so_far, decided(p, so_far) as int);
                    &&& before.output.is_prefix_of(now.output)
                    &&& out@ == old(out)@ + now.output.skip(before.output.len() as int)
                }),
            decreases tokens@.len() - i,
        {
            let ghost so_far = earlier + new.take(i as int);
            let ghost next = earlier + new.take(i + 1);
            let ghost now = log_of(p, self.marks@, so_far, decided(p, so_far) as int);
            let ghost written_before = out@;
            proof {
                assert(next =~= so_far.push(tokens@[i as int]@));
                assert(all.take(next.len() as int) =~= next);
                assert(all.take(so_far.len() as int) =~= so_far);
                lemma_log_prefix(p, marks, mark, next, all, after.marks.len() as int);
                lemma_total_split(all, next.len() as int);
                assert(filled(self.marks@, mark, decided(p, next)) =~= filled(
                    marks,
                    mark,
                    decided(p, next),
                ));
            }
            self.process(&tokens[i], out, Ghost(so_far));
            proof {
                let then = log_of(p, self.marks@, next, decided(p, next) as int);
                lemma_written_joins(
                    before.output,
                    now.output,
                    then.output,
                    old(out)@,
                    written_before,
                );
            }
            i += 1;
        }
        assert(new.take(i as int) =~= new);
    }
}

/// The hexadecimal digit `d` in capital letters.
fn hex_digit(d: u8) -> (c: char)
    requires
        d < 16,
    ensures
        c == hex_char(d as int),
{
    if d < 10 {
        (0x30 + d) as char
    } else {
        (0x37 + d) as char
    }
}

/// Render bytes with every control/high byte made visible (`⟨ESC⟩`,
/// `⟨BEL⟩`, `⟨0x9B⟩`), capped at `cap` visible units with a `…` tail. The
/// rendering itself can never smuggle a sequence.
pub fn visible(bytes: &[u8], cap: usize) -> (s: String)
    ensures
        s@ == shown(bytes@, cap as nat),
{
    let mut s = String::new();
    let mut i: usize = 0;
    assert(bytes@.take(0) =~= seq![]);
    while i < bytes.len()
        invariant
            i <= bytes@.len(),
            i <= cap,
            s@ == shown_all(bytes@.take(i as int)),
        decreases bytes@.len() - i,
    {
        if i >= cap {
            s.push('\u{2026}');
            return s;
        }
        let b = bytes[i];
        let ghost before = s@;
        if b == ESC {
            s.append("\u{27E8}ESC\u{27E9}");
        } else if b == BEL {
            s.append("\u{27E8}BEL\u{27E9}");
        } else if 0x20 <= b && b <= 0x7E {
            s.push(b as char);
        } else {
            s.append("\u{27E8}0x");
            s.push(hex_digit(b / 16));
            s.push(hex_digit(b % 16));
            s.append("\u{27E9}");
        }
        assert(s@ =~= before + shown_byte(b));
        assert(bytes@.take(i + 1).drop_last() =~= bytes@.take(i as int));
        i += 1;
    }
    assert(bytes@.take(i as int) =~= bytes@);
    s
}

/// The rendering of a token's raw bytes for a finding.
fn excerpt(token: &Token) -> (s: String)
    ensures
        s@ == shown(token@.raw(), EXCERPT_CAP as nat),
{
    match token {
        Token::Text(t) => visible(t.as_slice(), EXCERPT_CAP),
        Token::Control(b) => {
            let one = [*b];
            assert(one@ =~= seq![*b]);
            visible(&one, EXCERPT_CAP)
        },
        Token::C1(b) => {
            let one = [*b];
            assert(one@ =~= seq![*b]);
            visible(&one, EXCERPT_CAP)
        },
        Token::Csi { raw, .. } => visible(raw.as_slice(), EXCERPT_CAP),
        Token::Esc { raw, .. } => visible(raw.as_slice(), EXCERPT_CAP),
        Token::Str { raw, .. } => visible(raw.as_slice(), EXCERPT_CAP),
        Token::Malformed { raw, .. } => visible(raw.as_slice(), EXCERPT_CAP),
    }
}

/// Append the normal form of a token that is kept.
fn push_normal_form(token: &Token, out: &mut Vec<u8>)
    ensures
        final(out)@ == old(out)@ + normal_form(token@),
{
    match token {
        Token::Text(bytes) => append_bytes(out, bytes.as_slice()),
        Token::Control(b) => {
            out.push(*b);
            assert(out@ =~= old(out)@ + seq![*b]);
        },
        Token::C1(b) => {
            out.push(*b);
            assert(out@ =~= old(out)@ + seq![*b]);
        },
        Token::Csi { raw, .. } => {
            if raw.len() > 0 && raw[0] == C1_CSI {
                out.push(ESC);
                out.push(BRACKET);
                append_bytes(out, slice_subrange(raw.as_slice(), 1, raw.len()));
                assert(out@ =~= old(out)@ + normal_form(token@));
            } else {
                append_bytes(out, raw.as_slice());
            }
        },
        Token::Esc { raw, .. } => append_bytes(out, raw.as_slice()),
        Token::Str { kind, payload, raw, .. } => {
            let letter: u8 = match kind {
                StrKind::Osc => 0x5D,
                StrKind::Dcs => 0x50,
                StrKind::Apc => 0x5F,
                StrKind::Pm => 0x5E,
                StrKind::Sos => 0x58,
            };
            out.push(ESC);
            out.push(letter);
            append_bytes(out, payload.as_slice());
            // Preserve a BEL terminator (OSC), normalize everything else,
            // including raw 0x9C, to ESC backslash.
            if *kind == StrKind::Osc && raw.len() > 0 && raw[raw.len() - 1] == BEL {
                out.push(BEL);
            } else {
                out.push(ESC);
                out.push(BACKSLASH);
            }
            assert(out@ =~= old(out)@ + normal_form(token@));
        },
        Token::Malformed { raw, .. } => append_bytes(out, raw.as_slice()),
    }
}

impl Sanitizer {
    /// The findings and counters are those of `log`.
    spec fn reports(&self, log: Log) -> bool {
        &&& finding_views(self.findings@) == stored(log.findings)
        &&& self.summary.bytes_out == log.output.len()
        &&& self.summary.kept == log.kept
        &&& self.summary.stripped == log.stripped
        &&& self.summary.suppressed == log.findings.len() - stored(log.findings).len()
        &&& self.summary.by_severity@[0] == severity_count(log.findings, Severity::Low)
        &&& self.summary.by_severity@[1] == severity_count(log.findings, Severity::Medium)
        &&& self.summary.by_severity@[2] == severity_count(log.findings, Severity::High)
        &&& self.summary.by_severity@[3] == severity_count(log.findings, Severity::Critical)
        &&& self.max_severity == worst(log.findings)
    }

    /// Apart from findings and counters, the two are the same.
    spec fn same_place(&self, other: &Sanitizer) -> bool {
        &&& self.parser == other.parser
        &&& self.policy == other.policy
        &&& self.mark == other.mark
        &&& self.summary.bytes_in == other.summary.bytes_in
        &&& self.summary.findings == other.summary.findings
        &&& self.offset == other.offset
        &&& self.line == other.line
        &&& self.tokens == other.tokens
        &&& self.input == other.input
        &&& self.marks == other.marks
        &&& self.finished == other.finished
    }

    /// Text and whitespace go out as they came.
    fn pass(&mut self, bytes: &[u8], out: &mut Vec<u8>, Ghost(log): Ghost<Log>)
        requires
            old(self).reports(log),
            log.output.len() + bytes@.len() <= usize::MAX,
        ensures
            final(self).reports(Log { output: log.output + bytes@, ..log }),
            final(self).same_place(old(self)),
            final(self).pending_cr == old(self).pending_cr,
            final(out)@ == old(out)@ + bytes@,
    {
        append_bytes(out, bytes);
        self.summary.bytes_out = self.summary.bytes_out + bytes.len();
    }

    /// Re-emit a kept sequence, normalizing any 8-bit C1 introducer or
    /// terminator to its 7-bit ESC-prefixed equivalent.
    fn keep(&mut self, token: &Token, out: &mut Vec<u8>, Ghost(log): Ghost<Log>)
        requires
            old(self).reports(log),
            log.output.len() + normal_form(token@).len() <= usize::MAX,
            log.kept < usize::MAX,
        ensures
            final(self).reports(
                Log {
                    output: log.output + normal_form(token@),
                    kept: log.kept + 1,
                    ..log
                },
            ),
            final(self).same_place(old(self)),
            final(self).pending_cr == old(self).pending_cr,
            final(out)@ == old(out)@ + normal_form(token@),
    {
        let before = out.len();
        push_normal_form(token, out);
        self.summary.bytes_out = self.summary.bytes_out + (out.len() - before);
        self.summary.kept = self.summary.kept + 1;
    }

    /// Remove a sequence: mark its place if asked to, count it, and record a
    /// finding unless it is harmless or the list is full.
    fn strip(
        &mut self,
        token: &Token,
        offset: usize,
        line: usize,
        class: Class,
        severity: Severity,
        label: &'static str,
        out: &mut Vec<u8>,
        Ghost(log): Ghost<Log>,
    )
        requires
            old(self).reports(log),
            log.output.len() + written_marker(old(self).mark, label@).len() <= usize::MAX,
            log.stripped < usize::MAX,
            log.findings.len() <= log.stripped,
        ensures
            final(self).reports(
                log_step(
                    log,
                    old(self).mark,
                    Outcome::Strip(judged(class, severity, label@)),
                    token@.raw(),
                    offset as nat,
                    line as nat,
                ),
            ),
            final(self).same_place(old(self)),
            final(self).pending_cr == old(self).pending_cr,
            final(out)@ == old(out)@ + written_marker(old(self).mark, label@),
    {
        let ghost verdict = judged(class, severity, label@);
        self.summary.stripped = self.summary.stripped + 1;
        if self.mark {
            let mut text = String::from_str("\u{27E8}stripped:");
            text.append(label);
            text.append("\u{27E9}");
            let bytes = text.as_str().as_bytes();
            append_bytes(out, bytes);
            self.summary.bytes_out = self.summary.bytes_out + bytes.len();
        }
        if severity == Severity::Benign {
            // Benign removal (e.g. SGR under `plain`): not a finding.
            return;
        }
        if severity > self.max_severity {
            self.max_severity = severity;
        }
        let i: usize = match severity {
            Severity::Low => 0,
            Severity::Medium => 1,
            Severity::High => 2,
            _ => 3,
        };
        let ghost more = log.findings.push(
            finding_on(self.mark, verdict, token@.raw(), offset as nat, line as nat),
        );
        proof {
            assert(more.drop_last() =~= log.findings);
            lemma_severity_bound(log.findings, severity);
        }
        let count = self.summary.by_severity[i];
        self.summary.by_severity[i] = count + 1;
        if self.findings.len() >= MAX_FINDINGS {
            self.summary.suppressed = self.summary.suppressed + 1;
            assert(stored(more) =~= stored(log.findings));
            return;
        }
        let action = if self.mark {
            Action::Marked
        } else {
            Action::Stripped
        };
        let finding = Finding {
            offset,
            line,
            class,
            severity,
            label,
            action,
            excerpt: excerpt(token),
        };
        self.findings.push(finding);
        assert(finding_views(self.findings@) =~= finding_views(old(self).findings@).push(
            more.last(),
        ));
        assert(stored(more) =~= more);
    }
}

impl Sanitizer {
    /// Keep or remove a sequence or a control byte as the policy decides.
    fn apply_policy(
        &mut self,
        token: &Token,
        offset: usize,
        line: usize,
        out: &mut Vec<u8>,
        Ghost(log): Ghost<Log>,
    )
        requires
            old(self).reports(log),
            log.output.len() + written(old(self).mark, ruling(old(self).policy@, token@)).len()
                <= usize::MAX,
            log.kept < usize::MAX,
            log.stripped < usize::MAX,
            log.findings.len() <= log.stripped,
        ensures
            final(self).reports(
                log_step(
                    log,
                    old(self).mark,
                    ruling(old(self).policy@, token@),
                    token@.raw(),
                    offset as nat,
                    line as nat,
                ),
            ),
            final(self).same_place(old(self)),
            final(self).pending_cr == old(self).pending_cr,
            final(out)@ == old(out)@ + written(old(self).mark, ruling(old(self).policy@, token@)),
    {
        reveal(ruling);
        let verdict = classify(token);
        // Hyperlinks get URI-level validation on top of the class switch.
        if verdict.class == Class::Hyperlink && self.policy.allows(Class::Hyperlink) {
            if let Token::Str { payload, .. } = token {
                match hyperlink_uri(payload.as_slice()) {
                    Some(uri) => {
                        // `OSC 8 ;;` (empty URI) closes a link: always harmless.
                        // No raw C1 byte may hide in the payload either way.
                        if is_textual(payload.as_slice()) && (uri.len() == 0
                            || self.policy.allows_link(uri)) {
                            self.keep(token, out, Ghost(log));
                        } else {
                            self.strip(
                                token,
                                offset,
                                line,
                                Class::Hyperlink,
                                Severity::Medium,
                                "unsafe-link",
                                out,
                                Ghost(log),
                            );
                        }
                    },
                    None => self.strip(
                        token,
                        offset,
                        line,
                        Class::Hyperlink,
                        Severity::Medium,
                        "malformed-hyperlink",
                        out,
                        Ghost(log),
                    ),
                }
            }
            return;
        }
        if self.policy.allows(verdict.class) {
            // A payload must not carry raw C1 bytes past a policy that strips
            // them elsewhere.
            let hidden = match token {
                Token::Str { payload, .. } => !is_textual(payload.as_slice()),
                _ => false,
            };
            if hidden && !self.policy.allows(Class::C1) {
                self.strip(
                    token,
                    offset,
                    line,
                    Class::C1,
                    Severity::High,
                    "c1-control",
                    out,
                    Ghost(log),
                );
            } else {
                self.keep(token, out, Ghost(log));
            }
        } else {
            self.strip(
                token,
                offset,
                line,
                verdict.class,
                verdict.severity,
                verdict.label,
                out,
                Ghost(log),
            );
        }
    }

    /// Emit or drop a held CR. `followed_by_lf: Some(true)` means the next
    /// token is an LF (the CR is part of a CRLF pair and is kept).
    fn resolve_pending_cr(
        &mut self,
        followed_by_lf: Option<bool>,
        out: &mut Vec<u8>,
        Ghost(log): Ghost<Log>,
    )
        requires
            old(self).reports(log),
            old(self).pending_cr is Some ==> log.output.len() + written(
                old(self).mark,
                cr_outcome(followed_by_lf == Some(true)),
            ).len() <= usize::MAX,
            log.stripped < usize::MAX,
            log.findings.len() <= log.stripped,
        ensures
            final(self).same_place(old(self)),
            final(self).pending_cr is None,
            match old(self).pending_cr {
                None => final(self).reports(log) && final(out)@ == old(out)@,
                Some((offset, line)) => {
                    let decision = cr_outcome(followed_by_lf == Some(true));
                    &&& final(self).reports(
                        log_step(
                            log,
                            old(self).mark,
                            decision,
                            seq![CR],
                            offset as nat,
                            line as nat,
                        ),
                    )
                    &&& final(out)@ == old(out)@ + written(old(self).mark, decision)
                },
            },
    {
        let (offset, line) = match self.pending_cr {
            Some(place) => place,
            None => {
                return;
            },
        };
        self.pending_cr = None;
        if followed_by_lf == Some(true) {
            out.push(CR);
            assert(out@ =~= old(out)@ + seq![CR]);
            self.summary.bytes_out = self.summary.bytes_out + 1;
            return;
        }
        // Lone CR: the classic overwrite-the-line-you-just-read trick.
        self.strip(
            &Token::Control(CR),
            offset,
            line,
            Class::Control,
            Severity::Medium,
            "lone-cr",
            out,
            Ghost(log),
        );
    }
}

impl Sanitizer {
    /// Everything agrees with having read `toks` and decided the first `n`.
    spec fn tracks(&self, toks: Seq<TokenView>, n: nat) -> bool {
        &&& self.offset == total_len(toks)
        &&& self.line == 1 + total_lines(toks)
        &&& self.marks@.len() == n
        &&& match self.pending_cr {
            Some((offset, line)) => {
                &&& n < toks.len()
                &&& offset == offset_of(toks, n as int)
                &&& line == line_of(toks, n as int)
            },
            None => n == toks.len(),
        }
        &&& self.reports(log_of(self.policy@, self.marks@, toks, n as int))
    }

    /// Pass, keep or remove a token on its own.
    fn decide(
        &mut self,
        token: &Token,
        offset: usize,
        line: usize,
        out: &mut Vec<u8>,
        Ghost(log): Ghost<Log>,
    )
        requires
            old(self).reports(log),
            log.output.len() + written(old(self).mark, own_outcome(old(self).policy@, token@)).len()
                <= usize::MAX,
            log.kept < usize::MAX,
            log.stripped < usize::MAX,
            log.findings.len() <= log.stripped,
        ensures
            final(self).reports(
                log_step(
                    log,
                    old(self).mark,
                    own_outcome(old(self).policy@, token@),
                    token@.raw(),
                    offset as nat,
                    line as nat,
                ),
            ),
            final(self).same_place(old(self)),
            final(self).pending_cr == old(self).pending_cr,
            final(out)@ == old(out)@ + written(
                old(self).mark,
                own_outcome(old(self).policy@, token@),
            ),
    {
        match token {
            Token::Text(bytes) => self.pass(bytes.as_slice(), out, Ghost(log)),
            Token::Control(b) => {
                if *b == LF || *b == TAB || *b == CR {
                    // Hardwired-safe whitespace (lone CR is held back before).
                    let one = [*b];
                    assert(one@ =~= seq![*b]);
                    self.pass(&one, out, Ghost(log));
                } else {
                    self.apply_policy(token, offset, line, out, Ghost(log));
                }
            },
            _ => self.apply_policy(token, offset, line, out, Ghost(log)),
        }
    }

    /// Account for one more token after `toks`, and decide what can be decided.
    #[verifier::spinoff_prover]
    #[verifier::rlimit(40)]
    fn process(&mut self, token: &Token, out: &mut Vec<u8>, Ghost(toks): Ghost<Seq<TokenView>>)
        requires
            old(self).tracks(toks, decided(old(self).policy@, toks)),
            ({
                let all = toks.push(token@);
                let n = decided(old(self).policy@, all);
                let marks = filled(old(self).marks@, old(self).mark, n);
                &&& all.len() <= usize::MAX
                &&& total_len(all) <= usize::MAX
                &&& 1 + total_lines(all) <= usize::MAX
                &&& log_of(old(self).policy@, marks, all, n as int).output.len() <= usize::MAX
            }),
        ensures
            ({
                let all = toks.push(token@);
                let p = old(self).policy@;
                let n = decided(p, all);
                let before = log_of(p, old(self).marks@, toks, decided(p, toks) as int);
                let after = log_of(p, final(self).marks@, all, n as int);
                &&& final(self).tracks(all, n)
                &&& final(self).marks@ == filled(old(self).marks@, old(self).mark, n)
                &&& final(out)@ == old(out)@ + after.output.skip(before.output.len() as int)
                &&& before.output.is_prefix_of(after.output)
            }),
            final(self).same_stream(old(self)),
    {
        let ghost p = self.policy@;
        let ghost all = toks.push(token@);
        let ghost marks = filled(self.marks@, self.mark, decided(p, all));
        let ghost before = log_of(p, self.marks@, toks, decided(p, toks) as int);
        let ghost middle = log_of(p, marks, all, toks.len() as int);
        let ghost after = log_of(p, marks, all, decided(p, all) as int);
        proof {
            lemma_log_next(p, self.marks@, self.mark, toks, token@);
        }
        let start_offset = self.offset;
        let start_line = self.line;
        self.offset = self.offset + token.byte_len();
        self.line = self.line + match token {
            Token::Control(b) => if *b == LF {
                1
            } else {
                0
            },
            _ => 0,
        };
        // Lone-CR tracking (strict policies): hold each CR until we know
        // whether an LF immediately follows it.
        if !self.policy.allow_lone_cr {
            let is_cr = match token {
                Token::Control(b) => *b == CR,
                _ => false,
            };
            let is_lf = match token {
                Token::Control(b) => *b == LF,
                _ => false,
            };
            let followed_by_lf = if is_cr {
                None
            } else {
                Some(is_lf)
            };
            self.resolve_pending_cr(followed_by_lf, out, Ghost(before));
            assert(self.reports(middle));
            assert(out@ =~= old(out)@ + middle.output.skip(before.output.len() as int));
            if is_cr {
                self.pending_cr = Some((start_offset, start_line));
                proof {
                    self.marks@ = marks;
                }
                return;
            }
        }
        assert(self.reports(middle));
        self.decide(token, start_offset, start_line, out, Ghost(middle));
        proof {
            self.marks@ = marks;
        }
        assert(self.reports(after));
        assert(out@ =~= old(out)@ + after.output.skip(before.output.len() as int));
    }

    /// The two read the same stream with the same settings.
    spec fn same_stream(&self, other: &Sanitizer) -> bool {
        &&& self.parser == other.parser
        &&& self.policy == other.policy
        &&& self.mark == other.mark
        &&& self.summary.bytes_in == other.summary.bytes_in
        &&& self.summary.findings == other.summary.findings
        &&& self.tokens == other.tokens
        &&& self.input == other.input
        &&& self.finished == other.finished
    }
}

/// One-shot convenience: sanitize a full buffer with a policy. The bound on
/// the length is one that every slice of bytes meets.
pub fn sanitize_bytes(input: &[u8], policy: &Policy) -> (result: (
    Vec<u8>,
    Vec<Finding>,
    Summary,
))
    requires
        input@.len() <= isize::MAX,
    ensures
        result.0@ == sanitized(policy@, false, input@).output(),
        finding_views(result.1@) == stored(sanitized(policy@, false, input@).log().findings),
        result.2@ == sanitized(policy@, false, input@).summary(),
{
    let mut s = Sanitizer::new(policy.clone());
    let mut out: Vec<u8> = Vec::new();
    let ghost all = sanitized(policy@, false, input@);
    proof {
        let new = fresh(policy@, false);
        let fed = new.fed(input@);
        assert(fed.input =~= input@);
        assert(fed.ended() =~= all);
        lemma_unmarked_fits(fed);
        lemma_unmarked_fits(all);
        assert(new.toks() =~= seq![]);
    }
    s.feed(input, &mut out);
    s.finish(&mut out);
    assert(out@ =~= all.output()) by {
        assert(fresh(policy@, false).output() =~= seq![]);
        let fed = fresh(policy@, false).fed(input@);
        assert(all.output().take(fed.output().len() as int) == fed.output());
    }
    let summary = s.summary().clone();
    let mut findings: Vec<Finding> = Vec::new();
    std::mem::swap(&mut findings, &mut s.findings);
    (out, findings, summary)
}

/// What is written in two steps is what both write together.
proof fn lemma_written_joins(
    before: Seq<u8>,
    now: Seq<u8>,
    then: Seq<u8>,
    out: Seq<u8>,
    more: Seq<u8>,
)
    requires
        before.is_prefix_of(now),
        now.is_prefix_of(then),
        more == out + now.skip(before.len() as int),
    ensures
        before.is_prefix_of(then),
        more + then.skip(now.len() as int) == out + then.skip(before.len() as int),
{
    let n = before.len() as int;
    assert(then.subrange(0, now.len() as int) =~= now);
    assert(then.subrange(0, n) =~= now.subrange(0, n));
    assert(more + then.skip(now.len() as int) =~= out + then.skip(n));
}

/// No more findings of one severity than findings.
proof fn lemma_severity_bound(findings: Seq<FindingView>, severity: Severity)
    ensures
        severity_count(findings, severity) <= findings.len(),
    decreases findings.len(),
{
    if findings.len() > 0 {
        lemma_severity_bound(findings.drop_last(), severity);
    }
}

} // verus!
