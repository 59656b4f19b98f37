//! Streaming ECMA-48 tokenizer.
//!
//! Splits an untrusted byte stream into plain-text runs, C0/C1 controls and
//! complete escape sequences (CSI, OSC, DCS, SOS, PM, APC, plain ESC forms).
//! The parser is push-based and chunk-boundary safe: feed it arbitrary slices
//! and call [`Parser::finish`] at end of input to flush a dangling sequence.
//!
//! Security posture over leniency: a control byte inside a sequence aborts it
//! (sequence-splicing is a known filter-evasion trick), oversized sequences
//! are cut off with bounded memory, and raw 8-bit C1 introducers (`0x9B` for
//! CSI, `0x9D` for OSC, ...) are recognized, but only when they are not
//! continuation bytes of well-formed UTF-8 text, so multilingual output is
//! never corrupted.

use vstd::prelude::*;

use crate::bytes::{
    append_bytes, c1_byte, continuation_byte, take_bytes, BACKSLASH, BEL, BRACKET, C1_CSI, C1_ST,
    DEL, ESC,
};
use crate::parser_model::{
    broken, csi_intro, csi_raw, csi_step, escape_step, flush, ground_step, plain_run, plain_step,
    released, run, start, step, string_intro, string_raw, string_step, string_token, text_token,
    tokens, Phase, TokenView,
};
use crate::utf8::{char_size, continues_char};
use crate::utf8_laws::lemma_begun_continuation;
use crate::utf8_model::char_begun;

verus! {

/// Longest CSI sequence accepted before it is declared oversized, counted with
/// the 7-bit introducer.
pub const CSI_MAX: usize = 128;

/// Longest string-sequence payload (OSC/DCS/APC/PM/SOS) that is retained.
pub const STR_MAX: usize = 8192;

/// Longest ESC-sequence intermediate run accepted.
pub const ESC_INTERM_MAX: usize = 4;

/// Which string-style sequence a [`Token::Str`] came from.
#[derive(Debug, Clone, Copy, PartialEq, Eq, Structural)]
pub enum StrKind {
    /// Operating System Command: `ESC ]` (titles, clipboard, hyperlinks...).
    Osc,
    /// Device Control String: `ESC P` (DECRQSS, sixel, XTGETTCAP...).
    Dcs,
    /// Application Program Command: `ESC _` (kitty graphics, tmux...).
    Apc,
    /// Privacy Message: `ESC ^`.
    Pm,
    /// Start Of String: `ESC X`.
    Sos,
}

/// Why a sequence was rejected as malformed.
#[derive(Debug, Clone, Copy, PartialEq, Eq, Structural)]
pub enum MalformedReason {
    /// Input ended in the middle of the sequence.
    Truncated,
    /// A control byte (ESC, CAN, SUB, newline...) spliced into the sequence.
    AbortedByControl,
    /// The sequence exceeded [`CSI_MAX`].
    Oversized,
    /// A byte that is illegal at its position (e.g. a parameter byte after an
    /// intermediate byte, or a high byte inside a CSI sequence).
    BadByte,
}

/// One lexical unit of the input stream.
#[derive(Debug, Clone, PartialEq, Eq)]
pub enum Token {
    /// A run of ordinary bytes (UTF-8 text passes through untouched).
    Text(Vec<u8>),
    /// A single C0 control byte (except ESC) or DEL (`0x7F`).
    Control(u8),
    /// A standalone 8-bit C1 control byte that is not valid UTF-8 text and
    /// does not introduce a sequence handled elsewhere.
    C1(u8),
    /// A complete CSI sequence: `ESC [ params intermediates final`.
    Csi { params: Vec<u8>, intermediates: Vec<u8>, final_byte: u8, raw: Vec<u8> },
    /// A complete non-CSI escape sequence: `ESC intermediates final`.
    Esc { intermediates: Vec<u8>, final_byte: u8, raw: Vec<u8> },
    /// A complete, properly terminated string sequence.
    Str {
        kind: StrKind,
        /// Payload between introducer and terminator, capped at [`STR_MAX`].
        payload: Vec<u8>,
        /// Raw bytes including introducer and terminator (capped like payload).
        raw: Vec<u8>,
        /// True byte length consumed from the input (uncapped).
        len: usize,
        /// Payload exceeded [`STR_MAX`] and was truncated in `payload`/`raw`.
        overlong: bool,
    },
    /// A sequence that never completed correctly. Always stripped downstream.
    Malformed {
        raw: Vec<u8>,
        /// True byte length consumed from the input (uncapped).
        len: usize,
        reason: MalformedReason,
    },
}

impl View for Token {
    type V = TokenView;

    open spec fn view(&self) -> TokenView {
        match *self {
            Token::Text(t) => TokenView::Text(t@),
            Token::Control(b) => TokenView::Control(b),
            Token::C1(b) => TokenView::C1(b),
            Token::Csi { params, intermediates, final_byte, raw } => TokenView::Csi {
                params: params@,
                intermediates: intermediates@,
                final_byte,
                raw: raw@,
            },
            Token::Esc { intermediates, final_byte, raw } => TokenView::Esc {
                intermediates: intermediates@,
                final_byte,
                raw: raw@,
            },
            Token::Str { kind, payload, raw, len, overlong } => TokenView::Str {
                kind,
                payload: payload@,
                raw: raw@,
                len: len as nat,
                overlong,
            },
            Token::Malformed { raw, len, reason } => TokenView::Malformed {
                raw: raw@,
                len: len as nat,
                reason,
            },
        }
    }
}

impl Token {
    /// Number of input bytes this token accounts for.
    pub fn byte_len(&self) -> (n: usize)
        ensures
            n == self@.byte_len(),
    {
        match self {
            Token::Text(t) => t.len(),
            Token::Control(_) => 1,
            Token::C1(_) => 1,
            Token::Csi { raw, .. } => raw.len(),
            Token::Esc { raw, .. } => raw.len(),
            Token::Str { len, .. } => *len,
            Token::Malformed { len, .. } => *len,
        }
    }
}

/// The models of a sequence of tokens.
pub open spec fn views(tokens: Seq<Token>) -> Seq<TokenView> {
    tokens.map_values(|t: Token| t@)
}

/// Appends a token.
fn emit(out: &mut Vec<Token>, token: Token)
    ensures
        views(final(out)@) == views(old(out)@).push(token@),
{
    out.push(token);
    assert(views(out@) =~= views(old(out)@).push(token@));
}

#[derive(Debug, Clone, Copy, PartialEq, Eq, Structural)]
enum State {
    Ground,
    /// After ESC, possibly with intermediates collected.
    Escape,
    /// Inside a CSI sequence.
    Csi,
    /// Inside a string sequence payload.
    Str,
}

/// Push-based streaming tokenizer. Create once per stream; call
/// [`Parser::feed`] per chunk and [`Parser::finish`] exactly once at EOF.
#[derive(Debug)]
pub struct Parser {
    state: State,
    text: Vec<u8>,
    raw: Vec<u8>,
    params: Vec<u8>,
    intermediates: Vec<u8>,
    /// CSI: an intermediate byte has been seen (param bytes now illegal).
    csi_in_interm: bool,
    str_kind: StrKind,
    payload: Vec<u8>,
    /// True consumed length of the in-flight string sequence.
    str_len: usize,
    str_overlong: bool,
    /// Inside a string: an ESC was seen and may be the first half of ST.
    str_esc: bool,
    /// Bytes of a UTF-8 character in ground text that is not complete yet.
    partial: Vec<u8>,
}

impl View for Parser {
    type V = Phase;

    closed spec fn view(&self) -> Phase {
        match self.state {
            State::Ground => Phase::Ground {
                text: self.text@,
                part: self.partial@,
            },
            State::Escape => Phase::Escape { intermediates: self.intermediates@ },
            State::Csi => Phase::Csi {
                c1: self.raw@[0] != ESC,
                params: self.params@,
                intermediates: self.intermediates@,
            },
            State::Str => Phase::Str {
                kind: self.str_kind,
                c1: self.raw@[0] != ESC,
                payload: self.payload@,
                dropped: (self.str_len - self.raw@.len()) as nat,
                esc: self.str_esc,
            },
        }
    }
}

impl Default for Parser {
    fn default() -> (p: Self)
        ensures
            p.wf(),
            p@ == start(),
    {
        Self::new()
    }
}

impl Parser {
    /// The fields agree with each other.
    pub closed spec fn wf(&self) -> bool {
        &&& self@.bounded()
        &&& self.state != State::Ground ==> self.text@ == Seq::<u8>::empty() && self.partial@
            == Seq::<u8>::empty()
        &&& match self@ {
            Phase::Ground { .. } => true,
            Phase::Escape { intermediates } => self.raw@ == seq![ESC] + intermediates,
            Phase::Csi { c1, params, intermediates } => {
                &&& self.raw@ == csi_raw(c1, params, intermediates)
                &&& self.csi_in_interm == (intermediates.len() > 0)
            },
            Phase::Str { kind, c1, payload, dropped, .. } => {
                &&& self.raw@ == string_raw(kind, c1, payload)
                &&& self.str_len == self.raw@.len() + dropped
                &&& self.str_overlong == (dropped > 0)
            },
        }
    }

    /// A parser at the beginning of a stream.
    pub fn new() -> (p: Self)
        ensures
            p.wf(),
            p@ == start(),
    {
        let p = Parser {
            state: State::Ground,
            text: Vec::new(),
            raw: Vec::new(),
            params: Vec::new(),
            intermediates: Vec::new(),
            csi_in_interm: false,
            str_kind: StrKind::Osc,
            payload: Vec::new(),
            str_len: 0,
            str_overlong: false,
            str_esc: false,
            partial: Vec::new(),
        };
        assert(p@ =~= start());
        p
    }

    /// Tokenize a chunk, appending tokens to `out`. Sequences spanning chunk
    /// boundaries are held internally until complete. The bytes held since the
    /// last completed token have to be countable.
    pub fn feed(&mut self, input: &[u8], out: &mut Vec<Token>)
        requires
            old(self).wf(),
            old(self)@.held() + input@.len() <= usize::MAX,
        ensures
            final(self).wf(),
            final(self)@ == run(old(self)@, input@).phase,
            views(final(out)@) == views(old(out)@) + run(old(self)@, input@).tokens,
            final(self)@.held() <= old(self)@.held() + input@.len(),
    {
        let mut i: usize = 0;
        assert(input@.take(0) =~= Seq::<u8>::empty());
        assert(views(out@) =~= views(old(out)@) + run(old(self)@, input@.take(0)).tokens);
        while i < input.len()
            invariant
                i <= input@.len(),
                self.wf(),
                old(self)@.held() + input@.len() <= usize::MAX,
                self@.held() <= old(self)@.held() + i,
                self@ == run(old(self)@, input@.take(i as int)).phase,
                views(out@) == views(old(out)@) + run(old(self)@, input@.take(i as int)).tokens,
            decreases input@.len() - i,
        {
            let ghost before = input@.take(i as int);
            let ghost next = input@.take(i + 1);
            assert(next.drop_last() =~= before);
            assert(next.last() == input@[i as int]);
            let ghost so_far = views(out@);
            self.push_byte(input[i], out);
            assert(views(out@) =~= views(old(out)@) + run(old(self)@, next).tokens);
            i += 1;
        }
        assert(input@.take(i as int) =~= input@);
    }

    /// Flush end-of-input: emits pending text and turns any half-open
    /// sequence into [`Token::Malformed`] (a dangling introducer is itself a
    /// known trick to eat the bytes that follow it on a lenient terminal).
    pub fn finish(&mut self, out: &mut Vec<Token>)
        requires
            old(self).wf(),
            old(self)@.held() <= usize::MAX,
        ensures
            final(self).wf(),
            final(self)@ == start(),
            views(final(out)@) == views(old(out)@) + flush(old(self)@),
    {
        self.release(out);
        match self.state {
            State::Ground => self.flush_text(out),
            State::Escape => self.emit_malformed(MalformedReason::Truncated, out),
            State::Csi => self.emit_malformed(MalformedReason::Truncated, out),
            State::Str => {
                if self.str_esc {
                    // Count the held ESC as part of the doomed sequence.
                    self.str_len = self.str_len + 1;
                }
                self.emit_str_malformed(MalformedReason::Truncated, out);
            },
        }
        self.state = State::Ground;
        assert(self@ =~= start());
        assert(views(out@) =~= views(old(out)@) + flush(old(self)@));
    }

    fn push_byte(&mut self, b: u8, out: &mut Vec<Token>)
        requires
            old(self).wf(),
            old(self)@.held() < usize::MAX,
        ensures
            final(self).wf(),
            final(self)@ == step(old(self)@, b).phase,
            views(final(out)@) == views(old(out)@) + step(old(self)@, b).tokens,
            final(self)@.held() <= old(self)@.held() + 1,
    {
        // UTF-8 tracking: a byte that carries on a well-formed character is
        // text, never a C1 control.
        if self.partial.len() > 0 && continues_char(&self.partial, b) {
            self.partial.push(b);
            if self.partial.len() == char_size(self.partial[0]) {
                let whole = take_bytes(&mut self.partial);
                append_bytes(&mut self.text, whole.as_slice());
            }
            assert(self@ =~= step(old(self)@, b).phase);
            assert(views(out@) =~= views(old(out)@) + Seq::<TokenView>::empty());
            return;
        }
        self.release(out);
        self.plain_byte(b, out);
        assert(views(out@) =~= views(old(out)@) + step(old(self)@, b).tokens);
    }

    /// Give up on a begun character: its first byte is text, and the others
    /// are read again, each on its own.
    fn release(&mut self, out: &mut Vec<Token>)
        requires
            old(self).wf(),
            old(self)@.held() <= usize::MAX,
        ensures
            final(self).wf(),
            final(self)@.settled(),
            final(self)@ == released(old(self)@).phase,
            views(final(out)@) == views(old(out)@) + released(old(self)@).tokens,
            final(self)@.held() <= old(self)@.held(),
    {
        if self.partial.len() == 0 {
            assert(views(out@) =~= views(old(out)@) + Seq::<TokenView>::empty());
            return;
        }
        let partial = take_bytes(&mut self.partial);
        self.text.push(partial[0]);
        let ghost from = Phase::Ground { text: self.text@, part: seq![] };
        let ghost rest = partial@.skip(1);
        let mut i: usize = 1;
        assert(self@ =~= from);
        assert(rest.take(0) =~= seq![]);
        assert(views(out@) =~= views(old(out)@) + plain_run(from, rest.take(0)).tokens);
        while i < partial.len()
            invariant
                1 <= i <= partial@.len(),
                rest == partial@.skip(1),
                char_begun(partial@),
                self.wf(),
                self@.settled(),
                from.held() + rest.len() <= usize::MAX,
                self@.held() <= from.held() + i - 1,
                self@ == plain_run(from, rest.take(i - 1)).phase,
                views(out@) == views(old(out)@) + plain_run(from, rest.take(i - 1)).tokens,
            decreases partial@.len() - i,
        {
            let ghost next = rest.take(i as int);
            assert(next.drop_last() =~= rest.take(i - 1));
            assert(next.last() == partial@[i as int]);
            proof {
                lemma_begun_continuation(partial@, i as int);
            }
            self.plain_byte(partial[i], out);
            assert(views(out@) =~= views(old(out)@) + plain_run(from, next).tokens);
            i += 1;
        }
        assert(rest.take(i - 1) =~= rest);
    }

    /// Read a byte where no character is begun.
    fn plain_byte(&mut self, b: u8, out: &mut Vec<Token>)
        requires
            old(self).wf(),
            old(self)@.settled(),
            old(self)@.held() < usize::MAX,
        ensures
            final(self).wf(),
            final(self)@ == plain_step(old(self)@, b).phase,
            views(final(out)@) == views(old(out)@) + plain_step(old(self)@, b).tokens,
            final(self)@.held() <= old(self)@.held() + 1,
            continuation_byte(b) ==> final(self)@.settled(),
    {
        match self.state {
            State::Ground => self.ground(b, out),
            State::Escape => self.escape(b, out),
            State::Csi => self.csi(b, out),
            State::Str => self.string(b, out),
        }
    }

    // --- ground state -----------------------------------------------------

    fn ground(&mut self, b: u8, out: &mut Vec<Token>)
        requires
            old(self).wf(),
            old(self)@ is Ground,
            old(self)@.settled(),
        ensures
            final(self).wf(),
            final(self)@ == plain_step(old(self)@, b).phase,
            views(final(out)@) == views(old(out)@) + plain_step(old(self)@, b).tokens,
            final(self)@.held() <= old(self)@.held() + 1,
    {
        let ghost text = self.text@;
        if char_size(b) > 0 {
            self.partial.push(b);
            assert(self.partial@ =~= seq![b]);
            assert(views(out@) =~= views(old(out)@) + Seq::<TokenView>::empty());
        } else if b == ESC {
            self.flush_text(out);
            self.begin_escape();
        } else if b < 0x20 || b == DEL {
            self.flush_text(out);
            emit(out, Token::Control(b));
            assert(views(out@) =~= views(old(out)@) + text_token(text).push(TokenView::Control(b)));
        } else if 0x80 <= b && b <= 0x9F {
            self.c1(b, out);
        } else {
            self.text.push(b);
            assert(self.partial@ =~= seq![]);
            assert(views(out@) =~= views(old(out)@) + Seq::<TokenView>::empty());
        }
    }

    /// A raw 8-bit C1 control outside UTF-8 text. The string/CSI introducers
    /// open their sequence exactly like their ESC-prefixed twins; naive
    /// filters that only look for `0x1B` miss these entirely.
    fn c1(&mut self, b: u8, out: &mut Vec<Token>)
        requires
            old(self).wf(),
            old(self)@ is Ground,
            old(self)@.settled(),
            c1_byte(b),
        ensures
            final(self).wf(),
            final(self)@ == ground_step(old(self)@->text, b).phase,
            views(final(out)@) == views(old(out)@) + ground_step(old(self)@->text, b).tokens,
            final(self)@.held() <= 1,
    {
        let ghost text = self.text@;
        self.flush_text(out);
        if b == C1_CSI {
            let mut intro: Vec<u8> = Vec::new();
            intro.push(b);
            assert(intro@ =~= csi_intro(true));
            self.begin_csi(intro, Ghost(true));
        } else if b == 0x90 {
            self.c1_to_str(StrKind::Dcs, b);
        } else if b == 0x98 {
            self.c1_to_str(StrKind::Sos, b);
        } else if b == 0x9D {
            self.c1_to_str(StrKind::Osc, b);
        } else if b == 0x9E {
            self.c1_to_str(StrKind::Pm, b);
        } else if b == 0x9F {
            self.c1_to_str(StrKind::Apc, b);
        } else {
            emit(out, Token::C1(b));
            assert(views(out@) =~= views(old(out)@) + text_token(text).push(TokenView::C1(b)));
        }
    }

    fn c1_to_str(&mut self, kind: StrKind, b: u8)
        requires
            old(self).wf(),
            old(self)@ == start(),
            string_intro(kind, true) == seq![b],
        ensures
            final(self).wf(),
            final(self)@ == (Phase::Str {
                kind,
                c1: true,
                payload: seq![],
                dropped: 0,
                esc: false,
            }),
    {
        let mut intro: Vec<u8> = Vec::new();
        intro.push(b);
        assert(intro@ =~= string_intro(kind, true));
        self.begin_str(kind, intro, Ghost(true));
    }

    // --- escape state -----------------------------------------------------

    fn escape(&mut self, b: u8, out: &mut Vec<Token>)
        requires
            old(self).wf(),
            old(self)@ is Escape,
        ensures
            final(self).wf(),
            final(self)@ == plain_step(old(self)@, b).phase,
            views(final(out)@) == views(old(out)@) + plain_step(old(self)@, b).tokens,
            final(self)@.held() <= old(self)@.held() + 1,
    {
        let ghost inter = self.intermediates@;
        let ghost raw = self.raw@;
        if b < 0x20 || b == DEL || b >= 0x80 {
            // A fresh control byte, 7-bit or C1, aborts the half-built
            // sequence, and any other high byte is illegal in it.
            let reason = if b >= 0xA0 {
                MalformedReason::BadByte
            } else {
                MalformedReason::AbortedByControl
            };
            self.emit_malformed(reason, out);
            self.ground(b, out);
            assert(views(out@) =~= views(old(out)@) + escape_step(inter, b).tokens);
        } else if 0x20 <= b && b <= 0x2F {
            if self.intermediates.len() >= ESC_INTERM_MAX {
                self.raw.push(b);
                self.emit_malformed(MalformedReason::Oversized, out);
                assert(views(out@) =~= views(old(out)@) + escape_step(inter, b).tokens);
            } else {
                self.intermediates.push(b);
                self.raw.push(b);
                assert(self.raw@ =~= seq![ESC] + self.intermediates@);
                assert(views(out@) =~= views(old(out)@) + Seq::<TokenView>::empty());
            }
        } else if b == BRACKET && self.intermediates.is_empty() {
            self.raw.push(b);
            let raw = take_bytes(&mut self.raw);
            assert(raw@ =~= csi_intro(false));
            self.begin_csi(raw, Ghost(false));
            assert(views(out@) =~= views(old(out)@) + Seq::<TokenView>::empty());
        } else if b == 0x5D && self.intermediates.is_empty() {
            assert(self.intermediates@ =~= seq![]);
            self.escape_to_str(StrKind::Osc, b);
            assert(views(out@) =~= views(old(out)@) + Seq::<TokenView>::empty());
        } else if b == 0x50 && self.intermediates.is_empty() {
            assert(self.intermediates@ =~= seq![]);
            self.escape_to_str(StrKind::Dcs, b);
            assert(views(out@) =~= views(old(out)@) + Seq::<TokenView>::empty());
        } else if b == 0x58 && self.intermediates.is_empty() {
            assert(self.intermediates@ =~= seq![]);
            self.escape_to_str(StrKind::Sos, b);
            assert(views(out@) =~= views(old(out)@) + Seq::<TokenView>::empty());
        } else if b == 0x5E && self.intermediates.is_empty() {
            assert(self.intermediates@ =~= seq![]);
            self.escape_to_str(StrKind::Pm, b);
            assert(views(out@) =~= views(old(out)@) + Seq::<TokenView>::empty());
        } else if b == 0x5F && self.intermediates.is_empty() {
            assert(self.intermediates@ =~= seq![]);
            self.escape_to_str(StrKind::Apc, b);
            assert(views(out@) =~= views(old(out)@) + Seq::<TokenView>::empty());
        } else {
            self.raw.push(b);
            let intermediates = take_bytes(&mut self.intermediates);
            let raw = take_bytes(&mut self.raw);
            emit(out, Token::Esc { intermediates, final_byte: b, raw });
            self.state = State::Ground;
            assert(self@ =~= start());
            assert(views(out@) =~= views(old(out)@) + escape_step(inter, b).tokens);
        }
    }

    fn escape_to_str(&mut self, kind: StrKind, b: u8)
        requires
            old(self).wf(),
            old(self)@ == (Phase::Escape { intermediates: seq![] }),
            string_intro(kind, false) == seq![ESC, b],
        ensures
            final(self).wf(),
            final(self)@ == (Phase::Str {
                kind,
                c1: false,
                payload: seq![],
                dropped: 0,
                esc: false,
            }),
    {
        self.raw.push(b);
        let raw = take_bytes(&mut self.raw);
        self.intermediates.clear();
        assert(raw@ =~= string_intro(kind, false));
        self.begin_str(kind, raw, Ghost(false));
    }

    // --- CSI state ----------------------------------------------------------

    fn csi(&mut self, b: u8, out: &mut Vec<Token>)
        requires
            old(self).wf(),
            old(self)@ is Csi,
        ensures
            final(self).wf(),
            final(self)@ == plain_step(old(self)@, b).phase,
            views(final(out)@) == views(old(out)@) + plain_step(old(self)@, b).tokens,
            final(self)@.held() <= old(self)@.held() + 1,
    {
        let ghost c1 = self@->Csi_c1;
        let ghost params = self.params@;
        let ghost inter = self.intermediates@;
        if b < 0x20 || b >= 0x7F {
            // Control or high byte spliced into the sequence: abort and
            // reprocess the byte on its own.
            let reason = if b >= 0x80 {
                MalformedReason::BadByte
            } else {
                MalformedReason::AbortedByControl
            };
            self.emit_malformed(reason, out);
            self.ground(b, out);
            assert(views(out@) =~= views(old(out)@) + csi_step(c1, params, inter, b).tokens);
        } else if 2 + self.params.len() + self.intermediates.len() >= CSI_MAX {
            self.raw.push(b);
            self.emit_malformed(MalformedReason::Oversized, out);
            assert(views(out@) =~= views(old(out)@) + csi_step(c1, params, inter, b).tokens);
        } else if 0x30 <= b && b <= 0x3F {
            if self.csi_in_interm {
                // Parameter byte after an intermediate byte is illegal.
                self.emit_malformed(MalformedReason::BadByte, out);
                self.ground(b, out);
                assert(views(out@) =~= views(old(out)@) + csi_step(c1, params, inter, b).tokens);
            } else {
                self.params.push(b);
                self.raw.push(b);
                assert(self.raw@ =~= csi_raw(c1, self.params@, self.intermediates@));
                assert(views(out@) =~= views(old(out)@) + Seq::<TokenView>::empty());
            }
        } else if b <= 0x2F {
            self.csi_in_interm = true;
            self.intermediates.push(b);
            self.raw.push(b);
            assert(self.raw@ =~= csi_raw(c1, self.params@, self.intermediates@));
            assert(views(out@) =~= views(old(out)@) + Seq::<TokenView>::empty());
        } else {
            self.raw.push(b);
            let params = take_bytes(&mut self.params);
            let intermediates = take_bytes(&mut self.intermediates);
            let raw = take_bytes(&mut self.raw);
            emit(out, Token::Csi { params, intermediates, final_byte: b, raw });
            self.state = State::Ground;
            assert(self@ =~= start());
            assert(views(out@) =~= views(old(out)@) + csi_step(c1, params@, inter, b).tokens);
        }
    }

    // --- string state -------------------------------------------------------

    fn string(&mut self, b: u8, out: &mut Vec<Token>)
        requires
            old(self).wf(),
            old(self)@ is Str,
            old(self)@.held() < usize::MAX,
        ensures
            final(self).wf(),
            final(self)@ == plain_step(old(self)@, b).phase,
            views(final(out)@) == views(old(out)@) + plain_step(old(self)@, b).tokens,
            final(self)@.held() <= old(self)@.held() + 1,
    {
        let ghost kind = self.str_kind;
        let ghost c1 = self@->Str_c1;
        let ghost payload = self.payload@;
        let ghost dropped = self@->dropped;
        let ghost esc = self.str_esc;
        if self.str_esc {
            self.str_esc = false;
            if b == BACKSLASH {
                // ESC \ = ST, the proper terminator.
                self.emit_str(true, b, out);
                assert(views(out@) =~= views(old(out)@) + string_step(
                    kind,
                    c1,
                    payload,
                    dropped,
                    esc,
                    b,
                ).tokens);
            } else {
                // The ESC belonged to a new sequence: the string never ended.
                self.emit_str_malformed(MalformedReason::AbortedByControl, out);
                self.begin_escape();
                self.escape(b, out);
                assert(views(out@) =~= views(old(out)@) + string_step(
                    kind,
                    c1,
                    payload,
                    dropped,
                    esc,
                    b,
                ).tokens);
            }
            return;
        }
        if b == ESC {
            self.str_esc = true;
            assert(views(out@) =~= views(old(out)@) + Seq::<TokenView>::empty());
        } else if (b == BEL && self.str_kind == StrKind::Osc) || b == C1_ST {
            // BEL terminates OSC only (an xterm extension). For the raw 8-bit
            // ST we are no longer in text, so UTF-8 leniency does not apply.
            self.emit_str(false, b, out);
            assert(views(out@) =~= views(old(out)@) + string_step(
                kind,
                c1,
                payload,
                dropped,
                esc,
                b,
            ).tokens);
        } else if b < 0x20 || b == DEL {
            // A bare control byte (newline splice, CAN, SUB...) aborts.
            self.emit_str_malformed(MalformedReason::AbortedByControl, out);
            self.ground(b, out);
            assert(views(out@) =~= views(old(out)@) + string_step(
                kind,
                c1,
                payload,
                dropped,
                esc,
                b,
            ).tokens);
        } else {
            self.str_len = self.str_len + 1;
            if self.payload.len() >= STR_MAX {
                self.str_overlong = true;
            } else {
                self.payload.push(b);
                self.raw.push(b);
                assert(self.raw@ =~= string_raw(kind, c1, self.payload@));
            }
            assert(views(out@) =~= views(old(out)@) + Seq::<TokenView>::empty());
        }
    }

    // --- helpers ------------------------------------------------------------

    fn flush_text(&mut self, out: &mut Vec<Token>)
        requires
            old(self).wf(),
            old(self)@ is Ground,
            old(self)@.settled(),
        ensures
            final(self).wf(),
            final(self)@ == start(),
            views(final(out)@) == views(old(out)@) + text_token(old(self)@->text),
    {
        if !self.text.is_empty() {
            let text = take_bytes(&mut self.text);
            emit(out, Token::Text(text));
        }
        assert(self@ =~= start());
        assert(views(out@) =~= views(old(out)@) + text_token(old(self)@->text));
    }

    fn begin_escape(&mut self)
        requires
            old(self).wf(),
            old(self)@ == start(),
        ensures
            final(self).wf(),
            final(self)@ == (Phase::Escape { intermediates: seq![] }),
    {
        self.raw.clear();
        self.raw.push(ESC);
        self.intermediates.clear();
        self.state = State::Escape;
        assert(self.raw@ =~= seq![ESC] + Seq::<u8>::empty());
    }

    fn begin_csi(&mut self, intro: Vec<u8>, Ghost(c1): Ghost<bool>)
        requires
            old(self).text@ == Seq::<u8>::empty(),
            old(self).partial@ == Seq::<u8>::empty(),
            intro@ == csi_intro(c1),
        ensures
            final(self).wf(),
            final(self)@ == (Phase::Csi { c1, params: seq![], intermediates: seq![] }),
    {
        self.raw = intro;
        self.params.clear();
        self.intermediates.clear();
        self.csi_in_interm = false;
        self.state = State::Csi;
        assert(self.raw@ =~= csi_raw(c1, seq![], seq![]));
    }

    fn begin_str(&mut self, kind: StrKind, intro: Vec<u8>, Ghost(c1): Ghost<bool>)
        requires
            old(self).text@ == Seq::<u8>::empty(),
            old(self).partial@ == Seq::<u8>::empty(),
            intro@ == string_intro(kind, c1),
        ensures
            final(self).wf(),
            final(self)@ == (Phase::Str { kind, c1, payload: seq![], dropped: 0, esc: false }),
    {
        self.payload.clear();
        self.str_kind = kind;
        self.str_len = intro.len();
        self.raw = intro;
        self.str_overlong = false;
        self.str_esc = false;
        self.state = State::Str;
        assert(self.raw@ =~= string_raw(kind, c1, seq![]));
    }

    /// Retain a terminator byte, unless payload was dropped before it.
    fn str_push_raw(&mut self, b: u8)
        ensures
            *final(self) == (Parser { raw: final(self).raw, ..*old(self) }),
            final(self).raw@ == if old(self).str_overlong {
                old(self).raw@
            } else {
                old(self).raw@.push(b)
            },
    {
        if !self.str_overlong {
            self.raw.push(b);
        }
    }

    /// Ends the string sequence with `b`, after an `ESC` if `escaped`.
    fn emit_str(&mut self, escaped: bool, b: u8, out: &mut Vec<Token>)
        requires
            old(self).wf(),
            old(self)@ is Str,
            old(self).str_len + (if escaped {
                2nat
            } else {
                1nat
            }) <= usize::MAX,
        ensures
            final(self).wf(),
            final(self)@ == start(),
            views(final(out)@) == views(old(out)@).push(
                string_token(
                    old(self).str_kind,
                    old(self)@->Str_c1,
                    old(self).payload@,
                    old(self)@->dropped,
                    if escaped {
                        seq![ESC, b]
                    } else {
                        seq![b]
                    },
                ),
            ),
    {
        if escaped {
            self.str_len = self.str_len + 1;
            self.str_push_raw(ESC);
        }
        self.str_len = self.str_len + 1;
        self.str_push_raw(b);
        let payload = take_bytes(&mut self.payload);
        let raw = take_bytes(&mut self.raw);
        assert(raw@ =~= old(self).raw@ + (if old(self).str_overlong {
            seq![]
        } else if escaped {
            seq![ESC, b]
        } else {
            seq![b]
        }));
        emit(
            out,
            Token::Str {
                kind: self.str_kind,
                payload,
                raw,
                len: self.str_len,
                overlong: self.str_overlong,
            },
        );
        self.state = State::Ground;
        assert(self@ =~= start());
    }

    fn emit_str_malformed(&mut self, reason: MalformedReason, out: &mut Vec<Token>)
        requires
            old(self).text@ == Seq::<u8>::empty(),
            old(self).partial@ == Seq::<u8>::empty(),
        ensures
            final(self).wf(),
            final(self)@ == start(),
            views(final(out)@) == views(old(out)@).push(
                TokenView::Malformed {
                    raw: old(self).raw@,
                    len: old(self).str_len as nat,
                    reason,
                },
            ),
    {
        self.payload.clear();
        let raw = take_bytes(&mut self.raw);
        emit(out, Token::Malformed { raw, len: self.str_len, reason });
        self.state = State::Ground;
        assert(self@ =~= start());
    }

    fn emit_malformed(&mut self, reason: MalformedReason, out: &mut Vec<Token>)
        requires
            old(self).text@ == Seq::<u8>::empty(),
            old(self).partial@ == Seq::<u8>::empty(),
        ensures
            final(self).wf(),
            final(self)@ == start(),
            views(final(out)@) == views(old(out)@).push(broken(old(self).raw@, reason)),
    {
        let raw = take_bytes(&mut self.raw);
        let len = raw.len();
        self.params.clear();
        self.intermediates.clear();
        emit(out, Token::Malformed { raw, len, reason });
        self.state = State::Ground;
        assert(self@ =~= start());
    }
}

/// Convenience for one-shot callers: tokenize a complete buffer.
pub fn tokenize(input: &[u8]) -> (out: Vec<Token>)
    ensures
        views(out@) == tokens(input@),
{
    let mut p = Parser::new();
    let mut out: Vec<Token> = Vec::new();
    assert(views(out@) =~= Seq::<TokenView>::empty());
    assert(input@.len() == input.len());
    p.feed(input, &mut out);
    p.finish(&mut out);
    assert(views(out@) =~= tokens(input@));
    out
}

} // verus!
