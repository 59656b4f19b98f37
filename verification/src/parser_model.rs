//! The tokenizer as a mathematical state machine.
//!
//! [`step`] says what one input byte does to the parser's [`Phase`] and which
//! tokens it completes. [`run`] folds it over a byte sequence and [`flush`]
//! says what the end of input adds, so [`tokens`] is the token sequence of a
//! complete input.

use vstd::prelude::*;

use crate::bytes::{
    c1_byte, control_byte, intermediate_byte, param_byte, BACKSLASH, BEL, BRACKET, C1_CSI, C1_ST,
    ESC,
};
use crate::parser::{MalformedReason, StrKind, CSI_MAX, ESC_INTERM_MAX, STR_MAX};
use crate::utf8_model::{char_begun, char_len, continues};

verus! {

/// A token with its byte vectors as sequences.
#[verifier::ext_equal]
pub enum TokenView {
    Text(Seq<u8>),
    Control(u8),
    C1(u8),
    Csi { params: Seq<u8>, intermediates: Seq<u8>, final_byte: u8, raw: Seq<u8> },
    Esc { intermediates: Seq<u8>, final_byte: u8, raw: Seq<u8> },
    Str { kind: StrKind, payload: Seq<u8>, raw: Seq<u8>, len: nat, overlong: bool },
    Malformed { raw: Seq<u8>, len: nat, reason: MalformedReason },
}

impl TokenView {
    /// How many input bytes the token accounts for.
    pub open spec fn byte_len(self) -> nat {
        match self {
            TokenView::Text(t) => t.len(),
            TokenView::Control(_) | TokenView::C1(_) => 1,
            TokenView::Csi { raw, .. } | TokenView::Esc { raw, .. } => raw.len(),
            TokenView::Str { len, .. } | TokenView::Malformed { len, .. } => len,
        }
    }

    /// The bytes of the token that were retained.
    pub open spec fn raw(self) -> Seq<u8> {
        match self {
            TokenView::Text(t) => t,
            TokenView::Control(b) | TokenView::C1(b) => seq![b],
            TokenView::Csi { raw, .. } | TokenView::Esc { raw, .. } => raw,
            TokenView::Str { raw, .. } | TokenView::Malformed { raw, .. } => raw,
        }
    }
}

/// Where the parser stands between two bytes.
#[verifier::ext_equal]
pub enum Phase {
    /// Outside any sequence: the text run so far, and the bytes read of a UTF-8
    /// character that is not complete yet.
    Ground { text: Seq<u8>, part: Seq<u8> },
    /// After `ESC`, with the intermediates read so far.
    Escape { intermediates: Seq<u8> },
    /// Inside a control sequence. `c1` tells the 8-bit introducer.
    Csi { c1: bool, params: Seq<u8>, intermediates: Seq<u8> },
    /// Inside a string sequence: the retained payload, how many payload bytes
    /// past the cap were dropped, and whether an `ESC` is held back.
    Str { kind: StrKind, c1: bool, payload: Seq<u8>, dropped: nat, esc: bool },
}

/// A phase together with the tokens completed on the way to it.
#[verifier::ext_equal]
pub struct Run {
    pub phase: Phase,
    pub tokens: Seq<TokenView>,
}

/// The letter that follows `ESC` in the 7-bit introducer of a string sequence.
pub open spec fn string_letter(kind: StrKind) -> u8 {
    match kind {
        StrKind::Osc => 0x5D,
        StrKind::Dcs => 0x50,
        StrKind::Apc => 0x5F,
        StrKind::Pm => 0x5E,
        StrKind::Sos => 0x58,
    }
}

/// The string sequence that `ESC` and then `b` opens, if any.
pub open spec fn string_of_letter(b: u8) -> Option<StrKind> {
    if b == 0x5D {
        Some(StrKind::Osc)
    } else if b == 0x50 {
        Some(StrKind::Dcs)
    } else if b == 0x58 {
        Some(StrKind::Sos)
    } else if b == 0x5E {
        Some(StrKind::Pm)
    } else if b == 0x5F {
        Some(StrKind::Apc)
    } else {
        None
    }
}

/// The introducer of a string sequence. The 8-bit form is the letter of the
/// 7-bit form moved up by `0x40`.
pub open spec fn string_intro(kind: StrKind, c1: bool) -> Seq<u8> {
    if c1 {
        seq![(string_letter(kind) + 0x40) as u8]
    } else {
        seq![ESC, string_letter(kind)]
    }
}

/// The introducer of a control sequence.
pub open spec fn csi_intro(c1: bool) -> Seq<u8> {
    if c1 {
        seq![C1_CSI]
    } else {
        seq![ESC, BRACKET]
    }
}

/// The bytes of a control sequence read so far.
pub open spec fn csi_raw(c1: bool, params: Seq<u8>, intermediates: Seq<u8>) -> Seq<u8> {
    csi_intro(c1) + params + intermediates
}

/// The retained bytes of an unterminated string sequence.
pub open spec fn string_raw(kind: StrKind, c1: bool, payload: Seq<u8>) -> Seq<u8> {
    string_intro(kind, c1) + payload
}

/// The token that ends a text run: none if the run is empty.
pub open spec fn text_token(text: Seq<u8>) -> Seq<TokenView> {
    if text.len() == 0 {
        seq![]
    } else {
        seq![TokenView::Text(text)]
    }
}

/// A sequence given up whose bytes are all retained.
pub open spec fn broken(raw: Seq<u8>, reason: MalformedReason) -> TokenView {
    TokenView::Malformed { raw, len: raw.len(), reason }
}

/// The state outside any sequence with no text read yet.
pub open spec fn start() -> Phase {
    Phase::Ground { text: seq![], part: seq![] }
}

/// `run` with `earlier` put before its tokens.
pub open spec fn preceded(earlier: Seq<TokenView>, run: Run) -> Run {
    Run { phase: run.phase, tokens: earlier + run.tokens }
}

/// What a byte does outside any sequence where no character is begun.
pub open spec fn ground_step(text: Seq<u8>, b: u8) -> Run {
    if char_len(b) > 0 {
        Run { phase: Phase::Ground { text, part: seq![b] }, tokens: seq![] }
    } else if b == ESC {
        Run { phase: Phase::Escape { intermediates: seq![] }, tokens: text_token(text) }
    } else if control_byte(b) {
        Run { phase: start(), tokens: text_token(text).push(TokenView::Control(b)) }
    } else if b == C1_CSI {
        Run {
            phase: Phase::Csi { c1: true, params: seq![], intermediates: seq![] },
            tokens: text_token(text),
        }
    } else if c1_byte(b) {
        match string_of_letter((b - 0x40) as u8) {
            Some(kind) => Run {
                phase: Phase::Str { kind, c1: true, payload: seq![], dropped: 0, esc: false },
                tokens: text_token(text),
            },
            None => Run { phase: start(), tokens: text_token(text).push(TokenView::C1(b)) },
        }
    } else {
        Run { phase: Phase::Ground { text: text.push(b), part: seq![] }, tokens: seq![] }
    }
}

/// What a byte does after `ESC` and `intermediates`. A control byte, 7-bit or
/// C1, aborts the sequence, and any other high byte is illegal in it.
pub open spec fn escape_step(intermediates: Seq<u8>, b: u8) -> Run {
    let raw = seq![ESC] + intermediates;
    if control_byte(b) || c1_byte(b) {
        preceded(seq![broken(raw, MalformedReason::AbortedByControl)], ground_step(seq![], b))
    } else if b >= 0xA0 {
        preceded(seq![broken(raw, MalformedReason::BadByte)], ground_step(seq![], b))
    } else if intermediate_byte(b) {
        if intermediates.len() >= ESC_INTERM_MAX {
            Run {
                phase: start(),
                tokens: seq![broken(raw.push(b), MalformedReason::Oversized)],
            }
        } else {
            Run {
                phase: Phase::Escape { intermediates: intermediates.push(b) },
                tokens: seq![],
            }
        }
    } else if b == BRACKET && intermediates.len() == 0 {
        Run {
            phase: Phase::Csi { c1: false, params: seq![], intermediates: seq![] },
            tokens: seq![],
        }
    } else if string_of_letter(b) is Some && intermediates.len() == 0 {
        Run {
            phase: Phase::Str {
                kind: string_of_letter(b)->0,
                c1: false,
                payload: seq![],
                dropped: 0,
                esc: false,
            },
            tokens: seq![],
        }
    } else {
        Run {
            phase: start(),
            tokens: seq![TokenView::Esc { intermediates, final_byte: b, raw: raw.push(b) }],
        }
    }
}

/// What a byte does inside a control sequence. A byte that cannot stand there
/// breaks the sequence off and is read on its own. The cap is on the sequence
/// with the 7-bit introducer.
pub open spec fn csi_step(c1: bool, params: Seq<u8>, intermediates: Seq<u8>, b: u8) -> Run {
    let raw = csi_raw(c1, params, intermediates);
    if b >= 0x80 {
        preceded(seq![broken(raw, MalformedReason::BadByte)], ground_step(seq![], b))
    } else if control_byte(b) {
        preceded(seq![broken(raw, MalformedReason::AbortedByControl)], ground_step(seq![], b))
    } else if csi_raw(false, params, intermediates).len() >= CSI_MAX {
        Run { phase: start(), tokens: seq![broken(raw.push(b), MalformedReason::Oversized)] }
    } else if param_byte(b) {
        if intermediates.len() > 0 {
            preceded(seq![broken(raw, MalformedReason::BadByte)], ground_step(seq![], b))
        } else {
            Run { phase: Phase::Csi { c1, params: params.push(b), intermediates }, tokens: seq![] }
        }
    } else if intermediate_byte(b) {
        Run {
            phase: Phase::Csi { c1, params, intermediates: intermediates.push(b) },
            tokens: seq![],
        }
    } else {
        Run {
            phase: start(),
            tokens: seq![TokenView::Csi { params, intermediates, final_byte: b, raw: raw.push(b) }],
        }
    }
}

/// Does `b` end a string sequence of this kind by itself?
pub open spec fn string_end(kind: StrKind, b: u8) -> bool {
    b == C1_ST || (b == BEL && kind == StrKind::Osc)
}

/// May `b` stand in the payload of a string sequence?
pub open spec fn payload_byte(b: u8) -> bool {
    !control_byte(b) && b != C1_ST
}

/// May every byte of `s` stand in the payload of a string sequence?
pub open spec fn all_payload(s: Seq<u8>) -> bool {
    forall|i: int| 0 <= i < s.len() ==> payload_byte(#[trigger] s[i])
}

/// The token of a string sequence read to its terminator `end`. The
/// terminator is retained unless payload was dropped before it.
pub open spec fn string_token(
    kind: StrKind,
    c1: bool,
    payload: Seq<u8>,
    dropped: nat,
    end: Seq<u8>,
) -> TokenView {
    let raw = string_raw(kind, c1, payload);
    TokenView::Str {
        kind,
        payload,
        raw: if dropped > 0 {
            raw
        } else {
            raw + end
        },
        len: raw.len() + dropped + end.len(),
        overlong: dropped > 0,
    }
}

/// What a byte does inside a string sequence.
pub open spec fn string_step(
    kind: StrKind,
    c1: bool,
    payload: Seq<u8>,
    dropped: nat,
    esc: bool,
    b: u8,
) -> Run {
    let raw = string_raw(kind, c1, payload);
    let len = raw.len() + dropped;
    let aborted = TokenView::Malformed { raw, len, reason: MalformedReason::AbortedByControl };
    if esc {
        if b == BACKSLASH {
            Run {
                phase: start(),
                tokens: seq![string_token(kind, c1, payload, dropped, seq![ESC, b])],
            }
        } else {
            preceded(seq![aborted], escape_step(seq![], b))
        }
    } else if b == ESC {
        Run { phase: Phase::Str { kind, c1, payload, dropped, esc: true }, tokens: seq![] }
    } else if string_end(kind, b) {
        Run {
            phase: start(),
            tokens: seq![string_token(kind, c1, payload, dropped, seq![b])],
        }
    } else if !payload_byte(b) {
        preceded(seq![aborted], ground_step(seq![], b))
    } else if payload.len() >= STR_MAX {
        Run {
            phase: Phase::Str { kind, c1, payload, dropped: dropped + 1, esc: false },
            tokens: seq![],
        }
    } else {
        Run {
            phase: Phase::Str { kind, c1, payload: payload.push(b), dropped, esc: false },
            tokens: seq![],
        }
    }
}

/// What a byte does to the parser where no character is begun.
pub open spec fn plain_step(phase: Phase, b: u8) -> Run {
    match phase {
        Phase::Ground { text, .. } => ground_step(text, b),
        Phase::Escape { intermediates } => escape_step(intermediates, b),
        Phase::Csi { c1, params, intermediates } => csi_step(c1, params, intermediates, b),
        Phase::Str { kind, c1, payload, dropped, esc } => string_step(
            kind,
            c1,
            payload,
            dropped,
            esc,
            b,
        ),
    }
}

/// What bytes do to the parser where no character is begun.
pub open spec fn plain_run(phase: Phase, input: Seq<u8>) -> Run
    decreases input.len(),
{
    if input.len() == 0 {
        Run { phase, tokens: seq![] }
    } else {
        let before = plain_run(phase, input.drop_last());
        preceded(before.tokens, plain_step(before.phase, input.last()))
    }
}

/// Giving up on a begun character: its first byte is text, and the others are
/// read again, each on its own.
pub open spec fn released(phase: Phase) -> Run {
    match phase {
        Phase::Ground { text, part } => if part.len() == 0 {
            Run { phase, tokens: seq![] }
        } else {
            plain_run(Phase::Ground { text: text.push(part[0]), part: seq![] }, part.skip(1))
        },
        _ => Run { phase, tokens: seq![] },
    }
}

/// Does the byte carry a begun character on?
pub open spec fn carries_on(phase: Phase, b: u8) -> bool {
    phase matches Phase::Ground { part, .. } && part.len() > 0 && continues(part, b)
}

/// A begun character with one byte more: text once it is complete.
pub open spec fn char_step(text: Seq<u8>, part: Seq<u8>, b: u8) -> Phase {
    let more = part.push(b);
    if more.len() == char_len(part[0]) {
        Phase::Ground { text: text + more, part: seq![] }
    } else {
        Phase::Ground { text, part: more }
    }
}

/// What a byte does to the parser.
pub open spec fn step(phase: Phase, b: u8) -> Run {
    if carries_on(phase, b) {
        Run { phase: char_step(phase->text, phase->part, b), tokens: seq![] }
    } else {
        let r = released(phase);
        preceded(r.tokens, plain_step(r.phase, b))
    }
}

/// What a sequence of bytes does to the parser.
pub open spec fn run(phase: Phase, input: Seq<u8>) -> Run
    decreases input.len(),
{
    if input.len() == 0 {
        Run { phase, tokens: seq![] }
    } else {
        let before = run(phase, input.drop_last());
        preceded(before.tokens, step(before.phase, input.last()))
    }
}

/// The tokens that the end of input adds where no character is begun: pending
/// text, or a half-open sequence as a truncated one.
pub open spec fn plain_flush(phase: Phase) -> Seq<TokenView> {
    match phase {
        Phase::Ground { text, .. } => text_token(text),
        Phase::Escape { intermediates } => seq![
            broken(seq![ESC] + intermediates, MalformedReason::Truncated),
        ],
        Phase::Csi { c1, params, intermediates } => seq![
            broken(csi_raw(c1, params, intermediates), MalformedReason::Truncated),
        ],
        Phase::Str { kind, c1, payload, .. } => seq![
            TokenView::Malformed {
                raw: string_raw(kind, c1, payload),
                len: phase.held(),
                reason: MalformedReason::Truncated,
            },
        ],
    }
}

/// The tokens that the end of input adds. A begun character is given up first.
pub open spec fn flush(phase: Phase) -> Seq<TokenView> {
    let r = released(phase);
    r.tokens + plain_flush(r.phase)
}

/// The tokens of a complete input.
pub open spec fn tokens(input: Seq<u8>) -> Seq<TokenView> {
    let r = run(start(), input);
    r.tokens + flush(r.phase)
}

impl Phase {
    /// The retained bytes keep to the caps, and a begun character is one.
    pub open spec fn bounded(self) -> bool {
        match self {
            Phase::Ground { part, .. } => part.len() == 0 || char_begun(part),
            Phase::Escape { intermediates } => intermediates.len() <= ESC_INTERM_MAX,
            Phase::Csi { params, intermediates, .. } => csi_raw(false, params, intermediates).len()
                <= CSI_MAX,
            Phase::Str { payload, dropped, .. } => {
                &&& payload.len() <= STR_MAX
                &&& dropped > 0 ==> payload.len() == STR_MAX
            },
        }
    }

    /// No character is begun.
    pub open spec fn settled(self) -> bool {
        self matches Phase::Ground { part, .. } ==> part.len() == 0
    }

    /// How many bytes have been read since the last completed token.
    pub open spec fn held(self) -> nat {
        match self {
            Phase::Ground { text, part } => text.len() + part.len(),
            Phase::Escape { intermediates } => 1 + intermediates.len(),
            Phase::Csi { c1, params, intermediates } => csi_raw(c1, params, intermediates).len(),
            Phase::Str { kind, c1, payload, dropped, esc } => string_raw(kind, c1, payload).len()
                + dropped + if esc {
                1nat
            } else {
                0nat
            },
        }
    }
}

} // verus!
