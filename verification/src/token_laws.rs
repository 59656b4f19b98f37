//! Which bytes make which tokens: every sequence in its standard form is read as
//! one token, wherever it stands behind text, and what breaks a sequence off is
//! read on its own.

use vstd::prelude::*;

use crate::bytes::{c1_byte, control_byte, digit_byte, intermediate_byte, param_byte};
use crate::parser::{MalformedReason, StrKind, CSI_MAX, ESC_INTERM_MAX, STR_MAX};
use crate::parser_laws::{lemma_run_byte, lemma_run_concat};
use crate::parser_model::{
    escape_step, flush, plain_flush, plain_step, preceded, run, start, step, string_intro,
    text_token, tokens, Phase, Run, TokenView,
};
use crate::policy::LINK_MAX;
use crate::sanitize::{EXCERPT_CAP, MAX_FINDINGS};

verus! {

// --- bytes ------------------------------------------------------------------------

/// The kinds of bytes, by their numbers.
pub proof fn lemma_byte_ranges(b: u8)
    ensures
        control_byte(b) <==> b <= 0x1F || b == 0x7F,
        c1_byte(b) <==> 0x80 <= b && b <= 0x9F,
        param_byte(b) <==> 0x30 <= b && b <= 0x3F,
        intermediate_byte(b) <==> 0x20 <= b && b <= 0x2F,
        digit_byte(b) <==> 0x30 <= b && b <= 0x39,
{
}

/// The limits on what is retained, stored and shown.
pub proof fn lemma_limits()
    ensures
        CSI_MAX == 128,
        STR_MAX == 8192,
        ESC_INTERM_MAX == 4,
        LINK_MAX == 2048,
        MAX_FINDINGS == 1000,
        EXCERPT_CAP == 48,
{
}

/// Are all bytes of `s` from `lo` to `hi`?
pub open spec fn all_between(s: Seq<u8>, lo: u8, hi: u8) -> bool {
    forall|i: int| 0 <= i < s.len() ==> lo <= #[trigger] s[i] && s[i] <= hi
}

/// Are all bytes of `s` neither control bytes nor the 8-bit string terminator?
pub open spec fn all_quiet(s: Seq<u8>) -> bool {
    forall|i: int| 0 <= i < s.len() ==> #[trigger] s[i] >= 0x20 && s[i] != 0x7F && s[i] != 0x9C
}

/// The introducer of a control sequence.
pub open spec fn csi_bytes(eight_bit: bool) -> Seq<u8> {
    if eight_bit {
        seq![0x9Bu8]
    } else {
        seq![0x1Bu8, 0x5Bu8]
    }
}

/// The letter behind `ESC` that introduces a string sequence.
pub open spec fn str_letter(kind: StrKind) -> u8 {
    match kind {
        StrKind::Osc => 0x5D,
        StrKind::Dcs => 0x50,
        StrKind::Apc => 0x5F,
        StrKind::Pm => 0x5E,
        StrKind::Sos => 0x58,
    }
}

/// The 8-bit introducer of a string sequence.
pub open spec fn str_code(kind: StrKind) -> u8 {
    match kind {
        StrKind::Osc => 0x9D,
        StrKind::Dcs => 0x90,
        StrKind::Apc => 0x9F,
        StrKind::Pm => 0x9E,
        StrKind::Sos => 0x98,
    }
}

/// The introducer of a string sequence.
pub open spec fn str_bytes(kind: StrKind, eight_bit: bool) -> Seq<u8> {
    if eight_bit {
        seq![str_code(kind)]
    } else {
        seq![0x1Bu8, str_letter(kind)]
    }
}

/// Does `end` terminate a string sequence of this kind? An operating system
/// command may end with the bell.
pub open spec fn terminates(kind: StrKind, end: Seq<u8>) -> bool {
    ||| end == seq![0x1Bu8, 0x5Cu8]
    ||| end == seq![0x9Cu8]
    ||| end == seq![0x07u8] && kind is Osc
}

// --- reading ----------------------------------------------------------------------

/// Outside any sequence, with some text read.
pub open spec fn outside(text: Seq<u8>) -> Phase {
    Phase::Ground { text, part: seq![] }
}

/// The text token, if there is text.
pub open spec fn pending(text: Seq<u8>) -> Seq<TokenView> {
    if text.len() == 0 {
        seq![]
    } else {
        seq![TokenView::Text(text)]
    }
}

/// After any text, are the bytes read as exactly these tokens, with nothing left
/// over?
pub open spec fn reads(bytes: Seq<u8>, toks: Seq<TokenView>) -> bool {
    forall|text: Seq<u8>| #[trigger]
        run(outside(text), bytes) == (Run { phase: outside(seq![]), tokens: pending(text) + toks })
}

/// After any text, do the bytes become these tokens once `b` comes, and is `b`
/// then read on its own?
pub open spec fn breaks_off(bytes: Seq<u8>, toks: Seq<TokenView>, b: u8) -> bool {
    forall|text: Seq<u8>| #[trigger]
        run(outside(text), bytes.push(b)) == preceded(
            pending(text) + toks,
            run(outside(seq![]), seq![b]),
        )
}

/// The text of printable ASCII in front of what is read is one token.
pub proof fn lemma_text_in_front(text: Seq<u8>, bytes: Seq<u8>, toks: Seq<TokenView>, rest: Seq<u8>)
    requires
        all_between(text, 0x20, 0x7E),
        reads(bytes, toks),
    ensures
        tokens(text + bytes + rest) == pending(text) + toks + tokens(rest),
{
    lemma_ascii(text);
    lemma_run_concat(start(), text, bytes);
    assert(run(outside(text), bytes) == (Run {
        phase: outside(seq![]),
        tokens: pending(text) + toks,
    }));
    let r = run(start(), text + bytes);
    assert(r.tokens =~= pending(text) + toks);
    lemma_run_concat(start(), text + bytes, rest);
    assert(r.phase == start());
    let more = run(start(), rest);
    assert(tokens(text + bytes + rest) =~= r.tokens + tokens(rest));
}

proof fn lemma_ascii(text: Seq<u8>)
    requires
        all_between(text, 0x20, 0x7E),
    ensures
        run(start(), text) == (Run { phase: outside(text), tokens: seq![] }),
    decreases text.len(),
{
    if text.len() > 0 {
        let front = text.drop_last();
        assert forall|i: int| 0 <= i < front.len() implies 0x20 <= #[trigger] front[i]
            && front[i] <= 0x7E by {
            assert(front[i] == text[i]);
        }
        lemma_ascii(front);
        lemma_inside(outside(front), text.last());
        assert(front.push(text.last()) =~= text);
    } else {
        assert(text =~= seq![]);
    }
}

/// One byte where no character is begun.
proof fn lemma_inside(phase: Phase, b: u8)
    requires
        phase matches Phase::Ground { part, .. } ==> part.len() == 0,
    ensures
        step(phase, b) == plain_step(phase, b),
{
    assert(step(phase, b).tokens =~= plain_step(phase, b).tokens);
}

/// One byte more.
proof fn lemma_next(phase: Phase, s: Seq<u8>, b: u8)
    ensures
        run(phase, s.push(b)) == preceded(
            run(phase, s).tokens,
            step(run(phase, s).phase, b),
        ),
{
    assert(s.push(b).drop_last() =~= s);
}

// --- single bytes -------------------------------------------------------------------

/// A control byte is a token by itself, and so is a C1 byte that introduces
/// nothing.
pub proof fn lemma_single_bytes(b: u8)
    ensures
        b <= 0x1F && b != 0x1B || b == 0x7F ==> reads(seq![b], seq![TokenView::Control(b)]),
        0x80 <= b && b <= 0x9F && b != 0x9B && b != 0x9D && b != 0x90 && b != 0x9F && b != 0x9E
            && b != 0x98 ==> reads(seq![b], seq![TokenView::C1(b)]),
{
    assert forall|text: Seq<u8>| b <= 0x1F && b != 0x1B || b == 0x7F implies #[trigger] run(
        outside(text),
        seq![b],
    ) == (Run {
        phase: outside(seq![]),
        tokens: pending(text) + seq![TokenView::Control(b)],
    }) by {
        lemma_run_byte(outside(text), b);
        lemma_inside(outside(text), b);
        assert(text_token(text).push(TokenView::Control(b)) =~= pending(text) + seq![
            TokenView::Control(b),
        ]);
    }
    assert forall|text: Seq<u8>|
        0x80 <= b && b <= 0x9F && b != 0x9B && b != 0x9D && b != 0x90 && b != 0x9F && b != 0x9E && b
            != 0x98 implies #[trigger] run(outside(text), seq![b]) == (Run {
        phase: outside(seq![]),
        tokens: pending(text) + seq![TokenView::C1(b)],
    }) by {
        lemma_run_byte(outside(text), b);
        lemma_inside(outside(text), b);
        assert(text_token(text).push(TokenView::C1(b)) =~= pending(text) + seq![TokenView::C1(b)]);
    }
}

// --- control sequences ----------------------------------------------------------------

proof fn lemma_escape_opened(text: Seq<u8>)
    ensures
        run(outside(text), seq![0x1Bu8]) == (Run {
            phase: Phase::Escape { intermediates: seq![] },
            tokens: pending(text),
        }),
{
    lemma_run_byte(outside(text), 0x1B);
    lemma_inside(outside(text), 0x1B);
}

proof fn lemma_csi_opened(text: Seq<u8>, eight_bit: bool)
    ensures
        run(outside(text), csi_bytes(eight_bit)) == (Run {
            phase: Phase::Csi { c1: eight_bit, params: seq![], intermediates: seq![] },
            tokens: pending(text),
        }),
{
    if eight_bit {
        lemma_run_byte(outside(text), 0x9B);
        lemma_inside(outside(text), 0x9B);
    } else {
        lemma_escape_opened(text);
        lemma_next(outside(text), seq![0x1Bu8], 0x5B);
        lemma_inside(Phase::Escape { intermediates: seq![] }, 0x5B);
        assert(seq![0x1Bu8].push(0x5B) =~= csi_bytes(false));
        assert(pending(text) + Seq::<TokenView>::empty() =~= pending(text));
    }
}

proof fn lemma_csi_inner(text: Seq<u8>, eight_bit: bool, params: Seq<u8>, intermediates: Seq<u8>)
    requires
        all_between(params, 0x30, 0x3F),
        all_between(intermediates, 0x20, 0x2F),
        params.len() + intermediates.len() <= 126,
    ensures
        run(outside(text), csi_bytes(eight_bit) + params + intermediates) == (Run {
            phase: Phase::Csi { c1: eight_bit, params, intermediates },
            tokens: pending(text),
        }),
    decreases params.len() + intermediates.len(),
{
    let all = csi_bytes(eight_bit) + params + intermediates;
    if intermediates.len() > 0 {
        let front = intermediates.drop_last();
        let b = intermediates.last();
        assert(all_between(front, 0x20, 0x2F));
        lemma_csi_inner(text, eight_bit, params, front);
        lemma_next(outside(text), csi_bytes(eight_bit) + params + front, b);
        lemma_inside(Phase::Csi { c1: eight_bit, params, intermediates: front }, b);
        assert((csi_bytes(eight_bit) + params + front).push(b) =~= all);
        assert(front.push(b) =~= intermediates);
        assert(pending(text) + Seq::<TokenView>::empty() =~= pending(text));
    } else if params.len() > 0 {
        let front = params.drop_last();
        let b = params.last();
        assert(all_between(front, 0x30, 0x3F));
        lemma_csi_inner(text, eight_bit, front, intermediates);
        lemma_next(outside(text), csi_bytes(eight_bit) + front + intermediates, b);
        lemma_inside(Phase::Csi { c1: eight_bit, params: front, intermediates }, b);
        assert((csi_bytes(eight_bit) + front + intermediates).push(b) =~= all);
        assert(front.push(b) =~= params);
        assert(pending(text) + Seq::<TokenView>::empty() =~= pending(text));
    } else {
        lemma_csi_opened(text, eight_bit);
        assert(all =~= csi_bytes(eight_bit));
        assert(params =~= seq![]);
        assert(intermediates =~= seq![]);
    }
}

/// A control sequence is read as one: introducer, parameter bytes, intermediate
/// bytes and a final byte, up to 128 bytes in the 7-bit form.
pub proof fn lemma_control_sequence_read(
    eight_bit: bool,
    params: Seq<u8>,
    intermediates: Seq<u8>,
    final_byte: u8,
)
    requires
        all_between(params, 0x30, 0x3F),
        all_between(intermediates, 0x20, 0x2F),
        0x40 <= final_byte <= 0x7E,
        2 + params.len() + intermediates.len() + 1 <= 128,
    ensures
        ({
            let raw = csi_bytes(eight_bit) + params + intermediates + seq![final_byte];
            reads(raw, seq![TokenView::Csi { params, intermediates, final_byte, raw }])
        }),
{
    let front = csi_bytes(eight_bit) + params + intermediates;
    let raw = front + seq![final_byte];
    let t = TokenView::Csi { params, intermediates, final_byte, raw };
    assert(front.push(final_byte) =~= raw);
    assert forall|text: Seq<u8>| #[trigger] run(outside(text), raw) == (Run {
        phase: outside(seq![]),
        tokens: pending(text) + seq![t],
    }) by {
        lemma_csi_inner(text, eight_bit, params, intermediates);
        lemma_next(outside(text), front, final_byte);
        lemma_inside(Phase::Csi { c1: eight_bit, params, intermediates }, final_byte);
    }
}

/// A control sequence that has 128 bytes in the 7-bit form and no final byte yet is
/// given up with the next byte that could stand in it.
pub proof fn lemma_oversized_control_sequence(
    eight_bit: bool,
    params: Seq<u8>,
    intermediates: Seq<u8>,
    b: u8,
)
    requires
        all_between(params, 0x30, 0x3F),
        all_between(intermediates, 0x20, 0x2F),
        0x20 <= b <= 0x7E,
        2 + params.len() + intermediates.len() == 128,
    ensures
        ({
            let raw = csi_bytes(eight_bit) + params + intermediates + seq![b];
            reads(
                raw,
                seq![
                    TokenView::Malformed {
                        raw,
                        len: raw.len(),
                        reason: MalformedReason::Oversized,
                    },
                ],
            )
        }),
{
    let front = csi_bytes(eight_bit) + params + intermediates;
    let raw = front + seq![b];
    let t = TokenView::Malformed { raw, len: raw.len(), reason: MalformedReason::Oversized };
    assert(front.push(b) =~= raw);
    assert forall|text: Seq<u8>| #[trigger] run(outside(text), raw) == (Run {
        phase: outside(seq![]),
        tokens: pending(text) + seq![t],
    }) by {
        lemma_csi_inner(text, eight_bit, params, intermediates);
        lemma_next(outside(text), front, b);
        lemma_inside(Phase::Csi { c1: eight_bit, params, intermediates }, b);
    }
}

/// A control byte aborts a control sequence, and a high byte, or a parameter byte
/// behind intermediates, is illegal in it. Either is then read on its own.
pub proof fn lemma_broken_control_sequence(
    eight_bit: bool,
    params: Seq<u8>,
    intermediates: Seq<u8>,
    b: u8,
)
    requires
        all_between(params, 0x30, 0x3F),
        all_between(intermediates, 0x20, 0x2F),
        2 + params.len() + intermediates.len() <= 127,
    ensures
        ({
            let raw = csi_bytes(eight_bit) + params + intermediates;
            let aborted = TokenView::Malformed {
                raw,
                len: raw.len(),
                reason: MalformedReason::AbortedByControl,
            };
            let bad = TokenView::Malformed {
                raw,
                len: raw.len(),
                reason: MalformedReason::BadByte,
            };
            &&& b <= 0x1F || b == 0x7F ==> breaks_off(raw, seq![aborted], b)
            &&& b >= 0x80 ==> breaks_off(raw, seq![bad], b)
            &&& 0x30 <= b && b <= 0x3F && intermediates.len() > 0 ==> breaks_off(
                raw,
                seq![bad],
                b,
            )
        }),
{
    let raw = csi_bytes(eight_bit) + params + intermediates;
    let aborted = TokenView::Malformed {
        raw,
        len: raw.len(),
        reason: MalformedReason::AbortedByControl,
    };
    let bad = TokenView::Malformed { raw, len: raw.len(), reason: MalformedReason::BadByte };
    assert forall|text: Seq<u8>| b <= 0x1F || b == 0x7F implies #[trigger] run(
        outside(text),
        raw.push(b),
    ) == preceded(pending(text) + seq![aborted], run(outside(seq![]), seq![b])) by {
        lemma_csi_broken(text, eight_bit, params, intermediates, b);
        assert(pending(text) + (seq![aborted] + run(outside(seq![]), seq![b]).tokens) =~= pending(
            text,
        ) + seq![aborted] + run(outside(seq![]), seq![b]).tokens);
    }
    assert forall|text: Seq<u8>|
        b >= 0x80 || 0x30 <= b && b <= 0x3F && intermediates.len() > 0 implies #[trigger] run(
        outside(text),
        raw.push(b),
    ) == preceded(pending(text) + seq![bad], run(outside(seq![]), seq![b])) by {
        lemma_csi_broken(text, eight_bit, params, intermediates, b);
        assert(pending(text) + (seq![bad] + run(outside(seq![]), seq![b]).tokens) =~= pending(text)
            + seq![bad] + run(outside(seq![]), seq![b]).tokens);
    }
}

proof fn lemma_csi_broken(
    text: Seq<u8>,
    eight_bit: bool,
    params: Seq<u8>,
    intermediates: Seq<u8>,
    b: u8,
)
    requires
        all_between(params, 0x30, 0x3F),
        all_between(intermediates, 0x20, 0x2F),
        params.len() + intermediates.len() <= 126,
    ensures
        ({
            let raw = csi_bytes(eight_bit) + params + intermediates;
            &&& run(outside(text), raw.push(b)) == preceded(
                pending(text),
                plain_step(Phase::Csi { c1: eight_bit, params, intermediates }, b),
            )
            &&& run(outside(seq![]), seq![b]) == plain_step(outside(seq![]), b)
        }),
{
    let raw = csi_bytes(eight_bit) + params + intermediates;
    lemma_csi_inner(text, eight_bit, params, intermediates);
    lemma_next(outside(text), raw, b);
    lemma_inside(Phase::Csi { c1: eight_bit, params, intermediates }, b);
    lemma_run_byte(outside(seq![]), b);
    lemma_inside(outside(seq![]), b);
}

/// A control sequence without a final byte is truncated where the input ends.
pub proof fn lemma_truncated_control_sequence(
    eight_bit: bool,
    params: Seq<u8>,
    intermediates: Seq<u8>,
)
    requires
        all_between(params, 0x30, 0x3F),
        all_between(intermediates, 0x20, 0x2F),
        2 + params.len() + intermediates.len() <= 128,
    ensures
        ({
            let raw = csi_bytes(eight_bit) + params + intermediates;
            tokens(raw) == seq![
                TokenView::Malformed { raw, len: raw.len(), reason: MalformedReason::Truncated },
            ]
        }),
{
    let raw = csi_bytes(eight_bit) + params + intermediates;
    lemma_csi_inner(seq![], eight_bit, params, intermediates);
    assert(tokens(raw) =~= seq![
        TokenView::Malformed { raw, len: raw.len(), reason: MalformedReason::Truncated },
    ]);
}

// --- escape sequences -------------------------------------------------------------------

proof fn lemma_escape_inner(text: Seq<u8>, intermediates: Seq<u8>)
    requires
        all_between(intermediates, 0x20, 0x2F),
        intermediates.len() <= 4,
    ensures
        run(outside(text), seq![0x1Bu8] + intermediates) == (Run {
            phase: Phase::Escape { intermediates },
            tokens: pending(text),
        }),
    decreases intermediates.len(),
{
    let all = seq![0x1Bu8] + intermediates;
    if intermediates.len() > 0 {
        let front = intermediates.drop_last();
        let b = intermediates.last();
        assert(all_between(front, 0x20, 0x2F));
        lemma_escape_inner(text, front);
        lemma_next(outside(text), seq![0x1Bu8] + front, b);
        lemma_inside(Phase::Escape { intermediates: front }, b);
        assert((seq![0x1Bu8] + front).push(b) =~= all);
        assert(front.push(b) =~= intermediates);
        assert(pending(text) + Seq::<TokenView>::empty() =~= pending(text));
    } else {
        lemma_escape_opened(text);
        assert(all =~= seq![0x1Bu8]);
        assert(intermediates =~= seq![]);
    }
}

/// Does the byte behind `ESC` open a longer sequence?
pub open spec fn opens(b: u8) -> bool {
    b == 0x5B || b == 0x5D || b == 0x50 || b == 0x5F || b == 0x5E || b == 0x58
}

/// An escape sequence is read as one: `ESC`, up to four intermediate bytes and a
/// final byte. With a fifth intermediate byte it is given up.
pub proof fn lemma_escape_sequence_read(intermediates: Seq<u8>, b: u8)
    requires
        all_between(intermediates, 0x20, 0x2F),
        intermediates.len() <= 4,
    ensures
        ({
            let raw = seq![0x1Bu8] + intermediates + seq![b];
            &&& 0x30 <= b && b <= 0x7E && (intermediates.len() > 0 || !opens(b)) ==> reads(
                raw,
                seq![TokenView::Esc { intermediates, final_byte: b, raw }],
            )
            &&& 0x20 <= b && b <= 0x2F && intermediates.len() == 4 ==> reads(
                raw,
                seq![
                    TokenView::Malformed {
                        raw,
                        len: raw.len(),
                        reason: MalformedReason::Oversized,
                    },
                ],
            )
        }),
{
    let front = seq![0x1Bu8] + intermediates;
    let raw = front + seq![b];
    let done = TokenView::Esc { intermediates, final_byte: b, raw };
    let large = TokenView::Malformed { raw, len: raw.len(), reason: MalformedReason::Oversized };
    assert(front.push(b) =~= raw);
    assert forall|text: Seq<u8>|
        0x30 <= b && b <= 0x7E && (intermediates.len() > 0 || !opens(b)) implies #[trigger] run(
        outside(text),
        raw,
    ) == (Run { phase: outside(seq![]), tokens: pending(text) + seq![done] }) by {
        lemma_escape_inner(text, intermediates);
        lemma_next(outside(text), front, b);
        lemma_inside(Phase::Escape { intermediates }, b);
    }
    assert forall|text: Seq<u8>|
        0x20 <= b && b <= 0x2F && intermediates.len() == 4 implies #[trigger] run(
        outside(text),
        raw,
    ) == (Run { phase: outside(seq![]), tokens: pending(text) + seq![large] }) by {
        lemma_escape_inner(text, intermediates);
        lemma_next(outside(text), front, b);
        lemma_inside(Phase::Escape { intermediates }, b);
    }
}

/// A control byte, 7-bit or 8-bit, aborts an escape sequence, and any other high
/// byte is illegal in it. Either is then read on its own.
pub proof fn lemma_broken_escape_sequence(intermediates: Seq<u8>, b: u8)
    requires
        all_between(intermediates, 0x20, 0x2F),
        intermediates.len() <= 4,
    ensures
        ({
            let raw = seq![0x1Bu8] + intermediates;
            let aborted = TokenView::Malformed {
                raw,
                len: raw.len(),
                reason: MalformedReason::AbortedByControl,
            };
            let bad = TokenView::Malformed {
                raw,
                len: raw.len(),
                reason: MalformedReason::BadByte,
            };
            &&& b <= 0x1F || b == 0x7F || 0x80 <= b && b <= 0x9F ==> breaks_off(
                raw,
                seq![aborted],
                b,
            )
            &&& b >= 0xA0 ==> breaks_off(raw, seq![bad], b)
        }),
{
    let raw = seq![0x1Bu8] + intermediates;
    let aborted = TokenView::Malformed {
        raw,
        len: raw.len(),
        reason: MalformedReason::AbortedByControl,
    };
    let bad = TokenView::Malformed { raw, len: raw.len(), reason: MalformedReason::BadByte };
    lemma_run_byte(outside(seq![]), b);
    lemma_inside(outside(seq![]), b);
    let alone = run(outside(seq![]), seq![b]);
    assert forall|text: Seq<u8>|
        b <= 0x1F || b == 0x7F || 0x80 <= b && b <= 0x9F implies #[trigger] run(
        outside(text),
        raw.push(b),
    ) == preceded(pending(text) + seq![aborted], alone) by {
        lemma_escape_inner(text, intermediates);
        lemma_next(outside(text), raw, b);
        lemma_inside(Phase::Escape { intermediates }, b);
        assert(pending(text) + (seq![aborted] + alone.tokens) =~= pending(text) + seq![aborted]
            + alone.tokens);
    }
    assert forall|text: Seq<u8>| b >= 0xA0 implies #[trigger] run(outside(text), raw.push(b))
        == preceded(pending(text) + seq![bad], alone) by {
        lemma_escape_inner(text, intermediates);
        lemma_next(outside(text), raw, b);
        lemma_inside(Phase::Escape { intermediates }, b);
        assert(pending(text) + (seq![bad] + alone.tokens) =~= pending(text) + seq![bad]
            + alone.tokens);
    }
}

/// An escape sequence without a final byte is truncated where the input ends.
pub proof fn lemma_truncated_escape_sequence(intermediates: Seq<u8>)
    requires
        all_between(intermediates, 0x20, 0x2F),
        intermediates.len() <= 4,
    ensures
        ({
            let raw = seq![0x1Bu8] + intermediates;
            tokens(raw) == seq![
                TokenView::Malformed { raw, len: raw.len(), reason: MalformedReason::Truncated },
            ]
        }),
{
    let raw = seq![0x1Bu8] + intermediates;
    lemma_escape_inner(seq![], intermediates);
    assert(tokens(raw) =~= seq![
        TokenView::Malformed { raw, len: raw.len(), reason: MalformedReason::Truncated },
    ]);
}

// --- string sequences ---------------------------------------------------------------------

proof fn lemma_string_opened(text: Seq<u8>, kind: StrKind, eight_bit: bool)
    ensures
        run(outside(text), str_bytes(kind, eight_bit)) == (Run {
            phase: Phase::Str { kind, c1: eight_bit, payload: seq![], dropped: 0, esc: false },
            tokens: pending(text),
        }),
{
    let intro = str_bytes(kind, eight_bit);
    if eight_bit {
        lemma_run_byte(outside(text), intro[0]);
        lemma_inside(outside(text), intro[0]);
        assert(intro =~= seq![intro[0]]);
    } else {
        lemma_escape_opened(text);
        lemma_next(outside(text), seq![0x1Bu8], intro[1]);
        lemma_inside(Phase::Escape { intermediates: seq![] }, intro[1]);
        assert(seq![0x1Bu8].push(intro[1]) =~= intro);
        assert(pending(text) + Seq::<TokenView>::empty() =~= pending(text));
    }
}

proof fn lemma_same_intro(kind: StrKind, eight_bit: bool)
    ensures
        str_bytes(kind, eight_bit) == string_intro(kind, eight_bit),
        str_bytes(kind, eight_bit).len() > 0,
{
    assert(str_bytes(kind, eight_bit) =~= string_intro(kind, eight_bit));
}

/// How many bytes of a payload are retained.
pub open spec fn retained(payload: Seq<u8>) -> Seq<u8> {
    if payload.len() <= 8192 {
        payload
    } else {
        payload.take(8192)
    }
}

proof fn lemma_string_inner(text: Seq<u8>, kind: StrKind, eight_bit: bool, payload: Seq<u8>)
    requires
        all_quiet(payload),
    ensures
        run(outside(text), str_bytes(kind, eight_bit) + payload) == (Run {
            phase: Phase::Str {
                kind,
                c1: eight_bit,
                payload: retained(payload),
                dropped: (payload.len() - retained(payload).len()) as nat,
                esc: false,
            },
            tokens: pending(text),
        }),
    decreases payload.len(),
{
    let all = str_bytes(kind, eight_bit) + payload;
    if payload.len() > 0 {
        let front = payload.drop_last();
        let b = payload.last();
        assert(all_quiet(front));
        lemma_string_inner(text, kind, eight_bit, front);
        let s = str_bytes(kind, eight_bit) + front;
        lemma_next(outside(text), s, b);
        lemma_inside(run(outside(text), s).phase, b);
        assert(s.push(b) =~= all);
        assert(pending(text) + Seq::<TokenView>::empty() =~= pending(text));
        if payload.len() <= 8192 {
            assert(front.push(b) =~= payload);
        } else {
            assert(retained(front) =~= retained(payload));
        }
    } else {
        lemma_string_opened(text, kind, eight_bit);
        assert(all =~= str_bytes(kind, eight_bit));
        assert(payload =~= seq![]);
    }
}

/// Inside a string sequence, with or without an `ESC` held back.
spec fn inner_phase(kind: StrKind, eight_bit: bool, payload: Seq<u8>, esc: bool) -> Phase {
    Phase::Str {
        kind,
        c1: eight_bit,
        payload: retained(payload),
        dropped: (payload.len() - retained(payload).len()) as nat,
        esc,
    }
}

/// The token of a string sequence.
pub open spec fn str_token(
    kind: StrKind,
    eight_bit: bool,
    payload: Seq<u8>,
    end: Seq<u8>,
) -> TokenView {
    let bytes = str_bytes(kind, eight_bit) + payload + end;
    TokenView::Str {
        kind,
        payload: retained(payload),
        raw: if payload.len() <= 8192 {
            bytes
        } else {
            str_bytes(kind, eight_bit) + payload.take(8192)
        },
        len: bytes.len(),
        overlong: payload.len() > 8192,
    }
}

/// What is left of a string sequence that is given up.
pub open spec fn str_given_up(
    kind: StrKind,
    eight_bit: bool,
    payload: Seq<u8>,
    reason: MalformedReason,
) -> TokenView {
    TokenView::Malformed {
        raw: str_bytes(kind, eight_bit) + retained(payload),
        len: str_bytes(kind, eight_bit).len() + payload.len(),
        reason,
    }
}

proof fn lemma_inner_closed(kind: StrKind, eight_bit: bool, payload: Seq<u8>, b: u8)
    requires
        terminates(kind, seq![b]),
    ensures
        step(inner_phase(kind, eight_bit, payload, false), b) == (Run {
            phase: start(),
            tokens: seq![str_token(kind, eight_bit, payload, seq![b])],
        }),
{
    lemma_one_byte_end(b);
    lemma_same_intro(kind, eight_bit);
    lemma_inside(inner_phase(kind, eight_bit, payload, false), b);
}

proof fn lemma_one_byte_end(b: u8)
    ensures
        seq![b] == seq![0x9Cu8] ==> b == 0x9C,
        seq![b] == seq![0x07u8] ==> b == 0x07,
        seq![b] != seq![0x1Bu8, 0x5Cu8],
{
    assert(seq![b][0] == b);
    assert(seq![b].len() == 1 && seq![0x1Bu8, 0x5Cu8].len() == 2);
    assert(seq![0x9Cu8][0] == 0x9C && seq![0x07u8][0] == 0x07);
}

proof fn lemma_held_closed(kind: StrKind, eight_bit: bool, payload: Seq<u8>)
    ensures
        step(inner_phase(kind, eight_bit, payload, true), 0x5C) == (Run {
            phase: start(),
            tokens: seq![str_token(kind, eight_bit, payload, seq![0x1Bu8, 0x5Cu8])],
        }),
{
    lemma_same_intro(kind, eight_bit);
    lemma_inside(inner_phase(kind, eight_bit, payload, true), 0x5C);
}

proof fn lemma_inner_broken(kind: StrKind, eight_bit: bool, payload: Seq<u8>, b: u8)
    requires
        b <= 0x1F || b == 0x7F,
        b != 0x1B,
        b == 0x07 ==> !(kind is Osc),
    ensures
        step(inner_phase(kind, eight_bit, payload, false), b) == preceded(
            seq![
                str_given_up(kind, eight_bit, payload, MalformedReason::AbortedByControl),
            ],
            run(outside(seq![]), seq![b]),
        ),
{
    lemma_same_intro(kind, eight_bit);
    lemma_inside(inner_phase(kind, eight_bit, payload, false), b);
    lemma_run_byte(outside(seq![]), b);
    lemma_inside(outside(seq![]), b);
}

/// A string sequence is read as one: introducer, payload without control bytes, and
/// a terminator. Up to 8192 bytes of payload are retained, and with all of them the
/// terminator; a longer payload is cut there and the token marked.
pub proof fn lemma_string_sequence_read(
    kind: StrKind,
    eight_bit: bool,
    payload: Seq<u8>,
    end: Seq<u8>,
)
    requires
        all_quiet(payload),
        terminates(kind, end),
    ensures
        reads(
            str_bytes(kind, eight_bit) + payload + end,
            seq![str_token(kind, eight_bit, payload, end)],
        ),
{
    let front = str_bytes(kind, eight_bit) + payload;
    let bytes = front + end;
    let t = str_token(kind, eight_bit, payload, end);
    assert forall|text: Seq<u8>| #[trigger] run(outside(text), bytes) == (Run {
        phase: outside(seq![]),
        tokens: pending(text) + seq![t],
    }) by {
        lemma_string_closed(text, kind, eight_bit, payload, end);
    }
}

proof fn lemma_string_closed(
    text: Seq<u8>,
    kind: StrKind,
    eight_bit: bool,
    payload: Seq<u8>,
    end: Seq<u8>,
)
    requires
        all_quiet(payload),
        terminates(kind, end),
    ensures
        run(outside(text), str_bytes(kind, eight_bit) + payload + end) == (Run {
            phase: outside(seq![]),
            tokens: pending(text) + seq![str_token(kind, eight_bit, payload, end)],
        }),
{
    let front = str_bytes(kind, eight_bit) + payload;
    if end.len() == 1 {
        let b = end[0];
        assert(end =~= seq![b]);
        lemma_string_inner(text, kind, eight_bit, payload);
        lemma_next(outside(text), front, b);
        lemma_inner_closed(kind, eight_bit, payload, b);
        assert(front.push(b) =~= front + end);
    } else {
        let held = front.push(0x1B);
        assert(end =~= seq![0x1Bu8, 0x5Cu8]);
        lemma_string_held(text, kind, eight_bit, payload);
        lemma_next(outside(text), held, 0x5C);
        lemma_held_closed(kind, eight_bit, payload);
        assert(held.push(0x5C) =~= front + end);
    }
}

/// A control byte that does not end it aborts a string sequence and is then read on
/// its own.
pub proof fn lemma_aborted_string_sequence(
    kind: StrKind,
    eight_bit: bool,
    payload: Seq<u8>,
    b: u8,
)
    requires
        all_quiet(payload),
        b <= 0x1F || b == 0x7F,
        b != 0x1B,
        b == 0x07 ==> !(kind is Osc),
    ensures
        breaks_off(
            str_bytes(kind, eight_bit) + payload,
            seq![str_given_up(kind, eight_bit, payload, MalformedReason::AbortedByControl)],
            b,
        ),
{
    let bytes = str_bytes(kind, eight_bit) + payload;
    let aborted = str_given_up(kind, eight_bit, payload, MalformedReason::AbortedByControl);
    let alone = run(outside(seq![]), seq![b]);
    assert forall|text: Seq<u8>| #[trigger]
        run(outside(text), bytes.push(b)) == preceded(pending(text) + seq![aborted], alone) by {
        lemma_string_inner(text, kind, eight_bit, payload);
        lemma_next(outside(text), bytes, b);
        lemma_inner_broken(kind, eight_bit, payload, b);
        assert(pending(text) + (seq![aborted] + alone.tokens) =~= pending(text) + seq![aborted]
            + alone.tokens);
    }
}

/// An `ESC` whose next byte does not complete the terminator aborts a string
/// sequence, and both are then read on their own.
pub proof fn lemma_escaped_string_sequence(
    kind: StrKind,
    eight_bit: bool,
    payload: Seq<u8>,
    b: u8,
    text: Seq<u8>,
)
    requires
        all_quiet(payload),
        b != 0x5C,
    ensures
        run(outside(text), str_bytes(kind, eight_bit) + payload + seq![0x1Bu8, b]) == preceded(
            pending(text) + seq![
                str_given_up(kind, eight_bit, payload, MalformedReason::AbortedByControl),
            ],
            run(outside(seq![]), seq![0x1Bu8, b]),
        ),
{
    let bytes = str_bytes(kind, eight_bit) + payload;
    let aborted = str_given_up(kind, eight_bit, payload, MalformedReason::AbortedByControl);
    let held = bytes.push(0x1B);
    let second = escape_step(seq![], b);
    lemma_string_held(text, kind, eight_bit, payload);
    lemma_next(outside(text), held, b);
    lemma_held_broken(kind, eight_bit, payload, b);
    lemma_escape_then(b);
    assert(held.push(b) =~= bytes + seq![0x1Bu8, b]);
    assert(pending(text) + (seq![aborted] + second.tokens) =~= pending(text) + seq![aborted]
        + second.tokens);
}

proof fn lemma_string_held(text: Seq<u8>, kind: StrKind, eight_bit: bool, payload: Seq<u8>)
    requires
        all_quiet(payload),
    ensures
        run(outside(text), (str_bytes(kind, eight_bit) + payload).push(0x1B)) == (Run {
            phase: inner_phase(kind, eight_bit, payload, true),
            tokens: pending(text),
        }),
{
    let bytes = str_bytes(kind, eight_bit) + payload;
    lemma_string_inner(text, kind, eight_bit, payload);
    lemma_next(outside(text), bytes, 0x1B);
    lemma_inside(run(outside(text), bytes).phase, 0x1B);
    assert(pending(text) + Seq::<TokenView>::empty() =~= pending(text));
}

proof fn lemma_held_broken(kind: StrKind, eight_bit: bool, payload: Seq<u8>, b: u8)
    requires
        b != 0x5C,
    ensures
        step(inner_phase(kind, eight_bit, payload, true), b) == preceded(
            seq![str_given_up(kind, eight_bit, payload, MalformedReason::AbortedByControl)],
            escape_step(seq![], b),
        ),
{
    lemma_same_intro(kind, eight_bit);
    lemma_inside(inner_phase(kind, eight_bit, payload, true), b);
}

proof fn lemma_escape_then(b: u8)
    ensures
        run(outside(seq![]), seq![0x1Bu8, b]) == escape_step(seq![], b),
{
    let second = escape_step(seq![], b);
    lemma_escape_opened(seq![]);
    lemma_next(outside(seq![]), seq![0x1Bu8], b);
    lemma_inside(Phase::Escape { intermediates: seq![] }, b);
    assert(seq![0x1Bu8].push(b) =~= seq![0x1Bu8, b]);
    assert(Seq::<TokenView>::empty() + second.tokens =~= second.tokens);
}

/// A string sequence without a terminator is truncated where the input ends, also
/// with the first half of one.
pub proof fn lemma_truncated_string_sequence(kind: StrKind, eight_bit: bool, payload: Seq<u8>)
    requires
        all_quiet(payload),
    ensures
        ({
            let bytes = str_bytes(kind, eight_bit) + payload;
            let raw = str_bytes(kind, eight_bit) + retained(payload);
            &&& tokens(bytes) == seq![
                TokenView::Malformed { raw, len: bytes.len(), reason: MalformedReason::Truncated },
            ]
            &&& tokens(bytes.push(0x1B)) == seq![
                TokenView::Malformed {
                    raw,
                    len: bytes.len() + 1,
                    reason: MalformedReason::Truncated,
                },
            ]
        }),
{
    let bytes = str_bytes(kind, eight_bit) + payload;
    lemma_string_inner(seq![], kind, eight_bit, payload);
    lemma_string_held(seq![], kind, eight_bit, payload);
    lemma_flushed(kind, eight_bit, payload, false);
    lemma_flushed(kind, eight_bit, payload, true);
    assert(tokens(bytes) =~= flush(inner_phase(kind, eight_bit, payload, false)));
    assert(tokens(bytes.push(0x1B)) =~= flush(inner_phase(kind, eight_bit, payload, true)));
}

proof fn lemma_flushed(kind: StrKind, eight_bit: bool, payload: Seq<u8>, esc: bool)
    ensures
        flush(inner_phase(kind, eight_bit, payload, esc)) == seq![
            TokenView::Malformed {
                raw: str_bytes(kind, eight_bit) + retained(payload),
                len: (str_bytes(kind, eight_bit) + payload).len() + if esc {
                    1nat
                } else {
                    0nat
                },
                reason: MalformedReason::Truncated,
            },
        ],
{
    lemma_same_intro(kind, eight_bit);
    let phase = inner_phase(kind, eight_bit, payload, esc);
    assert(flush(phase) =~= plain_flush(phase));
}

} // verus!
