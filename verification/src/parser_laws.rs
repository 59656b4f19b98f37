//! What holds of the tokenizer on every input: it does not matter how the
//! input is cut into chunks, every input byte is accounted for, every token has
//! the shape its kind promises, and memory stays bounded.

use vstd::prelude::*;

use crate::bytes::{
    all_intermediates, all_params, c1_byte, continuation_byte, control_byte, BACKSLASH, BEL,
    BRACKET, C1_CSI, C1_ST, ESC,
};
use crate::parser::{MalformedReason, StrKind, CSI_MAX, ESC_INTERM_MAX, STR_MAX};
use crate::parser_model::{
    all_payload, broken, carries_on, csi_intro, csi_raw, csi_step, escape_step, flush, ground_step,
    payload_byte, plain_flush, plain_run, plain_step, preceded, released, run, start, step,
    string_end, string_intro, string_of_letter, string_raw, string_step, string_token, text_token,
    tokens, Phase, Run, TokenView,
};
use crate::utf8_laws::{
    lemma_begun_continuation, lemma_char_textual, lemma_textual_concat, lemma_textual_push,
};
use crate::utf8_model::{char_front, textual, whole_char};

verus! {

// --- chunking ---------------------------------------------------------------

/// The tokenizer does not see chunk boundaries: reading `a` and then `b` from
/// where that led is reading `a + b`.
pub proof fn lemma_run_concat(phase: Phase, a: Seq<u8>, b: Seq<u8>)
    ensures
        run(phase, a + b) == preceded(run(phase, a).tokens, run(run(phase, a).phase, b)),
    decreases b.len(),
{
    let first = run(phase, a);
    if b.len() == 0 {
        assert(a + b =~= a);
        assert(first.tokens + Seq::<TokenView>::empty() =~= first.tokens);
    } else {
        lemma_run_concat(phase, a, b.drop_last());
        assert((a + b).drop_last() =~= a + b.drop_last());
        let mid = run(first.phase, b.drop_last());
        let last = step(mid.phase, b.last());
        assert(first.tokens + mid.tokens + last.tokens =~= first.tokens + (mid.tokens
            + last.tokens));
    }
}

/// Reading one byte.
pub proof fn lemma_run_byte(phase: Phase, b: u8)
    ensures
        run(phase, seq![b]) == step(phase, b),
{
    let input = seq![b];
    assert(input.drop_last() =~= Seq::<u8>::empty());
    assert(run(phase, input.drop_last()) == (Run { phase, tokens: seq![] }));
    assert(run(phase, input).tokens =~= step(phase, b).tokens);
}

// --- accounting -------------------------------------------------------------

/// How many input bytes the tokens account for.
pub open spec fn total_len(toks: Seq<TokenView>) -> nat
    decreases toks.len(),
{
    if toks.len() == 0 {
        0
    } else {
        total_len(toks.drop_last()) + toks.last().byte_len()
    }
}

/// The input offset at which the `i`-th token starts.
pub open spec fn offset_of(toks: Seq<TokenView>, i: int) -> nat {
    total_len(toks.take(i))
}

pub proof fn lemma_total_concat(a: Seq<TokenView>, b: Seq<TokenView>)
    ensures
        total_len(a + b) == total_len(a) + total_len(b),
    decreases b.len(),
{
    if b.len() == 0 {
        assert(a + b =~= a);
    } else {
        assert((a + b).drop_last() =~= a + b.drop_last());
        lemma_total_concat(a, b.drop_last());
    }
}

pub proof fn lemma_total_one(t: TokenView)
    ensures
        total_len(seq![t]) == t.byte_len(),
{
    let s = seq![t];
    assert(s.drop_last() =~= Seq::<TokenView>::empty());
    assert(total_len(s.drop_last()) == 0);
}

proof fn lemma_total_text(text: Seq<u8>)
    ensures
        total_len(text_token(text)) == text.len(),
{
    if text.len() > 0 {
        lemma_total_one(TokenView::Text(text));
    }
}

proof fn lemma_ground_len(text: Seq<u8>, b: u8)
    ensures
        total_len(ground_step(text, b).tokens) + ground_step(text, b).phase.held() == text.len()
            + 1,
{
    lemma_total_text(text);
    let t = text_token(text);
    assert(t.push(TokenView::Control(b)).drop_last() =~= t);
    assert(t.push(TokenView::C1(b)).drop_last() =~= t);
}

proof fn lemma_escape_len(intermediates: Seq<u8>, b: u8)
    ensures
        total_len(escape_step(intermediates, b).tokens) + escape_step(
            intermediates,
            b,
        ).phase.held() == intermediates.len() + 2,
{
    let r = escape_step(intermediates, b);
    let raw = seq![ESC] + intermediates;
    lemma_ground_len(seq![], b);
    lemma_total_one(broken(raw, MalformedReason::AbortedByControl));
    lemma_total_one(broken(raw, MalformedReason::BadByte));
    lemma_total_one(broken(raw.push(b), MalformedReason::Oversized));
    lemma_total_one(TokenView::Esc { intermediates, final_byte: b, raw: raw.push(b) });
    lemma_total_concat(
        seq![broken(raw, MalformedReason::BadByte)],
        ground_step(seq![], b).tokens,
    );
    lemma_total_concat(
        seq![broken(raw, MalformedReason::AbortedByControl)],
        ground_step(seq![], b).tokens,
    );
}

proof fn lemma_csi_len(c1: bool, params: Seq<u8>, intermediates: Seq<u8>, b: u8)
    ensures
        total_len(csi_step(c1, params, intermediates, b).tokens) + csi_step(
            c1,
            params,
            intermediates,
            b,
        ).phase.held() == csi_raw(c1, params, intermediates).len() + 1,
{
    let raw = csi_raw(c1, params, intermediates);
    lemma_ground_len(seq![], b);
    lemma_total_one(broken(raw.push(b), MalformedReason::Oversized));
    lemma_total_one(broken(raw, MalformedReason::AbortedByControl));
    lemma_total_one(broken(raw, MalformedReason::BadByte));
    lemma_total_one(TokenView::Csi { params, intermediates, final_byte: b, raw: raw.push(b) });
    lemma_total_concat(
        seq![broken(raw, MalformedReason::AbortedByControl)],
        ground_step(seq![], b).tokens,
    );
    lemma_total_concat(
        seq![broken(raw, MalformedReason::BadByte)],
        ground_step(seq![], b).tokens,
    );
}

proof fn lemma_string_len(
    kind: StrKind,
    c1: bool,
    payload: Seq<u8>,
    dropped: nat,
    esc: bool,
    b: u8,
)
    ensures
        ({
            let r = string_step(kind, c1, payload, dropped, esc, b);
            total_len(r.tokens) + r.phase.held() == (Phase::Str {
                kind,
                c1,
                payload,
                dropped,
                esc,
            }).held() + 1
        }),
{
    let r = string_step(kind, c1, payload, dropped, esc, b);
    let raw = string_raw(kind, c1, payload);
    let len = raw.len() + dropped;
    let aborted = TokenView::Malformed { raw, len, reason: MalformedReason::AbortedByControl };
    lemma_ground_len(seq![], b);
    lemma_escape_len(seq![], b);
    lemma_total_one(aborted);
    lemma_total_concat(seq![aborted], escape_step(seq![], b).tokens);
    lemma_total_concat(seq![aborted], ground_step(seq![], b).tokens);
    if r.tokens.len() == 1 {
        assert(r.tokens =~= seq![r.tokens[0]]);
        lemma_total_one(r.tokens[0]);
    }
}

proof fn lemma_plain_len(phase: Phase, b: u8)
    requires
        phase.settled(),
    ensures
        total_len(plain_step(phase, b).tokens) + plain_step(phase, b).phase.held() == phase.held()
            + 1,
{
    match phase {
        Phase::Ground { text, .. } => lemma_ground_len(text, b),
        Phase::Escape { intermediates } => lemma_escape_len(intermediates, b),
        Phase::Csi { c1, params, intermediates } => lemma_csi_len(c1, params, intermediates, b),
        Phase::Str { kind, c1, payload, dropped, esc } => lemma_string_len(
            kind,
            c1,
            payload,
            dropped,
            esc,
            b,
        ),
    }
}

/// Does `s` hold continuation bytes only?
pub open spec fn all_continuation(s: Seq<u8>) -> bool {
    forall|i: int| 0 <= i < s.len() ==> continuation_byte(#[trigger] s[i])
}

/// Continuation bytes by themselves begin no character.
pub proof fn lemma_plain_settled(phase: Phase, input: Seq<u8>)
    requires
        phase.settled(),
        all_continuation(input),
    ensures
        plain_run(phase, input).phase.settled(),
    decreases input.len(),
{
    if input.len() > 0 {
        lemma_plain_settled(phase, input.drop_last());
        assert(continuation_byte(input[input.len() - 1]));
    }
}

proof fn lemma_plain_run_len(phase: Phase, input: Seq<u8>)
    requires
        phase.settled(),
        all_continuation(input),
    ensures
        total_len(plain_run(phase, input).tokens) + plain_run(phase, input).phase.held()
            == phase.held() + input.len(),
    decreases input.len(),
{
    if input.len() > 0 {
        let before = plain_run(phase, input.drop_last());
        lemma_plain_run_len(phase, input.drop_last());
        lemma_plain_settled(phase, input.drop_last());
        lemma_plain_len(before.phase, input.last());
        lemma_total_concat(before.tokens, plain_step(before.phase, input.last()).tokens);
    }
}

/// Giving up on a begun character settles the parser and loses no byte.
pub proof fn lemma_released(phase: Phase)
    requires
        phase.bounded(),
    ensures
        released(phase).phase.settled(),
        total_len(released(phase).tokens) + released(phase).phase.held() == phase.held(),
{
    if let Phase::Ground { text, part } = phase {
        if part.len() > 0 {
            let from = Phase::Ground { text: text.push(part[0]), part: seq![] };
            assert forall|i: int| 0 <= i < part.skip(1).len() implies continuation_byte(
                #[trigger] part.skip(1)[i],
            ) by {
                lemma_begun_continuation(part, i + 1);
            }
            lemma_plain_settled(from, part.skip(1));
            lemma_plain_run_len(from, part.skip(1));
        }
    }
}

/// Every byte read is held or part of a completed token.
pub proof fn lemma_step_len(phase: Phase, b: u8)
    requires
        phase.bounded(),
    ensures
        total_len(step(phase, b).tokens) + step(phase, b).phase.held() == phase.held() + 1,
{
    if !carries_on(phase, b) {
        let r = released(phase);
        lemma_released(phase);
        lemma_plain_len(r.phase, b);
        lemma_total_concat(r.tokens, plain_step(r.phase, b).tokens);
    }
}

// --- shape ------------------------------------------------------------------

/// Does `end` terminate a string sequence of this kind?
pub open spec fn string_terminator(kind: StrKind, end: Seq<u8>) -> bool {
    end == seq![ESC, BACKSLASH] || (end.len() == 1 && string_end(kind, end[0]))
}

/// Is this what a string sequence of this kind ended by `end` is read as?
pub open spec fn string_shape(
    kind: StrKind,
    payload: Seq<u8>,
    raw: Seq<u8>,
    len: nat,
    overlong: bool,
    end: Seq<u8>,
) -> bool {
    let front = string_raw(kind, raw[0] != ESC, payload);
    &&& string_terminator(kind, end)
    &&& if overlong {
        raw == front && len > front.len() + end.len()
    } else {
        raw == front + end && len == raw.len()
    }
}

/// The shape that the kind of a token promises.
pub open spec fn token_ok(t: TokenView) -> bool {
    match t {
        TokenView::Text(text) => text.len() > 0 && textual(text),
        TokenView::Control(b) => control_byte(b) && b != ESC,
        TokenView::C1(b) => {
            &&& c1_byte(b)
            &&& b != C1_CSI
            &&& string_of_letter((b - 0x40) as u8) is None
        },
        TokenView::Csi { params, intermediates, final_byte, raw } => {
            &&& all_params(params)
            &&& all_intermediates(intermediates)
            &&& 0x40 <= final_byte <= 0x7E
            &&& raw == csi_raw(raw[0] != ESC, params, intermediates).push(final_byte)
            &&& csi_raw(false, params, intermediates).len() < CSI_MAX
        },
        TokenView::Esc { intermediates, final_byte, raw } => {
            &&& all_intermediates(intermediates)
            &&& intermediates.len() <= ESC_INTERM_MAX
            &&& 0x30 <= final_byte <= 0x7E
            &&& intermediates.len() == 0 ==> final_byte != BRACKET && string_of_letter(
                final_byte,
            ) is None
            &&& raw == (seq![ESC] + intermediates).push(final_byte)
        },
        TokenView::Str { kind, payload, raw, len, overlong } => {
            &&& all_payload(payload)
            &&& payload.len() <= STR_MAX
            &&& overlong ==> payload.len() == STR_MAX
            &&& {
                ||| string_shape(kind, payload, raw, len, overlong, seq![ESC, BACKSLASH])
                ||| string_shape(kind, payload, raw, len, overlong, seq![C1_ST])
                ||| string_shape(kind, payload, raw, len, overlong, seq![BEL])
            }
        },
        TokenView::Malformed { raw, len, .. } => {
            &&& 0 < raw.len() <= len
            &&& raw.len() <= STR_MAX + 2
            &&& raw[0] == ESC || c1_byte(raw[0])
            &&& forall|i: int| 1 <= i < raw.len() ==> !control_byte(#[trigger] raw[i])
        },
    }
}

/// Do all tokens have the shape their kind promises?
pub open spec fn tokens_ok(toks: Seq<TokenView>) -> bool {
    forall|i: int| 0 <= i < toks.len() ==> token_ok(#[trigger] toks[i])
}

/// The bytes read so far can still become a token of the right shape.
pub open spec fn phase_ok(phase: Phase) -> bool {
    &&& phase.bounded()
    &&& match phase {
        Phase::Ground { text, .. } => textual(text),
        Phase::Escape { intermediates } => all_intermediates(intermediates),
        Phase::Csi { params, intermediates, .. } => {
            &&& all_params(params)
            &&& all_intermediates(intermediates)
        },
        Phase::Str { payload, .. } => all_payload(payload),
    }
}

proof fn lemma_ground_ok(text: Seq<u8>, b: u8)
    requires
        textual(text),
    ensures
        phase_ok(ground_step(text, b).phase),
        tokens_ok(ground_step(text, b).tokens),
{
    assert(textual(seq![]));
    if !control_byte(b) && !c1_byte(b) {
        lemma_textual_push(text, b);
    }
}

/// The start of a stream is in shape.
pub proof fn lemma_start_ok()
    ensures
        phase_ok(start()),
{
    assert(textual(seq![]));
}

proof fn lemma_escape_ok(intermediates: Seq<u8>, b: u8)
    requires
        phase_ok(Phase::Escape { intermediates }),
    ensures
        phase_ok(escape_step(intermediates, b).phase),
        tokens_ok(escape_step(intermediates, b).tokens),
{
    lemma_start_ok();
    lemma_ground_ok(seq![], b);
}

proof fn lemma_csi_ok(c1: bool, params: Seq<u8>, intermediates: Seq<u8>, b: u8)
    requires
        phase_ok(Phase::Csi { c1, params, intermediates }),
    ensures
        phase_ok(csi_step(c1, params, intermediates, b).phase),
        tokens_ok(csi_step(c1, params, intermediates, b).tokens),
{
    lemma_start_ok();
    lemma_ground_ok(seq![], b);
    let raw = csi_raw(c1, params, intermediates);
    assert(raw.push(b)[0] == csi_intro(c1)[0]);
}

proof fn lemma_string_ok(
    kind: StrKind,
    c1: bool,
    payload: Seq<u8>,
    dropped: nat,
    esc: bool,
    b: u8,
)
    requires
        phase_ok(Phase::Str { kind, c1, payload, dropped, esc }),
    ensures
        phase_ok(string_step(kind, c1, payload, dropped, esc, b).phase),
        tokens_ok(string_step(kind, c1, payload, dropped, esc, b).tokens),
{
    lemma_start_ok();
    lemma_ground_ok(seq![], b);
    lemma_escape_ok(seq![], b);
    let raw = string_raw(kind, c1, payload);
    assert(raw[0] == string_intro(kind, c1)[0]);
    let r = string_step(kind, c1, payload, dropped, esc, b);
    lemma_string_plain(kind, c1, payload);
    if esc && b == BACKSLASH {
        let end = seq![ESC, BACKSLASH];
        let t = string_token(kind, c1, payload, dropped, end);
        assert((raw + end)[0] == raw[0]);
        assert(string_shape(kind, payload, t.raw(), t.byte_len(), dropped > 0, end));
        assert(token_ok(t));
        assert(r.tokens =~= seq![t]);
    } else if !esc && string_end(kind, b) {
        let end = seq![b];
        let t = string_token(kind, c1, payload, dropped, end);
        assert((raw + end)[0] == raw[0]);
        assert(string_shape(kind, payload, t.raw(), t.byte_len(), dropped > 0, end));
        assert(token_ok(t));
        assert(r.tokens =~= seq![t]);
    }
}

proof fn lemma_plain_ok(phase: Phase, b: u8)
    requires
        phase_ok(phase),
    ensures
        phase_ok(plain_step(phase, b).phase),
        tokens_ok(plain_step(phase, b).tokens),
{
    match phase {
        Phase::Ground { text, .. } => lemma_ground_ok(text, b),
        Phase::Escape { intermediates } => lemma_escape_ok(intermediates, b),
        Phase::Csi { c1, params, intermediates } => lemma_csi_ok(c1, params, intermediates, b),
        Phase::Str { kind, c1, payload, dropped, esc } => lemma_string_ok(
            kind,
            c1,
            payload,
            dropped,
            esc,
            b,
        ),
    }
}

pub proof fn lemma_plain_run_ok(phase: Phase, input: Seq<u8>)
    requires
        phase_ok(phase),
    ensures
        phase_ok(plain_run(phase, input).phase),
        tokens_ok(plain_run(phase, input).tokens),
    decreases input.len(),
{
    if input.len() > 0 {
        let before = plain_run(phase, input.drop_last());
        lemma_plain_run_ok(phase, input.drop_last());
        lemma_plain_ok(before.phase, input.last());
    }
}

/// Giving up on a begun character leaves the parser in shape.
pub proof fn lemma_released_ok(phase: Phase)
    requires
        phase_ok(phase),
    ensures
        phase_ok(released(phase).phase),
        tokens_ok(released(phase).tokens),
{
    if let Phase::Ground { text, part } = phase {
        if part.len() > 0 {
            lemma_textual_push(text, part[0]);
            lemma_plain_run_ok(
                Phase::Ground { text: text.push(part[0]), part: seq![] },
                part.skip(1),
            );
        }
    }
}

/// A byte keeps the parser's state in shape and completes only tokens in shape.
pub proof fn lemma_step_ok(phase: Phase, b: u8)
    requires
        phase_ok(phase),
    ensures
        phase_ok(step(phase, b).phase),
        tokens_ok(step(phase, b).tokens),
{
    if carries_on(phase, b) {
        let text = phase->text;
        let part = phase->part;
        let more = part.push(b);
        assert(char_front(more));
        if whole_char(more) {
            lemma_char_textual(more);
            lemma_textual_concat(text, more);
        }
    } else {
        lemma_released_ok(phase);
        lemma_plain_ok(released(phase).phase, b);
    }
}

/// However long the input, the state it leads to keeps to the caps on the
/// retained bytes of a sequence, and the tokens it completes are in shape.
pub proof fn lemma_run_ok(phase: Phase, input: Seq<u8>)
    requires
        phase_ok(phase),
    ensures
        phase_ok(run(phase, input).phase),
        tokens_ok(run(phase, input).tokens),
    decreases input.len(),
{
    if input.len() > 0 {
        let before = run(phase, input.drop_last());
        lemma_run_ok(phase, input.drop_last());
        lemma_step_ok(before.phase, input.last());
    }
}

proof fn lemma_ok_concat(a: Seq<TokenView>, b: Seq<TokenView>)
    requires
        tokens_ok(a),
        tokens_ok(b),
    ensures
        tokens_ok(a + b),
{
    let all = a + b;
    assert forall|i: int| 0 <= i < all.len() implies token_ok(#[trigger] all[i]) by {
        if i < a.len() {
            assert(all[i] == a[i]);
        } else {
            assert(all[i] == b[i - a.len()]);
        }
    }
}

proof fn lemma_flush_ok(phase: Phase)
    requires
        phase_ok(phase),
    ensures
        tokens_ok(plain_flush(phase)),
{
    match phase {
        Phase::Ground { .. } => {},
        _ => {
            let t = plain_flush(phase)[0];
            if let Phase::Str { kind, c1, payload, .. } = phase {
                lemma_string_plain(kind, c1, payload);
            }
            assert(token_ok(t));
        },
    }
}

/// Every token of every input has the shape its kind promises.
pub proof fn lemma_tokens_ok(input: Seq<u8>)
    ensures
        tokens_ok(tokens(input)),
{
    let r = run(start(), input);
    let last = released(r.phase);
    lemma_start_ok();
    lemma_run_ok(start(), input);
    lemma_released_ok(r.phase);
    lemma_flush_ok(last.phase);
    lemma_ok_concat(last.tokens, plain_flush(last.phase));
    lemma_ok_concat(r.tokens, flush(r.phase));
}

/// After the introducer's first byte, no control byte is retained of an
/// unterminated string sequence.
proof fn lemma_string_plain(kind: StrKind, c1: bool, payload: Seq<u8>)
    requires
        all_payload(payload),
    ensures
        ({
            let raw = string_raw(kind, c1, payload);
            &&& raw[0] == ESC || c1_byte(raw[0])
            &&& forall|i: int| 1 <= i < raw.len() ==> !control_byte(#[trigger] raw[i])
        }),
{
    let raw = string_raw(kind, c1, payload);
    assert(raw[0] == string_intro(kind, c1)[0]);
    assert forall|i: int| 1 <= i < raw.len() implies !control_byte(#[trigger] raw[i]) by {
        let n = string_intro(kind, c1).len();
        if i >= n {
            assert(raw[i] == payload[i - n]);
            assert(payload_byte(payload[i - n]));
        }
    }
}

// --- accounting for whole inputs ----------------------------------------------

/// Every byte of a chunk is held or part of a completed token.
pub proof fn lemma_run_len(phase: Phase, input: Seq<u8>)
    requires
        phase_ok(phase),
    ensures
        total_len(run(phase, input).tokens) + run(phase, input).phase.held() == phase.held()
            + input.len(),
    decreases input.len(),
{
    if input.len() > 0 {
        let before = run(phase, input.drop_last());
        lemma_run_len(phase, input.drop_last());
        lemma_run_ok(phase, input.drop_last());
        lemma_step_len(before.phase, input.last());
        lemma_total_concat(before.tokens, step(before.phase, input.last()).tokens);
    }
}

proof fn lemma_flush_len(phase: Phase)
    requires
        phase.bounded(),
    ensures
        total_len(flush(phase)) == phase.held(),
{
    let r = released(phase);
    lemma_released(phase);
    lemma_total_concat(r.tokens, plain_flush(r.phase));
    match r.phase {
        Phase::Ground { text, .. } => lemma_total_text(text),
        _ => {
            assert(plain_flush(r.phase) =~= seq![plain_flush(r.phase)[0]]);
            lemma_total_one(plain_flush(r.phase)[0]);
        },
    }
}

/// The tokens of an input account for every input byte.
pub proof fn lemma_tokens_account_for_input(input: Seq<u8>)
    ensures
        total_len(tokens(input)) == input.len(),
{
    let r = run(start(), input);
    lemma_start_ok();
    lemma_run_len(start(), input);
    lemma_run_ok(start(), input);
    lemma_flush_len(r.phase);
    lemma_total_concat(r.tokens, flush(r.phase));
}

/// Each token starts where the one before ends, and none lies past the end.
pub proof fn lemma_offset_bounds(toks: Seq<TokenView>, i: int)
    requires
        0 <= i < toks.len(),
    ensures
        offset_of(toks, i + 1) == offset_of(toks, i) + toks[i].byte_len(),
        offset_of(toks, i + 1) <= total_len(toks),
        offset_of(toks, 0) == 0,
    decreases toks.len() - i,
{
    assert(toks.take(i + 1).drop_last() =~= toks.take(i));
    if i + 1 < toks.len() {
        lemma_offset_bounds(toks, i + 1);
    } else {
        assert(toks.take(i + 1) =~= toks);
    }
}

} // verus!
