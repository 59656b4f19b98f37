//! Sanitized output read again: whatever was written is clean, and sanitizing
//! it once more changes nothing.

use vstd::prelude::*;

use crate::bytes::{
    all_intermediates, all_params, c1_byte, continuation_byte, control_byte, intermediate_byte,
    param_byte, BACKSLASH, BEL, BRACKET, C1_CSI, CR, ESC, LF,
};
use crate::classify::Class;
use crate::classify_laws::lemma_malformed_class;
use crate::classify_model::verdict_on;
use crate::parser::{MalformedReason, StrKind, CSI_MAX, ESC_INTERM_MAX, STR_MAX};
use crate::parser_laws::{
    lemma_offset_bounds, lemma_released, lemma_run_byte, lemma_run_concat, lemma_run_ok,
    lemma_start_ok, lemma_tokens_ok, offset_of, phase_ok, string_terminator, token_ok, tokens_ok,
    total_len,
};
use crate::parser_model::{
    all_payload, broken, carries_on, csi_intro, csi_raw, flush, payload_byte, plain_flush,
    plain_run, plain_step, preceded, released, run, start, step, string_intro, string_letter,
    string_of_letter, string_raw, string_token, text_token, tokens, Phase, Run, TokenView,
};
use crate::policy_model::PolicyView;
use crate::sanitize_laws::{lemma_marker, lemma_outcome_label};
use crate::sanitize_model::{
    log_of, lone_cr, normal_form, outcome, own_outcome, ruling, sanitized, terminator_kept, written,
    FindingView, Outcome, SanitizerView,
};
use crate::spelling_laws::{
    all_inner, inner_byte, lemma_control_first, lemma_controls_alone, lemma_raw_inner,
    lemma_tokens_spell_input, lemma_whole_token, read_string, retained, spelled, spelled_at, spells,
};
use crate::utf8_laws::lemma_textual_utf8;
use crate::utf8_model::{char_len, textual, whole_char};

verus! {

// --- reading one written piece ------------------------------------------------

/// Where no character is begun, a byte is read on its own.
pub proof fn lemma_settled_step(phase: Phase, b: u8)
    requires
        phase.settled(),
    ensures
        step(phase, b) == plain_step(phase, b),
{
    assert(Seq::<TokenView>::empty() + plain_step(phase, b).tokens =~= plain_step(
        phase,
        b,
    ).tokens);
}

/// Reading one byte more.
proof fn lemma_run_push(phase: Phase, input: Seq<u8>, b: u8)
    requires
        run(phase, input).phase.settled(),
    ensures
        run(phase, input.push(b)) == preceded(
            run(phase, input).tokens,
            plain_step(run(phase, input).phase, b),
        ),
{
    assert(input.push(b).drop_last() =~= input);
    lemma_settled_step(run(phase, input).phase, b);
}

/// Bytes that do not carry a begun character on give up on it first.
pub proof fn lemma_run_released(phase: Phase, bytes: Seq<u8>)
    requires
        phase.bounded(),
        bytes.len() > 0,
        !carries_on(phase, bytes[0]),
    ensures
        run(phase, bytes) == preceded(
            released(phase).tokens,
            run(released(phase).phase, bytes),
        ),
{
    let r = released(phase);
    let b = bytes[0];
    let rest = bytes.skip(1);
    lemma_released(phase);
    lemma_run_byte(phase, b);
    lemma_run_byte(r.phase, b);
    lemma_settled_step(r.phase, b);
    lemma_run_concat(phase, seq![b], rest);
    lemma_run_concat(r.phase, seq![b], rest);
    assert(bytes =~= seq![b] + rest);
    let one = plain_step(r.phase, b);
    let later = run(one.phase, rest);
    assert(r.tokens + one.tokens + later.tokens =~= r.tokens + (one.tokens + later.tokens));
}

/// A control byte ends a text run and stands by itself.
pub proof fn lemma_run_control(text: Seq<u8>, b: u8)
    requires
        control_byte(b),
        b != ESC,
    ensures
        run(Phase::Ground { text, part: seq![] }, seq![b]) == (Run {
            phase: start(),
            tokens: text_token(text).push(TokenView::Control(b)),
        }),
{
    lemma_run_byte(Phase::Ground { text, part: seq![] }, b);
    lemma_settled_step(Phase::Ground { text, part: seq![] }, b);
}

/// The parameters of a control sequence.
proof fn lemma_run_params(c1: bool, params: Seq<u8>, n: int)
    requires
        all_params(params),
        0 <= n <= params.len(),
        2 + params.len() <= CSI_MAX,
    ensures
        run(Phase::Csi { c1, params: seq![], intermediates: seq![] }, params.take(n)) == (Run {
            phase: Phase::Csi { c1, params: params.take(n), intermediates: seq![] },
            tokens: seq![],
        }),
    decreases n,
{
    let phase = Phase::Csi { c1, params: seq![], intermediates: seq![] };
    if n == 0 {
        assert(params.take(0) =~= seq![]);
    } else {
        lemma_run_params(c1, params, n - 1);
        assert(params.take(n) =~= params.take(n - 1).push(params[n - 1]));
        lemma_run_push(phase, params.take(n - 1), params[n - 1]);
        assert(param_byte(params[n - 1]));
        assert(run(phase, params.take(n)).tokens =~= seq![]);
    }
}

/// The intermediates of a control sequence.
proof fn lemma_run_intermediates(c1: bool, params: Seq<u8>, intermediates: Seq<u8>, n: int)
    requires
        all_intermediates(intermediates),
        0 <= n <= intermediates.len(),
        csi_raw(false, params, intermediates).len() <= CSI_MAX,
    ensures
        run(Phase::Csi { c1, params, intermediates: seq![] }, intermediates.take(n)) == (Run {
            phase: Phase::Csi { c1, params, intermediates: intermediates.take(n) },
            tokens: seq![],
        }),
    decreases n,
{
    let phase = Phase::Csi { c1, params, intermediates: seq![] };
    if n == 0 {
        assert(intermediates.take(0) =~= seq![]);
    } else {
        lemma_run_intermediates(c1, params, intermediates, n - 1);
        assert(intermediates.take(n) =~= intermediates.take(n - 1).push(intermediates[n - 1]));
        lemma_run_push(phase, intermediates.take(n - 1), intermediates[n - 1]);
        assert(intermediate_byte(intermediates[n - 1]));
        assert(run(phase, intermediates.take(n)).tokens =~= seq![]);
    }
}

/// An introducer of a control sequence ends a text run.
pub proof fn lemma_run_csi_intro(text: Seq<u8>, c1: bool)
    ensures
        run(Phase::Ground { text, part: seq![] }, csi_intro(c1)) == (Run {
            phase: Phase::Csi { c1, params: seq![], intermediates: seq![] },
            tokens: text_token(text),
        }),
{
    let ground = Phase::Ground { text, part: seq![] };
    if c1 {
        lemma_run_byte(ground, C1_CSI);
        lemma_settled_step(ground, C1_CSI);
    } else {
        lemma_run_byte(ground, ESC);
        lemma_settled_step(ground, ESC);
        assert(csi_intro(false) =~= seq![ESC].push(BRACKET));
        lemma_run_push(ground, seq![ESC], BRACKET);
        assert(run(ground, csi_intro(false)).tokens =~= text_token(text));
    }
}

/// A complete control sequence that keeps to the cap is read as such.
#[verifier::rlimit(40)]
pub proof fn lemma_run_csi(
    text: Seq<u8>,
    c1: bool,
    params: Seq<u8>,
    intermediates: Seq<u8>,
    final_byte: u8,
)
    requires
        all_params(params),
        all_intermediates(intermediates),
        0x40 <= final_byte <= 0x7E,
        csi_raw(false, params, intermediates).len() < CSI_MAX,
    ensures
        ({
            let raw = csi_raw(c1, params, intermediates).push(final_byte);
            run(Phase::Ground { text, part: seq![] }, raw) == Run {
                phase: start(),
                tokens: text_token(text).push(
                    TokenView::Csi { params, intermediates, final_byte, raw },
                ),
            }
        }),
{
    let ground = Phase::Ground { text, part: seq![] };
    let body = csi_raw(c1, params, intermediates);
    let opened = Phase::Csi { c1, params: seq![], intermediates: seq![] };
    lemma_run_csi_intro(text, c1);
    lemma_run_params(c1, params, params.len() as int);
    lemma_run_intermediates(c1, params, intermediates, intermediates.len() as int);
    assert(params.take(params.len() as int) =~= params);
    assert(intermediates.take(intermediates.len() as int) =~= intermediates);
    lemma_run_concat(ground, csi_intro(c1), params);
    lemma_run_concat(ground, csi_intro(c1) + params, intermediates);
    assert(run(ground, body).tokens =~= text_token(text));
    lemma_run_push(ground, body, final_byte);
    let raw = body.push(final_byte);
    assert(run(ground, raw).tokens =~= text_token(text).push(
        TokenView::Csi { params, intermediates, final_byte, raw },
    ));
}

/// The intermediates of an escape sequence.
proof fn lemma_run_escape_intermediates(intermediates: Seq<u8>, n: int)
    requires
        all_intermediates(intermediates),
        0 <= n <= intermediates.len() <= ESC_INTERM_MAX,
    ensures
        run(Phase::Escape { intermediates: seq![] }, intermediates.take(n)) == (Run {
            phase: Phase::Escape { intermediates: intermediates.take(n) },
            tokens: seq![],
        }),
    decreases n,
{
    let phase = Phase::Escape { intermediates: seq![] };
    if n == 0 {
        assert(intermediates.take(0) =~= seq![]);
    } else {
        lemma_run_escape_intermediates(intermediates, n - 1);
        assert(intermediates.take(n) =~= intermediates.take(n - 1).push(intermediates[n - 1]));
        lemma_run_push(phase, intermediates.take(n - 1), intermediates[n - 1]);
        assert(intermediate_byte(intermediates[n - 1]));
        assert(run(phase, intermediates.take(n)).tokens =~= seq![]);
    }
}

/// A complete escape sequence is read as such.
pub proof fn lemma_run_esc(text: Seq<u8>, intermediates: Seq<u8>, final_byte: u8)
    requires
        all_intermediates(intermediates),
        intermediates.len() <= ESC_INTERM_MAX,
        0x30 <= final_byte <= 0x7E,
        intermediates.len() == 0 ==> final_byte != BRACKET && string_of_letter(final_byte) is None,
    ensures
        ({
            let raw = (seq![ESC] + intermediates).push(final_byte);
            run(Phase::Ground { text, part: seq![] }, raw) == Run {
                phase: start(),
                tokens: text_token(text).push(TokenView::Esc { intermediates, final_byte, raw }),
            }
        }),
{
    let ground = Phase::Ground { text, part: seq![] };
    let body = seq![ESC] + intermediates;
    lemma_run_byte(ground, ESC);
    lemma_settled_step(ground, ESC);
    lemma_run_escape_intermediates(intermediates, intermediates.len() as int);
    assert(intermediates.take(intermediates.len() as int) =~= intermediates);
    lemma_run_concat(ground, seq![ESC], intermediates);
    assert(run(ground, body).tokens =~= text_token(text));
    lemma_run_push(ground, body, final_byte);
    let raw = body.push(final_byte);
    assert(run(ground, raw).tokens =~= text_token(text).push(
        TokenView::Esc { intermediates, final_byte, raw },
    ));
}

/// The payload of a string sequence. What lies past the cap is counted.
proof fn lemma_run_payload(kind: StrKind, c1: bool, payload: Seq<u8>, n: int)
    requires
        all_payload(payload),
        0 <= n <= payload.len(),
    ensures
        run(
            Phase::Str { kind, c1, payload: seq![], dropped: 0, esc: false },
            payload.take(n),
        ) == (Run {
            phase: Phase::Str {
                kind,
                c1,
                payload: payload.take(retained(n as nat) as int),
                dropped: (n - retained(n as nat)) as nat,
                esc: false,
            },
            tokens: seq![],
        }),
    decreases n,
{
    let phase = Phase::Str { kind, c1, payload: seq![], dropped: 0, esc: false };
    if n == 0 {
        assert(payload.take(0) =~= seq![]);
    } else {
        lemma_run_payload(kind, c1, payload, n - 1);
        assert(payload.take(n) =~= payload.take(n - 1).push(payload[n - 1]));
        lemma_run_push(phase, payload.take(n - 1), payload[n - 1]);
        assert(payload_byte(payload[n - 1]));
        assert(run(phase, payload.take(n)).tokens =~= seq![]);
    }
}

/// An introducer of a string sequence ends a text run.
pub proof fn lemma_run_string_intro(text: Seq<u8>, kind: StrKind, c1: bool)
    ensures
        run(Phase::Ground { text, part: seq![] }, string_intro(kind, c1)) == (Run {
            phase: Phase::Str { kind, c1, payload: seq![], dropped: 0, esc: false },
            tokens: text_token(text),
        }),
{
    let ground = Phase::Ground { text, part: seq![] };
    if c1 {
        lemma_run_byte(ground, (string_letter(kind) + 0x40) as u8);
        lemma_settled_step(ground, (string_letter(kind) + 0x40) as u8);
    } else {
        lemma_run_byte(ground, ESC);
        lemma_settled_step(ground, ESC);
        assert(string_intro(kind, false) =~= seq![ESC].push(string_letter(kind)));
        lemma_run_push(ground, seq![ESC], string_letter(kind));
        assert(run(ground, string_intro(kind, false)).tokens =~= text_token(text));
    }
}

/// The terminator of a string sequence.
proof fn lemma_run_end(kind: StrKind, c1: bool, payload: Seq<u8>, dropped: nat, end: Seq<u8>)
    requires
        string_terminator(kind, end),
    ensures
        run(Phase::Str { kind, c1, payload, dropped, esc: false }, end) == (Run {
            phase: start(),
            tokens: seq![string_token(kind, c1, payload, dropped, end)],
        }),
{
    let phase = Phase::Str { kind, c1, payload, dropped, esc: false };
    lemma_run_byte(phase, end[0]);
    lemma_settled_step(phase, end[0]);
    if end.len() == 2 {
        lemma_run_push(phase, seq![ESC], BACKSLASH);
        assert(end =~= seq![ESC].push(BACKSLASH));
        assert(seq![ESC, BACKSLASH] =~= end);
        assert(run(phase, end).tokens =~= seq![string_token(kind, c1, payload, dropped, end)]);
    } else {
        assert(end =~= seq![end[0]]);
    }
}

/// A complete string sequence is read as such, however long it is.
pub proof fn lemma_run_str(text: Seq<u8>, kind: StrKind, c1: bool, body: Seq<u8>, end: Seq<u8>)
    requires
        all_payload(body),
        string_terminator(kind, end),
    ensures
        run(Phase::Ground { text, part: seq![] }, string_raw(kind, c1, body) + end) == (Run {
            phase: start(),
            tokens: text_token(text).push(read_string(kind, c1, body, end)),
        }),
        body.len() <= STR_MAX ==> read_string(kind, c1, body, end) == string_token(
            kind,
            c1,
            body,
            0,
            end,
        ),
{
    let ground = Phase::Ground { text, part: seq![] };
    let t = read_string(kind, c1, body, end);
    let n = retained(body.len());
    lemma_run_string_intro(text, kind, c1);
    lemma_run_payload(kind, c1, body, body.len() as int);
    lemma_run_end(kind, c1, body.take(n as int), (body.len() - n) as nat, end);
    assert(body.take(body.len() as int) =~= body);
    lemma_run_concat(ground, string_intro(kind, c1), body);
    lemma_run_concat(ground, string_raw(kind, c1, body), end);
    assert(text_token(text) + Seq::<TokenView>::empty() =~= text_token(text));
    assert(text_token(text) + seq![t] =~= text_token(text).push(t));
}

/// A control sequence that fills the cap and goes on is given up as oversized,
/// whichever introducer it has.
pub proof fn lemma_oversized_csi(c1: bool, params: Seq<u8>, intermediates: Seq<u8>, b: u8)
    requires
        all_params(params),
        all_intermediates(intermediates),
        csi_raw(false, params, intermediates).len() == CSI_MAX,
        0x20 <= b <= 0x7E,
    ensures
        ({
            let raw = csi_raw(c1, params, intermediates).push(b);
            run(start(), raw) == Run {
                phase: start(),
                tokens: seq![broken(raw, MalformedReason::Oversized)],
            }
        }),
{
    let body = csi_raw(c1, params, intermediates);
    let raw = body.push(b);
    lemma_run_csi_intro(seq![], c1);
    lemma_run_params(c1, params, params.len() as int);
    lemma_run_intermediates(c1, params, intermediates, intermediates.len() as int);
    assert(params.take(params.len() as int) =~= params);
    assert(intermediates.take(intermediates.len() as int) =~= intermediates);
    lemma_run_concat(start(), csi_intro(c1), params);
    lemma_run_concat(start(), csi_intro(c1) + params, intermediates);
    assert(run(start(), body).tokens =~= seq![]);
    lemma_run_push(start(), body, b);
    assert(run(start(), raw).tokens =~= seq![broken(raw, MalformedReason::Oversized)]);
}

// --- reading kept tokens again --------------------------------------------------

/// No policy keeps malformed sequences.
pub open spec fn policy_ok(p: PolicyView) -> bool {
    !p.allowed.contains(Class::Malformed)
}

/// Does the policy let this token through?
pub open spec fn clean(p: PolicyView, t: TokenView) -> bool {
    !(own_outcome(p, t) is Strip)
}

/// Is every token let through, and spelled as it is kept? Then no 8-bit
/// introducer or terminator is left.
pub open spec fn all_clean(p: PolicyView, toks: Seq<TokenView>) -> bool {
    forall|i: int|
        0 <= i < toks.len() ==> clean(p, #[trigger] toks[i]) && normal_form(toks[i])
            == toks[i].raw()
}

proof fn lemma_clean_concat(p: PolicyView, a: Seq<TokenView>, b: Seq<TokenView>)
    requires
        all_clean(p, a),
        all_clean(p, b),
    ensures
        all_clean(p, a + b),
{
    let all = a + b;
    assert forall|i: int| 0 <= i < all.len() implies clean(p, #[trigger] all[i]) && normal_form(
        all[i],
    ) == all[i].raw() by {
        if i < a.len() {
            assert(all[i] == a[i]);
        } else {
            assert(all[i] == b[i - a.len()]);
        }
    }
}

/// Text that a token ends stays clean with that token.
proof fn lemma_clean_after_text(p: PolicyView, text: Seq<u8>, t: TokenView)
    requires
        clean(p, t),
        normal_form(t) == t.raw(),
    ensures
        all_clean(p, text_token(text)),
        all_clean(p, text_token(text).push(t)),
{
    lemma_clean_concat(p, text_token(text), seq![t]);
    assert(text_token(text) + seq![t] =~= text_token(text).push(t));
}

/// The token that the kept form of a token is read as.
pub open spec fn again(t: TokenView) -> TokenView {
    match t {
        TokenView::Csi { params, intermediates, final_byte, .. } => TokenView::Csi {
            params,
            intermediates,
            final_byte,
            raw: csi_raw(false, params, intermediates).push(final_byte),
        },
        TokenView::Str { kind, payload, raw, .. } => string_token(
            kind,
            false,
            payload,
            0,
            terminator_kept(kind, raw),
        ),
        _ => t,
    }
}

/// A token that is let through is none that was given up or cut short.
pub proof fn lemma_clean_whole(p: PolicyView, t: TokenView)
    requires
        policy_ok(p),
        clean(p, t),
    ensures
        !(t is Malformed),
        t matches TokenView::Str { overlong, .. } ==> !overlong,
        written(true, own_outcome(p, t)) == normal_form(t),
        written(false, own_outcome(p, t)) == normal_form(t),
{
    reveal(ruling);
    lemma_malformed_class(t);
}

/// The kept form of a control sequence has the 7-bit introducer.
proof fn lemma_csi_form(t: TokenView)
    requires
        token_ok(t),
        t is Csi,
    ensures
        normal_form(t) == again(t).raw(),
        normal_form(again(t)) == again(t).raw(),
{
    if let TokenView::Csi { params, intermediates, final_byte, raw } = t {
        let whole = csi_raw(false, params, intermediates).push(final_byte);
        assert(whole[0] == ESC);
        if raw[0] != ESC {
            assert(csi_raw(true, params, intermediates).push(final_byte)[0] == C1_CSI);
            assert(normal_form(t) =~= whole);
        }
    }
}

/// The kept form of a string sequence ends as it is kept.
proof fn lemma_string_form(t: TokenView)
    requires
        t is Str,
    ensures
        normal_form(t) == again(t).raw(),
        normal_form(again(t)) == again(t).raw(),
{
    if let TokenView::Str { kind, payload, raw, .. } = t {
        let end = terminator_kept(kind, raw);
        let body = string_raw(kind, false, payload);
        assert(seq![ESC, BACKSLASH].len() == 2 && seq![ESC, BACKSLASH][1] == BACKSLASH);
        assert(seq![BEL].len() == 1 && seq![BEL][0] == BEL);
        assert((body + end).last() == end.last());
    }
}

/// What a token is read as again is let through again, and spelled as it is
/// kept.
proof fn lemma_again(p: PolicyView, t: TokenView)
    requires
        policy_ok(p),
        token_ok(t),
        clean(p, t),
    ensures
        clean(p, again(t)),
        normal_form(t) == again(t).raw(),
        normal_form(again(t)) == again(t).raw(),
{
    reveal(ruling);
    lemma_clean_whole(p, t);
    assert(verdict_on(again(t)) == verdict_on(t));
    match t {
        TokenView::Csi { .. } => lemma_csi_form(t),
        TokenView::Str { .. } => lemma_string_form(t),
        _ => {},
    }
}

/// Is the begun character one that can be given up without harm? Its later
/// bytes are then text, or 8-bit controls that the policy keeps.
spec fn quiet(p: PolicyView, part: Seq<u8>) -> bool {
    forall|i: int| 1 <= i < part.len() ==> quiet_byte(p, #[trigger] part[i])
}

spec fn quiet_byte(p: PolicyView, b: u8) -> bool {
    c1_byte(b) ==> token_ok(TokenView::C1(b)) && clean(p, TokenView::C1(b))
}

/// Has what was read so far left clean tokens and no open sequence?
spec fn reads_clean(p: PolicyView, r: Run) -> bool {
    &&& r.phase matches Phase::Ground { part, .. } && quiet(p, part)
    &&& all_clean(p, r.tokens)
}

proof fn lemma_plain_run_clean(p: PolicyView, text: Seq<u8>, bytes: Seq<u8>)
    requires
        forall|i: int|
            0 <= i < bytes.len() ==> continuation_byte(#[trigger] bytes[i]) && quiet_byte(
                p,
                bytes[i],
            ),
    ensures
        ({
            let r = plain_run(Phase::Ground { text, part: seq![] }, bytes);
            &&& r.phase matches Phase::Ground { part, .. } && part.len() == 0
            &&& all_clean(p, r.tokens)
        }),
    decreases bytes.len(),
{
    if bytes.len() > 0 {
        let front = bytes.drop_last();
        let b = bytes.last();
        let before = plain_run(Phase::Ground { text, part: seq![] }, front);
        assert forall|i: int| 0 <= i < front.len() implies continuation_byte(#[trigger] front[i])
            && quiet_byte(p, front[i]) by {
            assert(front[i] == bytes[i]);
        }
        lemma_plain_run_clean(p, text, front);
        assert(quiet_byte(p, bytes[bytes.len() - 1]));
        if c1_byte(b) {
            lemma_clean_after_text(p, before.phase->text, TokenView::C1(b));
        }
        lemma_clean_concat(p, before.tokens, plain_step(before.phase, b).tokens);
    }
}

/// Giving up on a character begun without harm leaves clean tokens and text.
proof fn lemma_released_clean(p: PolicyView, text: Seq<u8>, part: Seq<u8>)
    requires
        phase_ok(Phase::Ground { text, part }),
        quiet(p, part),
    ensures
        ({
            let r = released(Phase::Ground { text, part });
            &&& r.phase matches Phase::Ground { part: none, .. } && none.len() == 0
            &&& r.phase == Phase::Ground { text: r.phase->text, part: seq![] }
            &&& all_clean(p, r.tokens)
        }),
{
    if part.len() > 0 {
        let rest = part.skip(1);
        assert forall|i: int| 0 <= i < rest.len() implies continuation_byte(#[trigger] rest[i])
            && quiet_byte(p, rest[i]) by {
            assert(rest[i] == part[i + 1]);
            if i + 1 >= 2 {
                assert(continuation_byte(part[i + 1]));
            }
        }
        lemma_plain_run_clean(p, text.push(part[0]), rest);
    }
    let r = released(Phase::Ground { text, part });
    assert(r.phase->part =~= seq![]);
}

/// A byte that is text or an 8-bit control that is kept, read on its own or as
/// part of a begun character.
proof fn lemma_quiet_step(p: PolicyView, text: Seq<u8>, part: Seq<u8>, b: u8)
    requires
        phase_ok(Phase::Ground { text, part }),
        quiet(p, part),
        !control_byte(b),
        quiet_byte(p, b),
    ensures
        reads_clean(p, step(Phase::Ground { text, part }, b)),
{
    let phase = Phase::Ground { text, part };
    if !carries_on(phase, b) {
        let r = released(phase);
        lemma_released_clean(p, text, part);
        if c1_byte(b) {
            lemma_clean_after_text(p, r.phase->text, TokenView::C1(b));
        }
        lemma_clean_concat(p, r.tokens, plain_step(r.phase, b).tokens);
    }
}

// --- characters in text -----------------------------------------------------------

/// Is the place `i` of `text` inside the character between `from` and `to`?
spec fn inside(text: Seq<u8>, i: int, from: int, to: int) -> bool {
    &&& 0 <= from < i
    &&& i < to <= text.len()
    &&& whole_char(text.subrange(from, to))
}

/// Two characters that meet are one.
proof fn lemma_chars_apart(text: Seq<u8>, a: int, b: int, c: int, d: int)
    requires
        0 <= a < b <= text.len(),
        0 <= c < d <= text.len(),
        whole_char(text.subrange(a, b)),
        whole_char(text.subrange(c, d)),
        a <= c < b,
    ensures
        a == c,
        b == d,
{
    let x = text.subrange(a, b);
    let y = text.subrange(c, d);
    assert(y[0] == text[c]);
    assert(x[c - a] == text[c]);
}

/// How far reading a piece of text has come: inside a character of the text,
/// its first bytes are held; elsewhere what is held does no harm.
spec fn text_read(p: PolicyView, piece: Seq<u8>, i: int, r: Run) -> bool {
    &&& r.phase is Ground
    &&& all_clean(p, r.tokens)
    &&& forall|from: int, to: int| #[trigger]
        inside(piece, i, from, to) ==> r.phase->part == piece.subrange(from, i)
    &&& (forall|from: int, to: int| !#[trigger] inside(piece, i, from, to)) ==> quiet(
        p,
        r.phase->part,
    )
}

proof fn lemma_text_read(p: PolicyView, text: Seq<u8>, part: Seq<u8>, piece: Seq<u8>, i: int)
    requires
        phase_ok(Phase::Ground { text, part }),
        quiet(p, part),
        textual(piece),
        0 <= i <= piece.len(),
    ensures
        text_read(p, piece, i, run(Phase::Ground { text, part }, piece.take(i))),
    decreases i,
{
    let phase = Phase::Ground { text, part };
    if i == 0 {
        assert(piece.take(0) =~= seq![]);
    } else {
        let j = i - 1;
        let b = piece[j];
        let before = run(phase, piece.take(j));
        lemma_text_read(p, text, part, piece, j);
        lemma_run_ok(phase, piece.take(j));
        assert(piece.take(i).drop_last() =~= piece.take(j));
        let now = step(before.phase, b);
        assert(run(phase, piece.take(i)) == preceded(before.tokens, now));
        assert(!control_byte(b));
        let x = before.phase->text;
        let held = before.phase->part;
        if exists|from: int, to: int| #[trigger] inside(piece, j, from, to) {
            let (from, to) = choose|from: int, to: int| #[trigger] inside(piece, j, from, to);
            lemma_char_read(piece, j, from, to, x, held);
            assert forall|c: int, d: int| #[trigger] inside(piece, i, c, d) implies now.phase->part
                == piece.subrange(c, i) by {
                if c <= from {
                    lemma_chars_apart(piece, c, d, from, to);
                } else {
                    lemma_chars_apart(piece, from, to, c, d);
                }
            }
            if i < to {
                assert(inside(piece, i, from, to));
            }
            lemma_clean_concat(p, before.tokens, now.tokens);
        } else {
            assert(quiet_byte(p, b)) by {
                if c1_byte(b) {
                    let (from, to) = choose|from: int, to: int|
                        0 <= from < j && j < to <= piece.len() && whole_char(
                            #[trigger] piece.subrange(from, to),
                        );
                    assert(inside(piece, j, from, to));
                }
            }
            lemma_quiet_step(p, x, held, b);
            lemma_clean_concat(p, before.tokens, now.tokens);
            assert forall|c: int, d: int| #[trigger] inside(piece, i, c, d) implies now.phase->part
                == piece.subrange(c, i) by {
                if c < j {
                    assert(inside(piece, j, c, d));
                }
                let whole = piece.subrange(c, d);
                assert(whole[0] == b);
                lemma_lead_read(p, x, held, b);
                assert(piece.subrange(c, i) =~= seq![b]);
            }
        }
    }
}

/// A byte inside a character of the text carries it on.
proof fn lemma_char_read(
    piece: Seq<u8>,
    j: int,
    from: int,
    to: int,
    text: Seq<u8>,
    held: Seq<u8>,
)
    requires
        inside(piece, j, from, to),
        held == piece.subrange(from, j),
    ensures
        ({
            let now = step(Phase::Ground { text, part: held }, piece[j]);
            &&& now.phase is Ground
            &&& now.tokens == Seq::<TokenView>::empty()
            &&& now.phase->part == if j + 1 == to {
                seq![]
            } else {
                piece.subrange(from, j + 1)
            }
        }),
{
    let whole = piece.subrange(from, to);
    let b = piece[j];
    assert(whole[j - from] == b);
    assert(whole[0] == held[0]);
    if held.len() > 1 {
        assert(continuation_byte(whole[j - from]));
    } else {
        assert(whole[1] == b);
    }
    assert(held.push(b) =~= piece.subrange(from, j + 1));
}

/// The first byte of a character begins one.
proof fn lemma_lead_read(p: PolicyView, text: Seq<u8>, part: Seq<u8>, b: u8)
    requires
        phase_ok(Phase::Ground { text, part }),
        quiet(p, part),
        char_len(b) > 0,
    ensures
        step(Phase::Ground { text, part }, b).phase->part == seq![b],
{
    lemma_released_clean(p, text, part);
}

/// A piece of text after anything that reads as clean does too.
proof fn lemma_run_text(p: PolicyView, text: Seq<u8>, part: Seq<u8>, piece: Seq<u8>)
    requires
        phase_ok(Phase::Ground { text, part }),
        quiet(p, part),
        textual(piece),
    ensures
        reads_clean(p, run(Phase::Ground { text, part }, piece)),
{
    lemma_text_read(p, text, part, piece, piece.len() as int);
    assert(piece.take(piece.len() as int) =~= piece);
}

/// Reading a sequence after a character that is given up for it.
proof fn lemma_run_after(p: PolicyView, text: Seq<u8>, part: Seq<u8>, bytes: Seq<u8>)
    requires
        phase_ok(Phase::Ground { text, part }),
        quiet(p, part),
        bytes.len() > 0,
        bytes[0] < 0x80,
        reads_clean(
            p,
            run(
                Phase::Ground {
                    text: released(Phase::Ground { text, part }).phase->text,
                    part: seq![],
                },
                bytes,
            ),
        ),
    ensures
        reads_clean(p, run(Phase::Ground { text, part }, bytes)),
{
    let phase = Phase::Ground { text, part };
    let r = released(phase);
    lemma_released_clean(p, text, part);
    lemma_run_released(phase, bytes);
    lemma_clean_concat(p, r.tokens, run(r.phase, bytes).tokens);
}

/// Reading the kept form of a token that is let through.
#[verifier::rlimit(40)]
proof fn lemma_run_normal_form(p: PolicyView, text: Seq<u8>, part: Seq<u8>, t: TokenView)
    requires
        policy_ok(p),
        phase_ok(Phase::Ground { text, part }),
        quiet(p, part),
        token_ok(t),
        clean(p, t),
    ensures
        reads_clean(p, run(Phase::Ground { text, part }, normal_form(t))),
{
    let phase = Phase::Ground { text, part };
    let x = released(phase).phase->text;
    lemma_clean_whole(p, t);
    lemma_again(p, t);
    lemma_clean_after_text(p, x, again(t));
    match t {
        TokenView::Text(more) => {
            lemma_run_text(p, text, part, more);
        },
        TokenView::Control(b) => {
            lemma_run_control(x, b);
            lemma_run_after(p, text, part, seq![b]);
        },
        TokenView::C1(b) => {
            lemma_run_byte(phase, b);
            lemma_quiet_step(p, text, part, b);
        },
        TokenView::Csi { params, intermediates, final_byte, raw } => {
            lemma_run_csi(x, false, params, intermediates, final_byte);
            lemma_run_after(p, text, part, normal_form(t));
        },
        TokenView::Esc { intermediates, final_byte, raw } => {
            lemma_run_esc(x, intermediates, final_byte);
            lemma_run_after(p, text, part, normal_form(t));
        },
        TokenView::Str { kind, payload, raw, .. } => {
            let end = terminator_kept(kind, raw);
            assert(seq![BEL].len() == 1 && seq![BEL][0] == BEL);
            lemma_run_str(x, kind, false, payload, end);
            lemma_run_after(p, text, part, normal_form(t));
        },
        TokenView::Malformed { .. } => {},
    }
}

// --- reading the whole output again -----------------------------------------------

/// The kept forms of the tokens, one after the other.
pub open spec fn normal_forms(toks: Seq<TokenView>) -> Seq<u8>
    decreases toks.len(),
{
    if toks.len() == 0 {
        seq![]
    } else {
        normal_forms(toks.drop_last()) + normal_form(toks.last())
    }
}

/// One token more.
pub proof fn lemma_normal_forms_push(toks: Seq<TokenView>, t: TokenView)
    ensures
        normal_forms(toks.push(t)) == normal_forms(toks) + normal_form(t),
{
    assert(toks.push(t).drop_last() =~= toks);
}

/// The kept forms of tokens and text after them.
pub proof fn lemma_normal_forms_text(toks: Seq<TokenView>, text: Seq<u8>)
    ensures
        normal_forms(toks + text_token(text)) == normal_forms(toks) + text,
{
    if text.len() == 0 {
        assert(toks + text_token(text) =~= toks);
        assert(normal_forms(toks) + text =~= normal_forms(toks));
    } else {
        assert(toks + text_token(text) =~= toks.push(TokenView::Text(text)));
        lemma_normal_forms_push(toks, TokenView::Text(text));
    }
}

/// The output for the first `n` tokens reads as clean.
proof fn lemma_rescanned(p: PolicyView, marks: Seq<bool>, toks: Seq<TokenView>, n: int)
    requires
        policy_ok(p),
        tokens_ok(toks),
        0 <= n <= toks.len(),
    ensures
        reads_clean(p, run(start(), log_of(p, marks, toks, n).output)),
    decreases n,
{
    if n > 0 {
        let i = n - 1;
        let output = log_of(p, marks, toks, i).output;
        let piece = written(marks[i], outcome(p, toks, i));
        let r = run(start(), output);
        lemma_rescanned(p, marks, toks, i);
        lemma_start_ok();
        lemma_run_ok(start(), output);
        lemma_run_concat(start(), output, piece);
        let text = r.phase->text;
        let part = r.phase->part;
        assert(token_ok(toks[i]));
        match outcome(p, toks, i) {
            Outcome::Strip(verdict) => {
                if marks[i] {
                    lemma_outcome_label(p, toks, i);
                    lemma_marker(verdict.label);
                    lemma_textual_utf8(piece);
                    lemma_run_text(p, text, part, piece);
                } else {
                    assert(run(r.phase, piece) == (Run { phase: r.phase, tokens: seq![] }));
                }
            },
            _ => {
                reveal(ruling);
                lemma_clean_whole(p, toks[i]);
                lemma_run_normal_form(p, text, part, toks[i]);
            },
        }
        lemma_clean_concat(p, r.tokens, run(r.phase, piece).tokens);
    }
}

/// Where nothing is removed there is no finding, and the kept forms of the
/// tokens are written.
pub proof fn lemma_log_clean(p: PolicyView, marks: Seq<bool>, toks: Seq<TokenView>, n: int)
    requires
        policy_ok(p),
        0 <= n <= toks.len(),
        forall|i: int| 0 <= i < toks.len() ==> !(#[trigger] outcome(p, toks, i) is Strip),
    ensures
        log_of(p, marks, toks, n).findings == Seq::<FindingView>::empty(),
        log_of(p, marks, toks, n).stripped == 0,
        log_of(p, marks, toks, n).output == normal_forms(toks.take(n)),
    decreases n,
{
    if n == 0 {
        assert(toks.take(0) =~= seq![]);
    } else {
        lemma_log_clean(p, marks, toks, n - 1);
        assert(!(outcome(p, toks, n - 1) is Strip));
        lemma_clean_whole(p, toks[n - 1]);
        assert(toks.take(n) =~= toks.take(n - 1).push(toks[n - 1]));
        lemma_normal_forms_push(toks.take(n - 1), toks[n - 1]);
    }
}

/// Tokens that are spelled as they are kept are written as they were read.
pub proof fn lemma_clean_spelled(p: PolicyView, toks: Seq<TokenView>, bytes: Seq<u8>, n: int)
    requires
        policy_ok(p),
        tokens_ok(toks),
        all_clean(p, toks),
        spells(toks, bytes),
        0 <= n <= toks.len(),
    ensures
        offset_of(toks, n) <= bytes.len(),
        normal_forms(toks.take(n)) == bytes.take(offset_of(toks, n) as int),
    decreases n,
{
    reveal(spells);
    if n == 0 {
        assert(toks.take(0) =~= seq![]);
        assert(bytes.take(0) =~= seq![]);
    } else {
        let i = n - 1;
        let t = toks[i];
        let from = offset_of(toks, i) as int;
        let to = offset_of(toks, n) as int;
        lemma_clean_spelled(p, toks, bytes, i);
        lemma_offset_bounds(toks, i);
        lemma_clean_whole(p, t);
        assert(token_ok(t));
        assert(spelled_at(toks, bytes, i));
        lemma_whole_token(t, bytes.subrange(from, to));
        assert(toks.take(n) =~= toks.take(i).push(t));
        lemma_normal_forms_push(toks.take(i), t);
        assert(bytes.take(to) =~= bytes.take(from) + bytes.subrange(from, to));
    }
}

// --- carriage returns -------------------------------------------------------------

/// Does a line feed follow every carriage return of `bytes`?
pub open spec fn crs_paired(bytes: Seq<u8>) -> bool {
    forall|i: int|
        0 <= i < bytes.len() && #[trigger] bytes[i] == CR ==> i + 1 < bytes.len() && bytes[i + 1]
            == LF
}

/// Besides single control bytes, what is let through holds no control byte but
/// `ESC` and `BEL`.
pub proof fn lemma_kept_inner(p: PolicyView, t: TokenView)
    requires
        policy_ok(p),
        token_ok(t),
        clean(p, t),
        !(t is Control),
    ensures
        all_inner(normal_form(t)),
{
    lemma_raw_inner(t);
    lemma_clean_whole(p, t);
    let form = normal_form(t);
    match t {
        TokenView::Csi { raw, .. } => {
            assert forall|i: int| 0 <= i < form.len() implies inner_byte(#[trigger] form[i]) by {
                if raw[0] == C1_CSI && i >= 2 {
                    assert(form[i] == raw[i - 1]);
                }
            }
        },
        TokenView::Str { payload, .. } => {
            assert forall|i: int| 0 <= i < form.len() implies inner_byte(#[trigger] form[i]) by {
                if 2 <= i < 2 + payload.len() {
                    assert(form[i] == payload[i - 2]);
                    assert(payload_byte(payload[i - 2]));
                }
            }
        },
        _ => {},
    }
}

/// A carriage return at the end of the output for the first `n` tokens is due
/// a line feed; all others have theirs.
spec fn crs_due(toks: Seq<TokenView>, n: int, output: Seq<u8>) -> bool {
    &&& forall|i: int|
        0 <= i < output.len() - 1 && #[trigger] output[i] == CR ==> output[i + 1] == LF
    &&& output.len() > 0 && output.last() == CR ==> n < toks.len() && toks[n] == TokenView::Control(
        LF,
    )
}

proof fn lemma_crs_due(p: PolicyView, marks: Seq<bool>, toks: Seq<TokenView>, n: int)
    requires
        policy_ok(p),
        !p.allow_lone_cr,
        tokens_ok(toks),
        0 <= n <= toks.len(),
    ensures
        crs_due(toks, n, log_of(p, marks, toks, n).output),
    decreases n,
{
    if n > 0 {
        let i = n - 1;
        lemma_crs_due(p, marks, toks, i);
        let before = log_of(p, marks, toks, i).output;
        let piece = written(marks[i], outcome(p, toks, i));
        let after = before + piece;
        assert(token_ok(toks[i]));
        match outcome(p, toks, i) {
            Outcome::Strip(verdict) => {
                if marks[i] {
                    lemma_outcome_label(p, toks, i);
                    lemma_marker(verdict.label);
                    assert forall|j: int| 0 <= j < piece.len() implies piece[j] != CR by {
                        assert(!control_byte(piece[j]));
                    }
                }
            },
            _ => {
                reveal(ruling);
                lemma_clean_whole(p, toks[i]);
                assert(piece == normal_form(toks[i]));
                if !(toks[i] is Control) {
                    lemma_kept_inner(p, toks[i]);
                    assert forall|j: int| 0 <= j < piece.len() implies piece[j] != CR by {
                        assert(inner_byte(piece[j]));
                    }
                }
            },
        }
        if piece.len() == 0 {
            assert(after =~= before);
        }
    }
}

/// Has the sanitizer read its whole input?
pub open spec fn complete(v: SanitizerView) -> bool {
    v.finished && v.marks.len() == v.toks().len()
}

/// Where lone carriage returns are forbidden, every carriage return that is
/// written has its line feed.
pub proof fn lemma_no_lone_cr_written(v: SanitizerView)
    requires
        complete(v),
        policy_ok(v.policy),
        !v.policy.allow_lone_cr,
    ensures
        crs_paired(v.output()),
{
    lemma_tokens_ok(v.input);
    lemma_crs_due(v.policy, v.marks, v.toks(), v.toks().len() as int);
}

/// A carriage return token stands for the byte at its offset, and it is lone if
/// and only if no line feed is the next byte.
pub proof fn lemma_lone_cr_bytes(input: Seq<u8>, i: int)
    requires
        0 <= i < tokens(input).len(),
        tokens(input)[i] == TokenView::Control(CR),
    ensures
        ({
            let x = offset_of(tokens(input), i) as int;
            &&& 0 <= x < input.len()
            &&& input[x] == CR
            &&& lone_cr(tokens(input), i) <==> !(x + 1 < input.len() && input[x + 1] == LF)
        }),
{
    let toks = tokens(input);
    let x = offset_of(toks, i) as int;
    lemma_tokens_spell_input(input);
    lemma_tokens_ok(input);
    reveal(spells);
    lemma_offset_bounds(toks, i);
    assert(spelled_at(toks, input, i));
    lemma_controls_alone(toks[i], input.subrange(x, x + 1));
    assert(input.subrange(x, x + 1)[0] == input[x]);
    if i + 1 < toks.len() {
        let next = toks[i + 1];
        lemma_offset_bounds(toks, i + 1);
        assert(token_ok(next));
        assert(spelled_at(toks, input, i + 1));
        let segment = input.subrange(x + 1, (x + 1 + next.byte_len()) as int);
        assert(spelled(next, segment));
        assert(segment.len() > 0);
        assert(segment[0] == input[x + 1]);
        if input[x + 1] == LF {
            lemma_control_first(next, segment);
        }
        lemma_controls_alone(next, segment);
        if next == TokenView::Control(LF) {
            assert(segment[0] == LF);
        }
    } else {
        assert(toks.take(i + 1) =~= toks);
    }
}

// --- the laws ---------------------------------------------------------------------

/// Sanitized output re-scans clean: every token in it is text, whitespace or a
/// sequence that the policy allows, no 8-bit introducer or terminator is left,
/// and scanning it finds and removes nothing. In particular, where lone
/// carriage returns are forbidden, a line feed follows every carriage return.
pub proof fn lemma_output_rescans_clean(v: SanitizerView, mark: bool)
    requires
        complete(v),
        policy_ok(v.policy),
    ensures
        all_clean(v.policy, tokens(v.output())),
        !v.policy.allow_lone_cr ==> forall|i: int|
            0 <= i < tokens(v.output()).len() ==> !#[trigger] lone_cr(tokens(v.output()), i),
        ({
            let rescan = sanitized(v.policy, mark, v.output());
            &&& rescan.log().findings == Seq::<FindingView>::empty()
            &&& rescan.log().stripped == 0
        }),
{
    lemma_rescan(v, mark);
}

/// Sanitizing is idempotent: sanitizing the output again gives the same bytes.
pub proof fn lemma_sanitizing_is_idempotent(v: SanitizerView, mark: bool)
    requires
        complete(v),
        policy_ok(v.policy),
    ensures
        sanitized(v.policy, mark, v.output()).output() == v.output(),
{
    lemma_rescan(v, mark);
}

proof fn lemma_rescan(v: SanitizerView, mark: bool)
    requires
        complete(v),
        policy_ok(v.policy),
    ensures
        all_clean(v.policy, tokens(v.output())),
        !v.policy.allow_lone_cr ==> forall|i: int|
            0 <= i < tokens(v.output()).len() ==> !#[trigger] lone_cr(tokens(v.output()), i),
        ({
            let rescan = sanitized(v.policy, mark, v.output());
            &&& rescan.log().findings == Seq::<FindingView>::empty()
            &&& rescan.log().stripped == 0
            &&& rescan.output() == v.output()
        }),
{
    let p = v.policy;
    let toks = v.toks();
    let output = v.output();
    lemma_tokens_ok(v.input);
    lemma_rescanned(p, v.marks, toks, toks.len() as int);
    let r = run(start(), output);
    let text = r.phase->text;
    let part = r.phase->part;
    let all = tokens(output);
    let last = released(r.phase);
    lemma_start_ok();
    lemma_run_ok(start(), output);
    lemma_released_clean(p, text, part);
    assert(all_clean(p, text_token(last.phase->text)));
    lemma_clean_concat(p, last.tokens, plain_flush(last.phase));
    lemma_clean_concat(p, r.tokens, flush(r.phase));
    assert forall|i: int| 0 <= i < all.len() && !p.allow_lone_cr implies !#[trigger] lone_cr(
        all,
        i,
    ) by {
        if all[i] == TokenView::Control(CR) {
            lemma_no_lone_cr_written(v);
            lemma_lone_cr_bytes(output, i);
        }
    }
    assert forall|i: int| 0 <= i < all.len() implies !(#[trigger] outcome(p, all, i) is Strip) by {
        assert(clean(p, all[i]));
        assert(p.allow_lone_cr || !lone_cr(all, i));
    }
    let rescan = sanitized(p, mark, output);
    lemma_log_clean(p, rescan.marks, all, all.len() as int);
    lemma_tokens_ok(output);
    lemma_tokens_spell_input(output);
    lemma_clean_spelled(p, all, output, all.len() as int);
    assert(all.take(all.len() as int) =~= all);
    assert(total_len(all) == output.len()) by {
        reveal(spells);
    }
    assert(output.take(output.len() as int) =~= output);
}

} // verus!
