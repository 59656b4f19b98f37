//! 8-bit controls: none is written raw unless the policy allows it, and 8-bit
//! introducers gain nothing over 7-bit ones.

use vstd::prelude::*;

use crate::bytes::{
    all_intermediates, all_params, c1_byte, intermediate_byte, param_byte, BACKSLASH, BEL, BRACKET,
    C1_CSI, ESC,
};
use crate::classify::Class;
use crate::classify_laws::{harmless, lemma_hyperlink_class};
use crate::classify_model::verdict_on;
use crate::parser::{StrKind, CSI_MAX, STR_MAX};
use crate::parser_laws::{
    lemma_released, lemma_released_ok, lemma_run_concat, lemma_run_ok, lemma_start_ok, phase_ok,
    string_terminator, token_ok, tokens_ok,
};
use crate::parser_model::{
    all_payload, carries_on, csi_intro, csi_raw, flush, payload_byte, preceded, released, run,
    start, string_intro, string_raw, string_token, text_token, tokens, Phase, Run, TokenView,
};
use crate::passing_laws::lemma_only_allowed_survives;
use crate::policy::Preset;
use crate::policy_model::{preset_policy, PolicyView};
use crate::rescan_laws::{
    lemma_clean_whole, lemma_run_csi, lemma_run_csi_intro, lemma_run_released, lemma_run_str,
    lemma_run_string_intro, policy_ok,
};
use crate::sanitize_laws::{lemma_marker, lemma_outcome_label, lemma_toks_fit};
use crate::sanitize_model::{
    log_of, normal_form, outcome, own_outcome, ruling, terminator_kept, written, Outcome,
    SanitizerView,
};
use crate::spelling_laws::{read_string, retained};
use crate::utf8_laws::{lemma_no_raw_c1_concat, lemma_textual_utf8};
use crate::utf8_model::{no_raw_c1, textual};

verus! {

// --- 8-bit controls -----------------------------------------------------------------

/// A kept control sequence is spelled in ASCII.
proof fn lemma_kept_csi_ascii(t: TokenView)
    requires
        token_ok(t),
        t is Csi,
    ensures
        no_raw_c1(normal_form(t)),
{
    let form = normal_form(t);
    if let TokenView::Csi { params, intermediates, final_byte, raw } = t {
        let c1 = raw[0] != ESC;
        let k = csi_intro(c1).len() as int;
        if c1 {
            assert(csi_raw(true, params, intermediates).push(final_byte)[0] == C1_CSI);
        }
        assert forall|i: int| 0 <= i < form.len() implies !c1_byte(#[trigger] form[i]) by {
            if i >= 2 {
                let j = i - 2 + k;
                assert(form[i] == raw[j]);
                if j < k + params.len() {
                    assert(raw[j] == params[j - k]);
                    assert(param_byte(params[j - k]));
                } else if j < k + params.len() + intermediates.len() {
                    assert(raw[j] == intermediates[j - k - params.len()]);
                    assert(intermediate_byte(intermediates[j - k - params.len()]));
                }
            }
        }
    }
}

/// A kept string sequence with text for payload has no raw C1 byte.
proof fn lemma_kept_string_plain(t: TokenView)
    requires
        t matches TokenView::Str { payload, .. } && textual(payload),
    ensures
        no_raw_c1(normal_form(t)),
{
    if let TokenView::Str { kind, payload, raw, .. } = t {
        let intro = string_intro(kind, false);
        let end = terminator_kept(kind, raw);
        assert(no_raw_c1(intro));
        assert(no_raw_c1(end));
        lemma_no_raw_c1_concat(intro, payload);
        lemma_no_raw_c1_concat(intro + payload, end);
    }
}

/// A kept escape sequence is spelled in ASCII.
proof fn lemma_kept_esc_ascii(t: TokenView)
    requires
        token_ok(t),
        t is Esc,
    ensures
        no_raw_c1(normal_form(t)),
{
    if let TokenView::Esc { intermediates, final_byte, raw } = t {
        assert forall|i: int| 0 <= i < raw.len() implies !c1_byte(#[trigger] raw[i]) by {
            if 1 <= i < 1 + intermediates.len() {
                assert(raw[i] == intermediates[i - 1]);
                assert(intermediate_byte(intermediates[i - 1]));
            }
        }
    }
}

/// Does the policy strip 8-bit controls, and malformed sequences as every
/// policy does?
pub open spec fn strips_c1(p: PolicyView) -> bool {
    policy_ok(p) && !p.allowed.contains(Class::C1)
}

proof fn lemma_written_no_raw_c1(p: PolicyView, mark: bool, toks: Seq<TokenView>, i: int)
    requires
        strips_c1(p),
        tokens_ok(toks),
        0 <= i < toks.len(),
    ensures
        no_raw_c1(written(mark, outcome(p, toks, i))),
{
    let t = toks[i];
    assert(token_ok(t));
    match outcome(p, toks, i) {
        Outcome::Strip(verdict) => {
            if mark {
                lemma_outcome_label(p, toks, i);
                lemma_marker(verdict.label);
                lemma_textual_utf8(written(mark, outcome(p, toks, i)));
            }
        },
        _ => {
            reveal(ruling);
            lemma_clean_whole(p, t);
            if !harmless(t) {
                lemma_only_allowed_survives(p, t);
            }
            match t {
                TokenView::Csi { .. } => lemma_kept_csi_ascii(t),
                TokenView::Esc { .. } => lemma_kept_esc_ascii(t),
                TokenView::Str { .. } => lemma_kept_string_plain(t),
                _ => {},
            }
        },
    }
}

proof fn lemma_log_no_raw_c1(p: PolicyView, marks: Seq<bool>, toks: Seq<TokenView>, n: int)
    requires
        strips_c1(p),
        tokens_ok(toks),
        0 <= n <= toks.len(),
    ensures
        no_raw_c1(log_of(p, marks, toks, n).output),
    decreases n,
{
    if n > 0 {
        lemma_log_no_raw_c1(p, marks, toks, n - 1);
        lemma_written_no_raw_c1(p, marks[n - 1], toks, n - 1);
        lemma_no_raw_c1_concat(
            log_of(p, marks, toks, n - 1).output,
            written(marks[n - 1], outcome(p, toks, n - 1)),
        );
    }
}

/// Downstream consumers never see raw C1 bytes, unless the policy allows their
/// class: every byte of the output in the C1 range continues a well-formed UTF-8
/// character. This holds at every moment, not only at the end of input.
pub proof fn lemma_no_raw_c1_written(v: SanitizerView)
    requires
        strips_c1(v.policy),
        v.marks.len() <= v.toks().len(),
    ensures
        no_raw_c1(v.output()),
{
    lemma_toks_fit(v);
    lemma_log_no_raw_c1(v.policy, v.marks, v.toks(), v.marks.len() as int);
}

/// No preset allows raw C1 bytes, so none writes them.
pub proof fn lemma_presets_write_no_raw_c1(v: SanitizerView, preset: Preset)
    requires
        v.policy == preset_policy(preset),
        v.marks.len() <= v.toks().len(),
    ensures
        no_raw_c1(v.output()),
{
    lemma_no_raw_c1_written(v);
}

/// The kept form of a sequence has a 7-bit introducer, and that of a string
/// sequence ends with `BEL` or the 7-bit terminator.
pub proof fn lemma_kept_form_is_seven_bit(t: TokenView)
    requires
        token_ok(t),
    ensures
        t is Csi ==> csi_intro(false).is_prefix_of(normal_form(t)),
        t matches TokenView::Str { kind, payload, .. } ==> {
            let front = string_raw(kind, false, payload);
            &&& front.is_prefix_of(normal_form(t))
            &&& {
                ||| normal_form(t) == front + seq![BEL]
                ||| normal_form(t) == front + seq![ESC, BACKSLASH]
            }
        },
{
    let form = normal_form(t);
    match t {
        TokenView::Csi { params, intermediates, final_byte, raw } => {
            if raw[0] != ESC {
                assert(csi_raw(true, params, intermediates).push(final_byte)[0] == C1_CSI);
            }
            assert(form.subrange(0, 2) =~= csi_intro(false));
        },
        TokenView::Str { kind, payload, raw, .. } => {
            let front = string_raw(kind, false, payload);
            assert(form.subrange(0, front.len() as int) =~= front);
        },
        _ => {},
    }
}

// --- introducers ------------------------------------------------------------------

/// Is the parser outside any sequence after `before`, with no character begun
/// that `b` carries on? The bytes of a begun character that are read again
/// open no sequence either.
pub open spec fn stands_free(before: Seq<u8>, b: u8) -> bool {
    let phase = run(start(), before).phase;
    &&& phase is Ground
    &&& !carries_on(phase, b)
    &&& released(phase).phase is Ground
}

/// Bytes read where none carries a begun character on.
proof fn lemma_run_free(before: Seq<u8>, bytes: Seq<u8>)
    requires
        bytes.len() > 0,
        stands_free(before, bytes[0]),
    ensures
        ({
            let r = run(start(), before);
            let last = released(r.phase);
            &&& phase_ok(last.phase)
            &&& last.phase.settled()
            &&& run(start(), before + bytes) == preceded(
                r.tokens + last.tokens,
                run(last.phase, bytes),
            )
        }),
{
    let r = run(start(), before);
    let last = released(r.phase);
    lemma_start_ok();
    lemma_run_ok(start(), before);
    lemma_released_ok(r.phase);
    lemma_released(r.phase);
    lemma_run_concat(start(), before, bytes);
    lemma_run_released(r.phase, bytes);
    assert(r.tokens + (last.tokens + run(last.phase, bytes).tokens) =~= r.tokens + last.tokens
        + run(last.phase, bytes).tokens);
}

/// The 8-bit introducer of a control sequence is seen wherever it does not
/// carry on a UTF-8 character, and leads where the 7-bit one does.
pub proof fn lemma_csi_introducer_seen(before: Seq<u8>)
    requires
        stands_free(before, C1_CSI),
    ensures
        ({
            let short = run(start(), before + csi_intro(true));
            let long = run(start(), before + csi_intro(false));
            &&& short.tokens == long.tokens
            &&& short.phase == Phase::Csi { c1: true, params: seq![], intermediates: seq![] }
            &&& long.phase == Phase::Csi { c1: false, params: seq![], intermediates: seq![] }
        }),
{
    let last = released(run(start(), before).phase);
    let text = last.phase->text;
    lemma_run_free(before, csi_intro(true));
    lemma_run_free(before, csi_intro(false));
    assert(last.phase =~= Phase::Ground { text, part: seq![] });
    lemma_run_csi_intro(text, true);
    lemma_run_csi_intro(text, false);
}

/// The 8-bit introducer of a string sequence is seen wherever it does not carry
/// on a UTF-8 character, and leads where the 7-bit one does.
#[verifier::rlimit(50)]
pub proof fn lemma_string_introducer_seen(before: Seq<u8>, kind: StrKind)
    requires
        stands_free(before, string_intro(kind, true)[0]),
    ensures
        ({
            let short = run(start(), before + string_intro(kind, true));
            let long = run(start(), before + string_intro(kind, false));
            &&& short.tokens == long.tokens
            &&& short.phase == Phase::Str {
                kind,
                c1: true,
                payload: seq![],
                dropped: 0,
                esc: false,
            }
            &&& long.phase == Phase::Str {
                kind,
                c1: false,
                payload: seq![],
                dropped: 0,
                esc: false,
            }
        }),
{
    let last = released(run(start(), before).phase);
    let text = last.phase->text;
    lemma_run_free(before, string_intro(kind, true));
    lemma_run_free(before, string_intro(kind, false));
    assert(last.phase =~= Phase::Ground { text, part: seq![] });
    lemma_run_string_intro(text, kind, true);
    lemma_run_string_intro(text, kind, false);
}

/// Input that is read as one token to its end.
proof fn lemma_one_token(input: Seq<u8>, t: TokenView)
    requires
        run(start(), input) == (Run { phase: start(), tokens: text_token(seq![]).push(t) }),
    ensures
        tokens(input) == seq![t],
{
    assert(text_token(seq![]).push(t) =~= seq![t]);
    assert(flush(start()) =~= seq![]);
    assert(tokens(input) =~= seq![t]);
}

/// Only content and kept form of a control sequence matter to a policy.
proof fn lemma_csi_outcome(
    p: PolicyView,
    params: Seq<u8>,
    intermediates: Seq<u8>,
    final_byte: u8,
    a: Seq<u8>,
    b: Seq<u8>,
)
    requires
        ({
            let x = TokenView::Csi { params, intermediates, final_byte, raw: a };
            let y = TokenView::Csi { params, intermediates, final_byte, raw: b };
            normal_form(x) == normal_form(y)
        }),
    ensures
        ({
            let x = TokenView::Csi { params, intermediates, final_byte, raw: a };
            let y = TokenView::Csi { params, intermediates, final_byte, raw: b };
            verdict_on(x) == verdict_on(y) && own_outcome(p, x) == own_outcome(p, y)
        }),
{
    reveal(ruling);
    let x = TokenView::Csi { params, intermediates, final_byte, raw: a };
    let y = TokenView::Csi { params, intermediates, final_byte, raw: b };
    assert(verdict_on(x) == verdict_on(y));
    lemma_hyperlink_class(x);
}

/// A control sequence is one sequence whichever introducer opens it. Both forms
/// get one verdict, and every policy rules on both alike.
#[verifier::rlimit(40)]
pub proof fn lemma_csi_introducers_agree(
    p: PolicyView,
    params: Seq<u8>,
    intermediates: Seq<u8>,
    final_byte: u8,
)
    requires
        all_params(params),
        all_intermediates(intermediates),
        0x40 <= final_byte <= 0x7E,
        csi_raw(false, params, intermediates).len() < CSI_MAX,
    ensures
        ({
            let short = csi_raw(true, params, intermediates).push(final_byte);
            let long = csi_raw(false, params, intermediates).push(final_byte);
            &&& tokens(short) == seq![
                TokenView::Csi { params, intermediates, final_byte, raw: short },
            ]
            &&& tokens(long) == seq![
                TokenView::Csi { params, intermediates, final_byte, raw: long },
            ]
            &&& verdict_on(tokens(short)[0]) == verdict_on(tokens(long)[0])
            &&& own_outcome(p, tokens(short)[0]) == own_outcome(p, tokens(long)[0])
        }),
{
    let short = csi_raw(true, params, intermediates).push(final_byte);
    let long = csi_raw(false, params, intermediates).push(final_byte);
    let a = TokenView::Csi { params, intermediates, final_byte, raw: short };
    let b = TokenView::Csi { params, intermediates, final_byte, raw: long };
    lemma_run_csi(seq![], true, params, intermediates, final_byte);
    lemma_run_csi(seq![], false, params, intermediates, final_byte);
    lemma_one_token(short, a);
    lemma_one_token(long, b);
    assert(short[0] == C1_CSI);
    assert(long[0] == ESC);
    assert(seq![ESC, BRACKET] + short.skip(1) =~= long);
    lemma_csi_outcome(p, params, intermediates, final_byte, short, long);
}

/// Only content and kept form of a string sequence matter to a policy.
proof fn lemma_string_outcome(p: PolicyView, a: TokenView, b: TokenView)
    requires
        a is Str,
        b is Str,
        a->Str_kind == b->Str_kind,
        a->Str_payload == b->Str_payload,
        a->Str_overlong == b->Str_overlong,
        normal_form(a) == normal_form(b),
    ensures
        verdict_on(a) == verdict_on(b),
        own_outcome(p, a) == own_outcome(p, b),
{
    reveal(ruling);
}

/// A string sequence is one sequence whichever introducer opens it and however
/// long it is. Both forms get one verdict, and every policy rules on both alike.
pub proof fn lemma_string_introducers_agree(
    p: PolicyView,
    kind: StrKind,
    body: Seq<u8>,
    end: Seq<u8>,
)
    requires
        all_payload(body),
        string_terminator(kind, end),
    ensures
        ({
            let short = string_raw(kind, true, body) + end;
            let long = string_raw(kind, false, body) + end;
            &&& tokens(short) == seq![read_string(kind, true, body, end)]
            &&& tokens(long) == seq![read_string(kind, false, body, end)]
            &&& verdict_on(tokens(short)[0]) == verdict_on(tokens(long)[0])
            &&& own_outcome(p, tokens(short)[0]) == own_outcome(p, tokens(long)[0])
        }),
{
    let short = string_raw(kind, true, body) + end;
    let long = string_raw(kind, false, body) + end;
    let a = read_string(kind, true, body, end);
    let b = read_string(kind, false, body, end);
    lemma_run_str(seq![], kind, true, body, end);
    lemma_run_str(seq![], kind, false, body, end);
    lemma_one_token(short, a);
    lemma_one_token(long, b);
    lemma_read_string_form(kind, body, end);
    lemma_string_outcome(p, a, b);
}

/// The kept form of a string sequence does not depend on its introducer.
proof fn lemma_read_string_form(kind: StrKind, body: Seq<u8>, end: Seq<u8>)
    requires
        all_payload(body),
        string_terminator(kind, end),
    ensures
        normal_form(read_string(kind, true, body, end)) == normal_form(
            read_string(kind, false, body, end),
        ),
{
    let payload = body.take(retained(body.len()) as int);
    if body.len() <= STR_MAX {
        assert(payload =~= body);
        lemma_bel_preserved(kind, true, body, end);
        lemma_bel_preserved(kind, false, body, end);
    } else {
        let last = payload[payload.len() - 1];
        assert(payload_byte(body[payload.len() - 1]));
        assert(string_raw(kind, true, payload).last() == last);
        assert(string_raw(kind, false, payload).last() == last);
    }
}

/// A `BEL` that ends an operating system command is preserved; every other
/// terminator becomes `ESC \`.
pub proof fn lemma_bel_preserved(kind: StrKind, c1: bool, payload: Seq<u8>, end: Seq<u8>)
    requires
        all_payload(payload),
        string_terminator(kind, end),
    ensures
        normal_form(string_token(kind, c1, payload, 0, end)) == string_raw(kind, false, payload)
            + if end == seq![BEL] {
            seq![BEL]
        } else {
            seq![ESC, BACKSLASH]
        },
{
    let raw = string_raw(kind, c1, payload);
    assert((raw + end).last() == end.last());
    assert(seq![BEL].len() == 1 && seq![BEL][0] == BEL);
    assert(seq![ESC, BACKSLASH].len() == 2 && seq![ESC, BACKSLASH][1] == BACKSLASH);
    assert(end.len() == 1 && end[0] == BEL ==> end =~= seq![BEL]);
}

} // verus!
