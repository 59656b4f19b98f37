//! What passes and what cannot: UTF-8 text is untouched, and nothing outside the
//! allowlist survives.

use vstd::prelude::*;
use vstd::utf8::{length_of_first_scalar, pop_first_scalar, valid_utf8};

use crate::bytes::{continuation_byte, control_byte, CR, LF, SEMICOLON, TAB};
use crate::classify::Class;
use crate::classify_laws::{harmless, lemma_find, lemma_hyperlink_class, lemma_malformed_class};
use crate::classify_model::{digits_value, link_uri, number, verdict_on};
use crate::parser::StrKind;
use crate::parser_laws::{lemma_run_byte, lemma_run_concat, lemma_tokens_ok, token_ok, tokens_ok};
use crate::parser_model::{run, start, text_token, tokens, Phase, Run, TokenView};
use crate::policy::Preset;
use crate::policy_model::{link_allowed, preset_policy, PolicyView};
use crate::rescan_laws::{
    clean, complete, lemma_normal_forms_push, lemma_normal_forms_text, lemma_output_rescans_clean,
    lemma_run_control, lemma_settled_step, normal_forms, policy_ok,
};
use crate::sanitize_laws::{lemma_marker, lemma_outcome_label};
use crate::sanitize_model::{
    log_of, lone_cr, normal_form, outcome, own_outcome, ruling, whitespace, written, FindingView,
    Outcome, SanitizerView,
};
use crate::utf8_laws::{lemma_first_scalar, lemma_textual_concat};
use crate::utf8_model::{textual, whole_char};

verus! {

// --- text ---------------------------------------------------------------------

/// May the control byte at `i` pass? Line feed and tab always do; carriage
/// return does where lone ones are allowed or a line feed follows.
pub open spec fn control_passes(p: PolicyView, input: Seq<u8>, i: int) -> bool {
    ||| input[i] == LF
    ||| input[i] == TAB
    ||| input[i] == CR && (p.allow_lone_cr || (i + 1 < input.len() && input[i + 1] == LF))
}

/// Is `input` UTF-8 text with no control bytes but whitespace that may pass?
pub open spec fn plain_text(p: PolicyView, input: Seq<u8>) -> bool {
    &&& valid_utf8(input)
    &&& forall|i: int|
        0 <= i < input.len() && control_byte(#[trigger] input[i]) ==> control_passes(p, input, i)
}

proof fn lemma_normal_forms_concat(a: Seq<TokenView>, b: Seq<TokenView>)
    ensures
        normal_forms(a + b) == normal_forms(a) + normal_forms(b),
    decreases b.len(),
{
    if b.len() == 0 {
        assert(a + b =~= a);
        assert(normal_forms(a) + Seq::<u8>::empty() =~= normal_forms(a));
    } else {
        lemma_normal_forms_concat(a, b.drop_last());
        assert((a + b).drop_last() =~= a + b.drop_last());
        assert(normal_forms(a) + normal_forms(b.drop_last()) + normal_form(b.last())
            =~= normal_forms(a) + (normal_forms(b.drop_last()) + normal_form(b.last())));
    }
}

/// Are the tokens text and whitespace that passes?
spec fn passing(p: PolicyView, toks: Seq<TokenView>) -> bool {
    forall|i: int|
        0 <= i < toks.len() ==> harmless(#[trigger] toks[i]) && (p.allow_lone_cr || !lone_cr(
            toks,
            i,
        ))
}

/// The first bytes of a character are held.
proof fn lemma_run_char_front(text: Seq<u8>, s: Seq<u8>, n: int)
    requires
        whole_char(s),
        1 <= n < s.len(),
    ensures
        run(Phase::Ground { text, part: seq![] }, s.take(n)) == (Run {
            phase: Phase::Ground { text, part: s.take(n) },
            tokens: seq![],
        }),
    decreases n,
{
    let ground = Phase::Ground { text, part: seq![] };
    if n == 1 {
        assert(s.take(1) =~= seq![s[0]]);
        lemma_run_byte(ground, s[0]);
        lemma_settled_step(ground, s[0]);
    } else {
        lemma_run_char_front(text, s, n - 1);
        assert(s.take(n).drop_last() =~= s.take(n - 1));
        assert(s.take(n) =~= s.take(n - 1).push(s[n - 1]));
        if n - 1 >= 2 {
            assert(continuation_byte(s[n - 1]));
        }
        assert(run(ground, s.take(n)).tokens =~= seq![]);
    }
}

/// A whole character joins the text.
proof fn lemma_run_char(text: Seq<u8>, s: Seq<u8>)
    requires
        whole_char(s),
    ensures
        run(Phase::Ground { text, part: seq![] }, s) == (Run {
            phase: Phase::Ground { text: text + s, part: seq![] },
            tokens: seq![],
        }),
{
    let n = s.len() as int;
    lemma_run_char_front(text, s, n - 1);
    assert(s.drop_last() =~= s.take(n - 1));
    assert(s =~= s.take(n - 1).push(s[n - 1]));
    if n - 1 >= 2 {
        assert(continuation_byte(s[n - 1]));
    }
    assert(run(Phase::Ground { text, part: seq![] }, s).tokens =~= seq![]);
}

/// Text and a control byte that passes, before what passes.
proof fn lemma_after_control(
    p: PolicyView,
    text: Seq<u8>,
    b: u8,
    later: Seq<TokenView>,
    last: Seq<u8>,
    rest: Seq<u8>,
)
    requires
        harmless(TokenView::Control(b)),
        passing(p, later),
        normal_forms(later) + last == rest,
        b == CR && !p.allow_lone_cr ==> later.len() > 0 && later[0] == TokenView::Control(LF),
    ensures
        ({
            let all = text_token(text).push(TokenView::Control(b)) + later;
            &&& passing(p, all)
            &&& normal_forms(all) + last == text + (seq![b] + rest)
        }),
{
    let t = TokenView::Control(b);
    let before = text_token(text).push(t);
    let all = before + later;
    lemma_normal_forms_concat(before, later);
    lemma_normal_forms_push(text_token(text), t);
    lemma_normal_forms_text(seq![], text);
    assert(Seq::<TokenView>::empty() + text_token(text) =~= text_token(text));
    assert(normal_forms(before) =~= text + seq![b]);
    assert(normal_forms(all) + last =~= normal_forms(before) + (normal_forms(later) + last));
    assert forall|i: int| 0 <= i < all.len() implies harmless(#[trigger] all[i]) && (
    p.allow_lone_cr || !lone_cr(all, i)) by {
        if i < before.len() {
            assert(all[i] == before[i]);
            if i == before.len() - 1 && b == CR && !p.allow_lone_cr {
                assert(all[i + 1] == later[0]);
            }
        } else {
            let j = i - before.len();
            assert(all[i] == later[j]);
            if j + 1 < later.len() {
                assert(all[i + 1] == later[j + 1]);
            }
        }
    }
}

/// Reading plain text, after complete text.
proof fn lemma_run_plain_text(p: PolicyView, text: Seq<u8>, bytes: Seq<u8>)
    requires
        plain_text(p, bytes),
    ensures
        ({
            let r = run(Phase::Ground { text, part: seq![] }, bytes);
            &&& r.phase == Phase::Ground { text: r.phase->text, part: seq![] }
            &&& normal_forms(r.tokens) + r.phase->text == text + bytes
            &&& passing(p, r.tokens)
            &&& text.len() == 0 && bytes.len() > 0 && bytes[0] == LF ==> r.tokens.len() > 0
                && r.tokens[0] == TokenView::Control(LF)
        }),
    decreases bytes.len(),
{
    let ground = Phase::Ground { text, part: seq![] };
    let r = run(ground, bytes);
    if bytes.len() == 0 {
        assert(normal_forms(seq![]) + text =~= text + bytes);
    } else {
        let n = length_of_first_scalar(bytes);
        let first = bytes.take(n);
        let rest = pop_first_scalar(bytes);
        lemma_first_scalar(bytes);
        assert(bytes =~= first + rest);
        assert forall|i: int| 0 <= i < rest.len() && control_byte(#[trigger] rest[i]) implies
            control_passes(p, rest, i) by {
            assert(rest[i] == bytes[i + n]);
            assert(control_passes(p, bytes, i + n));
            if i + 1 < rest.len() {
                assert(rest[i + 1] == bytes[i + 1 + n]);
            }
        }
        lemma_run_concat(ground, first, rest);
        if control_byte(bytes[0]) {
            let b = bytes[0];
            let t = TokenView::Control(b);
            assert(control_passes(p, bytes, 0));
            assert(first =~= seq![b]);
            lemma_run_control(text, b);
            lemma_run_plain_text(p, seq![], rest);
            let later = run(start(), rest);
            assert(r.tokens == text_token(text).push(t) + later.tokens);
            if b == CR && !p.allow_lone_cr {
                assert(rest[0] == bytes[1]);
            }
            assert(Seq::<u8>::empty() + rest =~= rest);
            lemma_after_control(p, text, b, later.tokens, later.phase->text, rest);
            assert(text + (seq![b] + rest) =~= text + bytes);
        } else {
            if n == 1 {
                assert(first =~= seq![bytes[0]]);
                lemma_run_byte(ground, bytes[0]);
                lemma_settled_step(ground, bytes[0]);
                assert(text + first =~= text.push(bytes[0]));
            } else {
                lemma_run_char(text, first);
            }
            lemma_run_plain_text(p, text + first, rest);
            assert(r.tokens =~= run(Phase::Ground { text: text + first, part: seq![] }, rest).tokens);
            assert(text + first + rest =~= text + bytes);
        }
    }
}

/// Where every token passes, nothing is kept, removed or found, and the tokens
/// are written as they are.
proof fn lemma_log_passing(p: PolicyView, marks: Seq<bool>, toks: Seq<TokenView>, n: int)
    requires
        passing(p, toks),
        0 <= n <= toks.len(),
    ensures
        log_of(p, marks, toks, n).findings == Seq::<FindingView>::empty(),
        log_of(p, marks, toks, n).stripped == 0,
        log_of(p, marks, toks, n).kept == 0,
        log_of(p, marks, toks, n).output == normal_forms(toks.take(n)),
    decreases n,
{
    if n == 0 {
        assert(toks.take(0) =~= seq![]);
    } else {
        lemma_log_passing(p, marks, toks, n - 1);
        assert(harmless(toks[n - 1]));
        assert(toks.take(n) =~= toks.take(n - 1).push(toks[n - 1]));
        lemma_normal_forms_push(toks.take(n - 1), toks[n - 1]);
    }
}

/// UTF-8 text passes byte-identical under every policy, with nothing kept,
/// removed or found: no byte of a multi-byte character is taken for an 8-bit
/// control.
pub proof fn lemma_plain_text_passes(v: SanitizerView)
    requires
        complete(v),
        plain_text(v.policy, v.input),
    ensures
        v.output() == v.input,
        v.log().findings == Seq::<FindingView>::empty(),
        v.log().stripped == 0,
        v.log().kept == 0,
{
    let r = run(start(), v.input);
    let toks = v.toks();
    lemma_run_plain_text(v.policy, seq![], v.input);
    let x = r.phase->text;
    assert(toks =~= r.tokens + text_token(x));
    assert forall|i: int| 0 <= i < toks.len() implies harmless(#[trigger] toks[i]) && (
    v.policy.allow_lone_cr || !lone_cr(toks, i)) by {
        if i < r.tokens.len() {
            assert(toks[i] == r.tokens[i]);
            if i + 1 < r.tokens.len() {
                assert(toks[i + 1] == r.tokens[i + 1]);
            }
        }
    }
    lemma_log_passing(v.policy, v.marks, toks, toks.len() as int);
    assert(toks.take(toks.len() as int) =~= toks);
    lemma_normal_forms_text(r.tokens, x);
    assert(Seq::<u8>::empty() + v.input =~= v.input);
}

/// Text, line feed and tab pass under every policy, and so does a carriage
/// return where lone ones are allowed or a line feed follows it.
pub proof fn lemma_text_and_whitespace_pass(p: PolicyView, toks: Seq<TokenView>, i: int)
    requires
        0 <= i < toks.len(),
        harmless(toks[i]),
        p.allow_lone_cr || !lone_cr(toks, i),
    ensures
        outcome(p, toks, i) == Outcome::Pass(toks[i].raw()),
{
}

// --- the allowlist --------------------------------------------------------------

/// Fail closed: apart from text and whitespace, a token survives only if the
/// policy allows its class. What is malformed or overlong never survives. A
/// string sequence with raw C1 bytes survives only where those may, and a
/// hyperlink only without them, with a URI that passes or to close a link.
pub proof fn lemma_only_allowed_survives(p: PolicyView, t: TokenView)
    requires
        policy_ok(p),
        clean(p, t),
        !harmless(t),
    ensures
        p.allowed.contains(verdict_on(t).class),
        !(t is Malformed),
        t matches TokenView::Str { overlong, .. } ==> !overlong,
        t matches TokenView::Str { payload, .. } ==> textual(payload) || p.allowed.contains(
            Class::C1,
        ),
        verdict_on(t).class == Class::Hyperlink ==> (link_uri(t->payload) matches Some(uri) && (
        uri.len() == 0 || link_allowed(p.link_schemes, uri)) && textual(t->payload)),
{
    reveal(ruling);
    lemma_malformed_class(t);
    lemma_hyperlink_class(t);
}

/// What the presets let through besides text and whitespace: styling, and for
/// the default one hyperlinks too.
pub proof fn lemma_presets_keep(preset: Preset, t: TokenView)
    requires
        clean(preset_policy(preset), t),
        !harmless(t),
    ensures
        match preset {
            Preset::Default => verdict_on(t).class == Class::Sgr || verdict_on(t).class
                == Class::Hyperlink,
            Preset::Strict => verdict_on(t).class == Class::Sgr,
            Preset::Plain => false,
        },
{
    lemma_only_allowed_survives(preset_policy(preset), t);
}

/// The plain preset leaves plain text: every token of its output is text or
/// whitespace.
pub proof fn lemma_plain_leaves_text(v: SanitizerView)
    requires
        complete(v),
        v.policy == preset_policy(Preset::Plain),
    ensures
        forall|i: int|
            0 <= i < tokens(v.output()).len() ==> harmless(#[trigger] tokens(v.output())[i]),
{
    lemma_output_rescans_clean(v, false);
    let all = tokens(v.output());
    assert forall|i: int| 0 <= i < all.len() implies harmless(#[trigger] all[i]) by {
        assert(clean(v.policy, all[i]));
        if !harmless(all[i]) {
            lemma_presets_keep(Preset::Plain, all[i]);
        }
    }
}

/// The text and whitespace of the tokens, one after the other.
pub open spec fn harmless_bytes(toks: Seq<TokenView>) -> Seq<u8>
    decreases toks.len(),
{
    if toks.len() == 0 {
        seq![]
    } else {
        harmless_bytes(toks.drop_last()) + if harmless(toks.last()) {
            toks.last().raw()
        } else {
            seq![]
        }
    }
}

proof fn lemma_log_plain(marks: Seq<bool>, toks: Seq<TokenView>, n: int)
    requires
        tokens_ok(toks),
        0 <= n <= toks.len(),
    ensures
        ({
            let log = log_of(preset_policy(Preset::Plain), marks, toks, n);
            &&& log.kept == 0
            &&& (forall|i: int| 0 <= i < n ==> !marks[i]) ==> log.output == harmless_bytes(
                toks.take(n),
            )
            &&& forall|i: int|
                0 <= i < log.output.len() && control_byte(#[trigger] log.output[i]) ==> whitespace(
                    log.output[i],
                )
        }),
    decreases n,
{
    let p = preset_policy(Preset::Plain);
    if n == 0 {
        assert(toks.take(0) =~= seq![]);
    } else {
        let i = n - 1;
        let t = toks[i];
        let before = log_of(p, marks, toks, i).output;
        let piece = written(marks[i], outcome(p, toks, i));
        lemma_log_plain(marks, toks, i);
        assert(token_ok(t));
        assert(toks.take(n).drop_last() =~= toks.take(i));
        match outcome(p, toks, i) {
            Outcome::Strip(verdict) => {
                if marks[i] {
                    lemma_outcome_label(p, toks, i);
                    lemma_marker(verdict.label);
                }
                assert(!harmless(t));
            },
            _ => {
                if !harmless(t) {
                    lemma_presets_keep(Preset::Plain, t);
                }
            },
        }
        let output = before + piece;
        assert forall|k: int| 0 <= k < output.len() && control_byte(
            #[trigger] output[k],
        ) implies whitespace(output[k]) by {
            if k < before.len() {
                assert(output[k] == before[k]);
            } else {
                assert(output[k] == piece[k - before.len()]);
            }
        }
    }
}

/// The plain preset writes the text and whitespace of the input, in order, and
/// keeps no sequence. No control byte but line feed, tab and carriage return is
/// left, markers or not.
pub proof fn lemma_plain_writes_text(v: SanitizerView)
    requires
        complete(v),
        v.policy == preset_policy(Preset::Plain),
    ensures
        v.log().kept == 0,
        (forall|i: int| 0 <= i < v.marks.len() ==> !v.marks[i]) ==> v.output() == harmless_bytes(
            v.toks(),
        ),
        forall|i: int|
            0 <= i < v.output().len() && control_byte(#[trigger] v.output()[i]) ==> whitespace(
                v.output()[i],
            ),
{
    let n = v.toks().len() as int;
    lemma_tokens_ok(v.input);
    lemma_log_plain(v.marks, v.toks(), n);
    assert(v.toks().take(n) =~= v.toks());
}

/// The form that closes a hyperlink, with an empty URI, is kept wherever
/// hyperlinks are, if its parameters are text.
pub proof fn lemma_link_close_kept(p: PolicyView, params: Seq<u8>, raw: Seq<u8>, len: nat)
    requires
        p.allowed.contains(Class::Hyperlink),
        textual(params),
        forall|i: int| 0 <= i < params.len() ==> params[i] != SEMICOLON,
    ensures
        ({
            let t = TokenView::Str {
                kind: StrKind::Osc,
                payload: seq![0x38u8, SEMICOLON] + params + seq![SEMICOLON],
                raw,
                len,
                overlong: false,
            };
            own_outcome(p, t) == Outcome::Keep(normal_form(t))
        }),
{
    reveal(ruling);
    let payload = seq![0x38u8, SEMICOLON] + params + seq![SEMICOLON];
    let rest = payload.skip(2);
    assert(textual(payload)) by {
        let front = seq![0x38u8, SEMICOLON];
        let close = seq![SEMICOLON];
        assert(textual(front));
        assert(textual(close));
        lemma_textual_concat(front, params);
        lemma_textual_concat(front + params, close);
    }
    lemma_find(payload, SEMICOLON, 1);
    let head = payload.take(1);
    assert(head =~= seq![0x38u8]);
    assert(head.drop_last() =~= seq![]);
    assert(digits_value(head.drop_last()) == 0);
    assert(digits_value(head) == 8);
    assert(number(head) == Some(8u32));
    assert(payload.subrange(0, 2) =~= seq![0x38u8, SEMICOLON]);
    assert(rest =~= params + seq![SEMICOLON]);
    lemma_find(rest, SEMICOLON, params.len() as int);
    assert(rest.skip(params.len() as int + 1) =~= seq![]);
}

} // verus!
