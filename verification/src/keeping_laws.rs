//! The allowlist in both directions: what is allowed is kept and written, what is
//! not is stripped and found, and every token is counted once.

use vstd::prelude::*;

use crate::bytes::{C1_CSI, ESC};
use crate::classify::{Class, Severity};
use crate::classify_model::{verdict_on, VerdictView};
use crate::finding_laws::{lemma_findings_grow, lemma_offset_unique};
use crate::link_laws::lemma_presets_exactly;
use crate::parser::StrKind;
use crate::parser_laws::{lemma_tokens_ok, offset_of, token_ok, total_len};
use crate::parser_model::{csi_raw, run, start, tokens, TokenView};
use crate::policy::Preset;
use crate::policy_model::{link_allowed, preset_policy, PolicyView};
use crate::rescan_laws::{
    all_clean, clean, complete, lemma_clean_spelled, lemma_log_clean, policy_ok,
};
use crate::sanitize::Action;
use crate::sanitize_laws::lemma_log_grows;
use crate::sanitize_model::{
    line_of, log_of, marker, normal_form, outcome, own_outcome, ruling, severity_count, shown,
    stored, worst, written, FindingView, Outcome, SanitizerView,
};
use crate::spelling_laws::{lemma_tokens_spell_input, spells};
use crate::utf8_model::textual;
use crate::verdict_laws::{
    bare_csi, digits_make, lemma_link_exactly, lemma_link_parts, lemma_no_link,
    lemma_styling_exactly, osc, read_on, selects, styling_params,
};

verus! {

// --- rulings --------------------------------------------------------------------

/// Is this text, a line feed, a tab or a carriage return?
pub open spec fn plain_token(t: TokenView) -> bool {
    ||| t is Text
    ||| t == TokenView::Control(0x09)
    ||| t == TokenView::Control(0x0A)
    ||| t == TokenView::Control(0x0D)
}

/// What the policy allows is kept, in its kept form: every sequence and control
/// byte of an allowed class, but for hyperlinks, which have their own rule, and
/// for strings with raw C1 bytes where those are not allowed.
pub proof fn lemma_allowed_is_kept(p: PolicyView, t: TokenView)
    requires
        !plain_token(t),
        p.allowed.contains(verdict_on(t).class),
        verdict_on(t).class != Class::Hyperlink,
        t matches TokenView::Str { payload, .. } ==> textual(payload) || p.allowed.contains(
            Class::C1,
        ),
    ensures
        own_outcome(p, t) == Outcome::Keep(normal_form(t)),
{
    reveal(ruling);
}

/// What the policy does not allow is stripped, under its own verdict.
pub proof fn lemma_others_are_stripped(p: PolicyView, t: TokenView)
    requires
        !plain_token(t),
        !p.allowed.contains(verdict_on(t).class),
    ensures
        own_outcome(p, t) == Outcome::Strip(verdict_on(t)),
{
    reveal(ruling);
}

/// An allowed string with raw C1 bytes is stripped as such bytes are, where they
/// are not allowed.
pub proof fn lemma_hidden_c1_is_stripped(p: PolicyView, t: TokenView)
    requires
        p.allowed.contains(verdict_on(t).class),
        verdict_on(t).class != Class::Hyperlink,
        !p.allowed.contains(Class::C1),
        t matches TokenView::Str { payload, .. } && !textual(payload),
    ensures
        own_outcome(p, t) matches Outcome::Strip(v) && v.class == Class::C1 && v.severity
            == Severity::High && v.label == "c1-control"@,
{
    reveal(ruling);
}

/// Text and whitespace pass as they are, and a carriage return that no line feed
/// follows does only where such are allowed.
pub proof fn lemma_plain_tokens_pass(p: PolicyView, toks: Seq<TokenView>, i: int)
    requires
        0 <= i < toks.len(),
        plain_token(toks[i]),
    ensures
        ({
            let alone = toks[i] == TokenView::Control(0x0D) && !(i + 1 < toks.len() && toks[i + 1]
                == TokenView::Control(0x0A));
            if alone && !p.allow_lone_cr {
                outcome(p, toks, i) matches Outcome::Strip(v) && v.class == Class::Control
                    && v.severity == Severity::Medium && v.label == "lone-cr"@
            } else {
                outcome(p, toks, i) == Outcome::Pass(toks[i].raw())
            }
        }),
{
}

/// Other tokens do not depend on what stands around them.
pub proof fn lemma_own_outcome_counts(p: PolicyView, toks: Seq<TokenView>, i: int)
    requires
        0 <= i < toks.len(),
        !plain_token(toks[i]),
    ensures
        outcome(p, toks, i) == own_outcome(p, toks[i]),
{
}

/// The rule for hyperlinks: where they are allowed, one with two semicolons and
/// no raw C1 byte is kept if its URI is empty or may survive, and stripped as
/// unsafe otherwise.
pub proof fn lemma_link_rule(
    p: PolicyView,
    params: Seq<u8>,
    uri: Seq<u8>,
    raw: Seq<u8>,
    len: nat,
)
    requires
        p.allowed.contains(Class::Hyperlink),
        forall|i: int| 0 <= i < params.len() ==> params[i] != 0x3B,
    ensures
        ({
            let payload = seq![0x38u8, 0x3B] + params + seq![0x3Bu8] + uri;
            let t = TokenView::Str { kind: StrKind::Osc, payload, raw, len, overlong: false };
            if textual(payload) && (uri.len() == 0 || link_allowed(p.link_schemes, uri)) {
                own_outcome(p, t) == Outcome::Keep(normal_form(t))
            } else {
                own_outcome(p, t) matches Outcome::Strip(v) && v.class == Class::Hyperlink
                    && v.severity == Severity::Medium && v.label == "unsafe-link"@
            }
        }),
{
    reveal(ruling);
    let payload = seq![0x38u8, 0x3B] + params + seq![0x3Bu8] + uri;
    let t = TokenView::Str { kind: StrKind::Osc, payload, raw, len, overlong: false };
    lemma_link_parts(payload, params, uri);
    reveal_with_fuel(read_on, 2);
    assert(payload.take(1).skip(1) =~= seq![]);
    assert(digits_make(payload, 1, 8));
    assert(selects(payload, 8));
    lemma_link_exactly(t);
}

/// A hyperlink without the second semicolon, or with a selector spelled in any
/// other way, is stripped as malformed.
pub proof fn lemma_bad_link_rule(p: PolicyView, t: TokenView)
    requires
        p.allowed.contains(Class::Hyperlink),
        osc(t, 8),
        !(t->payload.len() >= 2 && t->payload[0] == 0x38 && t->payload[1] == 0x3B) || (forall|m: int|
            2 <= m < t->payload.len() ==> #[trigger] t->payload[m] != 0x3B),
    ensures
        own_outcome(p, t) matches Outcome::Strip(v) && v.class == Class::Hyperlink && v.severity
            == Severity::Medium && v.label == "malformed-hyperlink"@,
{
    reveal(ruling);
    lemma_link_exactly(t);
    lemma_no_link(t->payload);
}

// --- kept forms -----------------------------------------------------------------

/// The letter after `ESC` that opens a string sequence: `]`, `P`, `_`, `^` or
/// `X`.
pub open spec fn opening_letter(kind: StrKind) -> u8 {
    match kind {
        StrKind::Osc => 0x5D,
        StrKind::Dcs => 0x50,
        StrKind::Apc => 0x5F,
        StrKind::Pm => 0x5E,
        StrKind::Sos => 0x58,
    }
}

/// Kept forms in bytes: a control sequence is `ESC [`, parameters, intermediates
/// and final byte; a string is `ESC`, its letter, the payload, and `ESC \` or, for
/// an operating system command that ended with one, `BEL`; all else is as it was
/// read.
pub proof fn lemma_kept_forms(t: TokenView)
    requires
        token_ok(t),
    ensures
        match t {
            TokenView::Csi { params, intermediates, final_byte, .. } => normal_form(t) == seq![
                0x1Bu8,
                0x5B,
            ] + params + intermediates + seq![final_byte],
            TokenView::Esc { intermediates, final_byte, .. } => normal_form(t) == seq![0x1Bu8]
                + intermediates + seq![final_byte],
            TokenView::Str { kind, payload, raw, .. } => normal_form(t) == seq![
                0x1Bu8,
                opening_letter(kind),
            ] + payload + if kind == StrKind::Osc && raw.len() > 0 && raw[raw.len() - 1] == 0x07 {
                seq![0x07u8]
            } else {
                seq![0x1Bu8, 0x5C]
            },
            TokenView::Control(b) => normal_form(t) == seq![b],
            TokenView::C1(b) => normal_form(t) == seq![b],
            TokenView::Text(text) => normal_form(t) == text,
            TokenView::Malformed { raw, .. } => normal_form(t) == raw,
        },
{
    match t {
        TokenView::Csi { params, intermediates, final_byte, raw } => {
            let whole = seq![0x1Bu8, 0x5B] + params + intermediates + seq![final_byte];
            let seven = csi_raw(false, params, intermediates).push(final_byte);
            assert(seven =~= whole);
            if raw[0] != ESC {
                let eight = csi_raw(true, params, intermediates).push(final_byte);
                assert(raw == eight);
                assert(eight[0] == C1_CSI);
                assert(normal_form(t) =~= whole);
            }
        },
        TokenView::Esc { intermediates, final_byte, raw } => {
            assert(raw =~= seq![0x1Bu8] + intermediates + seq![final_byte]);
        },
        _ => {},
    }
}

// --- writing --------------------------------------------------------------------

/// Where what is written for the `i`-th token stands in the output: right after
/// what is written for the tokens before it.
pub proof fn lemma_piece_is_written(v: SanitizerView, i: int) -> (from: int)
    requires
        v.marks.len() <= v.toks().len(),
        0 <= i < v.marks.len(),
    ensures
        ({
            let piece = match outcome(v.policy, v.toks(), i) {
                Outcome::Pass(bytes) => bytes,
                Outcome::Keep(bytes) => bytes,
                Outcome::Strip(verdict) => written(v.marks[i], Outcome::Strip(verdict)),
            };
            &&& from == log_of(v.policy, v.marks, v.toks(), i).output.len()
            &&& log_of(v.policy, v.marks, v.toks(), i + 1).output.len() == from + piece.len()
            &&& from + piece.len() <= v.output().len()
            &&& v.output().subrange(from, from + piece.len() as int) == piece
        }),
{
    let before = log_of(v.policy, v.marks, v.toks(), i).output;
    let after = log_of(v.policy, v.marks, v.toks(), i + 1).output;
    let piece = written(v.marks[i], outcome(v.policy, v.toks(), i));
    lemma_log_grows(v.policy, v.marks, v.toks(), i + 1, v.marks.len() as int);
    assert(after =~= before + piece);
    let from = before.len() as int;
    assert(v.output().subrange(0, after.len() as int) =~= after);
    assert forall|j: int| 0 <= j < piece.len() implies v.output()[from + j] == piece[j] by {
        assert(v.output().subrange(0, after.len() as int)[from + j] == after[from + j]);
    }
    assert(v.output().subrange(from, from + piece.len()) =~= piece);
    from
}

/// Nothing stands before the first piece or after the last.
pub proof fn lemma_pieces_cover_output(v: SanitizerView)
    ensures
        log_of(v.policy, v.marks, v.toks(), 0).output.len() == 0,
        log_of(v.policy, v.marks, v.toks(), v.marks.len() as int).output == v.output(),
{
}

/// For what is stripped nothing is written, or, where marking is on, the label
/// between `⟨stripped:` and `⟩`.
pub proof fn lemma_marker_exactly(verdict: VerdictView)
    ensures
        written(false, Outcome::Strip(verdict)) == Seq::<u8>::empty(),
        written(true, Outcome::Strip(verdict)) == vstd::utf8::encode_utf8(
            seq!['\u{27E8}', 's', 't', 'r', 'i', 'p', 'p', 'e', 'd', ':'] + verdict.label + seq![
                '\u{27E9}',
            ],
        ),
{
    reveal_strlit("\u{27E8}stripped:");
    reveal_strlit("\u{27E9}");
    assert(marker(verdict.label) =~= seq![
        '\u{27E8}',
        's',
        't',
        'r',
        'i',
        'p',
        'p',
        'e',
        'd',
        ':',
    ] + verdict.label + seq!['\u{27E9}']);
}

/// Styling is written wherever it is allowed: every control sequence that ends
/// with `m`, without intermediates and with digits, colons and semicolons for
/// parameters, or none, stands in the output.
pub proof fn lemma_styling_is_written(v: SanitizerView, i: int) -> (from: int)
    requires
        complete(v),
        v.policy.allowed.contains(Class::Sgr),
        0 <= i < v.toks().len(),
        bare_csi(v.toks()[i], 0x6D),
        styling_params(v.toks()[i]->params),
    ensures
        ({
            let form = seq![0x1Bu8, 0x5B] + v.toks()[i]->params + seq![0x6Du8];
            &&& 0 <= from
            &&& from + form.len() <= v.output().len()
            &&& v.output().subrange(from, from + form.len() as int) == form
        }),
{
    let t = v.toks()[i];
    lemma_tokens_ok(v.input);
    assert(token_ok(t));
    lemma_styling_exactly(t);
    lemma_allowed_is_kept(v.policy, t);
    lemma_own_outcome_counts(v.policy, v.toks(), i);
    lemma_kept_forms(t);
    let form = seq![0x1Bu8, 0x5B] + t->params + seq![0x6Du8];
    assert(normal_form(t) =~= form);
    lemma_piece_is_written(v, i)
}

/// Is the `i`-th token one that styled text is made of: text, whitespace that
/// passes, or styling with the 7-bit introducer?
pub open spec fn styled_text(p: PolicyView, toks: Seq<TokenView>, i: int) -> bool {
    ||| toks[i] is Text
    ||| toks[i] == TokenView::Control(0x09)
    ||| toks[i] == TokenView::Control(0x0A)
    ||| toks[i] == TokenView::Control(0x0D) && (p.allow_lone_cr || (i + 1 < toks.len() && toks[i
        + 1] == TokenView::Control(0x0A)))
    ||| bare_csi(toks[i], 0x6D) && styling_params(toks[i]->params) && toks[i].raw()[0] == 0x1B
}

/// Styled text passes byte-identical wherever styling is allowed: nothing is
/// removed and nothing found.
pub proof fn lemma_styled_text_passes(v: SanitizerView)
    requires
        complete(v),
        policy_ok(v.policy),
        v.policy.allowed.contains(Class::Sgr),
        forall|i: int| 0 <= i < v.toks().len() ==> #[trigger] styled_text(v.policy, v.toks(), i),
    ensures
        v.output() == v.input,
        v.log().stripped == 0,
        v.log().findings == Seq::<FindingView>::empty(),
{
    let p = v.policy;
    let toks = v.toks();
    lemma_tokens_ok(v.input);
    lemma_tokens_spell_input(v.input);
    assert forall|i: int| 0 <= i < toks.len() implies clean(p, #[trigger] toks[i]) && normal_form(
        toks[i],
    ) == toks[i].raw() && !(outcome(p, toks, i) is Strip) by {
        assert(styled_text(p, toks, i));
        assert(token_ok(toks[i]));
        if bare_csi(toks[i], 0x6D) {
            lemma_styling_exactly(toks[i]);
            lemma_allowed_is_kept(p, toks[i]);
        }
    }
    assert(all_clean(p, toks));
    assert forall|i: int| 0 <= i < toks.len() implies !(#[trigger] outcome(
        p,
        toks,
        i,
    ) is Strip) by {
        assert(clean(p, toks[i]));
    }
    lemma_log_clean(p, v.marks, toks, toks.len() as int);
    lemma_clean_spelled(p, toks, v.input, toks.len() as int);
    assert(toks.take(toks.len() as int) =~= toks);
    assert(total_len(toks) == v.input.len()) by {
        reveal(spells);
    }
    assert(v.input.take(v.input.len() as int) =~= v.input);
}

/// The default and the strict preset allow styling, so the above holds of them.
pub proof fn lemma_presets_allow_styling(preset: Preset)
    requires
        preset == Preset::Default || preset == Preset::Strict,
    ensures
        preset_policy(preset).allowed.contains(Class::Sgr),
        policy_ok(preset_policy(preset)),
{
    lemma_presets_exactly(preset, Class::Sgr);
    lemma_presets_exactly(preset, Class::Malformed);
}

// --- progress -------------------------------------------------------------------

/// A chunk decides every token that it completes, but for a carriage return at the
/// end where the next token decides whether it stands alone. Each token is marked as
/// the sanitizer marked when it was decided.
pub proof fn lemma_chunks_decide(v: SanitizerView, chunk: Seq<u8>)
    ensures
        ({
            let w = v.fed(chunk);
            let toks = run(start(), v.input + chunk).tokens;
            let waits = !v.policy.allow_lone_cr && toks.len() > 0 && toks[toks.len() - 1]
                == TokenView::Control(0x0D);
            &&& w.input == v.input + chunk
            &&& w.policy == v.policy
            &&& w.mark == v.mark
            &&& w.finished == v.finished
            &&& w.marks.len() == if waits {
                toks.len() - 1
            } else {
                toks.len() as int
            }
            &&& forall|i: int|
                0 <= i < w.marks.len() ==> #[trigger] w.marks[i] == if i < v.marks.len() {
                    v.marks[i]
                } else {
                    v.mark
                }
        }),
{
}

/// The end of input decides every token.
pub proof fn lemma_end_decides(v: SanitizerView)
    ensures
        ({
            let w = v.ended();
            &&& w.input == v.input
            &&& w.policy == v.policy
            &&& w.mark == v.mark
            &&& w.finished
            &&& w.marks.len() == tokens(v.input).len()
            &&& forall|i: int|
                0 <= i < w.marks.len() ==> #[trigger] w.marks[i] == if i < v.marks.len() {
                    v.marks[i]
                } else {
                    v.mark
                }
        }),
{
}

// --- findings -------------------------------------------------------------------

/// What is stripped is found, unless it is harmless: there is one finding on it
/// and no other, with its place, its verdict, what was done and what it looked
/// like.
pub proof fn lemma_stripped_is_found(v: SanitizerView, i: int) -> (k: int)
    requires
        v.marks.len() <= v.toks().len(),
        0 <= i < v.marks.len(),
        outcome(v.policy, v.toks(), i) is Strip,
        outcome(v.policy, v.toks(), i)->Strip_0.severity != Severity::Benign,
    ensures
        0 <= k < v.log().findings.len(),
        ({
            let verdict = outcome(v.policy, v.toks(), i)->Strip_0;
            let f = v.log().findings[k];
            &&& f.offset == offset_of(v.toks(), i)
            &&& f.line == line_of(v.toks(), i)
            &&& f.class == verdict.class
            &&& f.severity == verdict.severity
            &&& f.label == verdict.label
            &&& f.action == Action::Marked <==> v.marks[i]
            &&& f.excerpt == shown(v.toks()[i].raw(), 48)
        }),
        forall|j: int|
            0 <= j < v.log().findings.len() && (#[trigger] v.log().findings[j]).offset == offset_of(
                v.toks(),
                i,
            ) ==> j == k,
{
    let all = v.log().findings;
    let k = log_of(v.policy, v.marks, v.toks(), i).findings.len() as int;
    let now = log_of(v.policy, v.marks, v.toks(), i + 1).findings;
    lemma_findings_grow(v.policy, v.marks, v.toks(), i + 1, v.marks.len() as int);
    assert(all.subrange(0, now.len() as int) =~= now);
    assert(all[k] == now[k]);
    lemma_offset_unique(v, k);
    k
}

/// How many of the first `n` tokens are kept, stripped, and stripped with a
/// finding?
pub open spec fn tallies(p: PolicyView, toks: Seq<TokenView>, n: int) -> (nat, nat, nat)
    decreases n,
{
    if n <= 0 {
        (0, 0, 0)
    } else {
        let (kept, stripped, found) = tallies(p, toks, n - 1);
        match outcome(p, toks, n - 1) {
            Outcome::Pass(_) => (kept, stripped, found),
            Outcome::Keep(_) => (kept + 1, stripped, found),
            Outcome::Strip(verdict) => (
                kept,
                stripped + 1,
                if verdict.severity == Severity::Benign {
                    found
                } else {
                    found + 1
                },
            ),
        }
    }
}

proof fn lemma_tallies_below(v: SanitizerView, n: int)
    requires
        0 <= n <= v.marks.len(),
    ensures
        ({
            let log = log_of(v.policy, v.marks, v.toks(), n);
            let (kept, stripped, found) = tallies(v.policy, v.toks(), n);
            log.kept == kept && log.stripped == stripped && log.findings.len() == found
        }),
    decreases n,
{
    if n > 0 {
        lemma_tallies_below(v, n - 1);
    }
}

/// The statistics count every token once: as kept, as stripped or as passed, and
/// every stripped one that is not harmless as found.
pub proof fn lemma_statistics_count_tokens(v: SanitizerView)
    ensures
        ({
            let (kept, stripped, found) = tallies(v.policy, v.toks(), v.marks.len() as int);
            let s = v.summary();
            &&& s.kept == kept
            &&& s.stripped == stripped
            &&& s.findings == if v.finished {
                found
            } else {
                0
            }
            &&& v.log().findings.len() == found
            &&& s.bytes_in == v.input.len()
            &&& s.bytes_out == v.output().len()
        }),
{
    lemma_tallies_below(v, v.marks.len() as int);
}

/// One more finding adds one to the count of its severity and to no other.
pub proof fn lemma_severities_counted(
    findings: Seq<FindingView>,
    f: FindingView,
    severity: Severity,
)
    ensures
        severity_count(Seq::<FindingView>::empty(), severity) == 0,
        severity_count(findings.push(f), severity) == severity_count(findings, severity)
            + if f.severity == severity {
            1nat
        } else {
            0nat
        },
{
    assert(findings.push(f).drop_last() =~= findings);
}

/// The statistics name each severity in its own place.
pub proof fn lemma_severities_named(v: SanitizerView)
    ensures
        v.summary().low == severity_count(v.log().findings, Severity::Low),
        v.summary().medium == severity_count(v.log().findings, Severity::Medium),
        v.summary().high == severity_count(v.log().findings, Severity::High),
        v.summary().critical == severity_count(v.log().findings, Severity::Critical),
        v.summary().suppressed == if v.log().findings.len() <= 1000 {
            0
        } else {
            v.log().findings.len() - 1000
        },
{
}

/// The highest severity is reached by some finding and exceeded by none.
pub proof fn lemma_worst_is_highest(findings: Seq<FindingView>)
    ensures
        forall|k: int|
            0 <= k < findings.len() ==> (#[trigger] findings[k]).severity.rank() <= worst(
                findings,
            ).rank(),
        worst(findings) == Severity::Benign || exists|k: int|
            0 <= k < findings.len() && (#[trigger] findings[k]).severity == worst(findings),
    decreases findings.len(),
{
    if findings.len() > 0 {
        let front = findings.drop_last();
        let n = findings.len() - 1;
        lemma_worst_is_highest(front);
        assert forall|k: int| 0 <= k < findings.len() implies (
        #[trigger] findings[k]).severity.rank() <= worst(findings).rank() by {
            if k < n {
                assert(findings[k] == front[k]);
            }
        }
        if worst(findings) == findings[n].severity {
        } else if worst(front) != Severity::Benign {
            let k = choose|k: int|
                0 <= k < front.len() && (#[trigger] front[k]).severity == worst(front);
            assert(findings[k].severity == worst(findings));
        }
    }
}

/// Severities are ordered from harmless to critical.
pub proof fn lemma_severity_order()
    ensures
        Severity::Benign.rank() < Severity::Low.rank() < Severity::Medium.rank()
            < Severity::High.rank() < Severity::Critical.rank(),
{
}

/// The first thousand findings are stored, in order.
pub proof fn lemma_first_thousand_stored(findings: Seq<FindingView>, k: int)
    ensures
        stored(findings).len() == if findings.len() <= 1000 {
            findings.len()
        } else {
            1000
        },
        0 <= k < stored(findings).len() ==> stored(findings)[k] == findings[k],
{
}

} // verus!
