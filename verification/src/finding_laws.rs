//! What findings and statistics tell: places in the input, counts that add up,
//! and reports that do not depend on how the input was cut.

use vstd::prelude::*;

use crate::bytes::{count_of, lemma_count_concat, lemma_count_none, CR, LF};
use crate::classify::{Class, Severity};
use crate::classify_laws::{lemma_severity_of_class, severity_range};
use crate::parser_laws::{
    lemma_offset_bounds, lemma_run_concat, lemma_tokens_ok, offset_of, token_ok,
};
use crate::parser_model::{run, start, tokens, TokenView};
use crate::policy_model::PolicyView;
use crate::rescan_laws::{complete, lemma_lone_cr_bytes};
use crate::sanitize::{EXCERPT_CAP, MAX_FINDINGS};
use crate::sanitize_laws::{lemma_log_counts, lemma_log_stable, lemma_toks_fit};
use crate::sanitize_model::{
    decided, finding_on, fresh, line_of, lines_ended, log_of, outcome, ruling, sanitized,
    severity_count, shown, stored, worst, FindingView, Outcome, SanitizerView,
};
use crate::spelling_laws::{
    inner_byte, lemma_control_token, lemma_controls_alone, lemma_tokens_spell_input, spelled,
    spelled_at, spells,
};

verus! {

// --- chunks -------------------------------------------------------------------

/// Has the sanitizer decided no more than it can, and not yet ended?
pub open spec fn streaming(v: SanitizerView) -> bool {
    !v.finished && v.marks.len() <= decided(v.policy, v.toks())
}

/// Decided tokens stay decided when more input follows.
proof fn lemma_decided_grows(p: PolicyView, a: Seq<u8>, b: Seq<u8>)
    ensures
        decided(p, run(start(), a).tokens) <= decided(p, run(start(), a + b).tokens),
        decided(p, run(start(), a).tokens) <= tokens(a).len(),
{
    lemma_run_concat(start(), a, b);
    let more = run(run(start(), a).phase, b).tokens;
    assert(more.len() == 0 ==> run(start(), a).tokens + more =~= run(start(), a).tokens);
}

/// Chunk boundaries do not matter: two chunks leave the sanitizer where the
/// two in one leave it, with the same output, findings and statistics.
pub proof fn lemma_chunks_join(v: SanitizerView, a: Seq<u8>, b: Seq<u8>)
    requires
        streaming(v),
    ensures
        v.fed(a).fed(b) == v.fed(a + b),
        streaming(v.fed(a)),
{
    assert(v.input + a + b =~= v.input + (a + b));
    lemma_decided_grows(v.policy, v.input, a);
    lemma_decided_grows(v.policy, v.input + a, b);
    assert(v.fed(a).fed(b).marks =~= v.fed(a + b).marks);
}

/// The sanitizer after a list of chunks.
pub open spec fn fed_all(v: SanitizerView, chunks: Seq<Seq<u8>>) -> SanitizerView
    decreases chunks.len(),
{
    if chunks.len() == 0 {
        v
    } else {
        fed_all(v, chunks.drop_last()).fed(chunks.last())
    }
}

/// The chunks in one piece.
pub open spec fn joined(chunks: Seq<Seq<u8>>) -> Seq<u8>
    decreases chunks.len(),
{
    if chunks.len() == 0 {
        seq![]
    } else {
        joined(chunks.drop_last()) + chunks.last()
    }
}

/// A list of chunks leaves a sanitizer that has read nothing where the chunks
/// in one piece leave it.
proof fn lemma_fed_all(p: PolicyView, mark: bool, chunks: Seq<Seq<u8>>)
    ensures
        fed_all(fresh(p, mark), chunks) == fresh(p, mark).fed(joined(chunks)),
    decreases chunks.len(),
{
    let v = fresh(p, mark);
    assert(v.toks() =~= seq![]);
    if chunks.len() == 0 {
        assert(v.input + joined(chunks) =~= v.input);
        assert(v.fed(joined(chunks)) =~= v);
    } else {
        lemma_fed_all(p, mark, chunks.drop_last());
        lemma_chunks_join(v, joined(chunks.drop_last()), chunks.last());
    }
}

/// Identical output across all chunkings: however the input is cut, the end of
/// input leaves the sanitizer, with its output, findings and statistics, where
/// the whole input at once does.
pub proof fn lemma_every_chunking_agrees(p: PolicyView, mark: bool, chunks: Seq<Seq<u8>>)
    ensures
        fed_all(fresh(p, mark), chunks).ended() == sanitized(p, mark, joined(chunks)),
{
    let v = fresh(p, mark);
    let input = joined(chunks);
    lemma_fed_all(p, mark, chunks);
    assert(v.toks() =~= seq![]);
    assert(v.input + input =~= input);
    lemma_decided_grows(p, input, seq![]);
    assert(v.fed(input).ended().marks =~= sanitized(p, mark, input).marks);
}

// --- places -------------------------------------------------------------------

/// A token ends as many lines as line feeds stand in the input it was read from.
proof fn lemma_lines_ended(t: TokenView, segment: Seq<u8>)
    requires
        token_ok(t),
        spelled(t, segment),
    ensures
        lines_ended(t) == count_of(segment, LF),
{
    lemma_controls_alone(t, segment);
    lemma_count_none(segment, LF);
    if !(t is Control) {
        assert forall|i: int| 0 <= i < segment.len() implies segment[i] != LF by {
            assert(inner_byte(segment[i]));
        }
    }
}

/// The line of a token is the input line on which it starts: one more than the
/// line feeds before it.
pub proof fn lemma_line_counts_input_lines(input: Seq<u8>, i: int)
    requires
        0 <= i <= tokens(input).len(),
    ensures
        offset_of(tokens(input), i) <= input.len(),
        line_of(tokens(input), i) == 1 + count_of(
            input.take(offset_of(tokens(input), i) as int),
            LF,
        ),
    decreases i,
{
    let toks = tokens(input);
    lemma_tokens_spell_input(input);
    reveal(spells);
    if i == 0 {
        assert(toks.take(0) =~= seq![]);
        assert(input.take(0) =~= seq![]);
    } else {
        lemma_line_counts_input_lines(input, i - 1);
        lemma_offset_bounds(toks, i - 1);
        lemma_tokens_ok(input);
        assert(token_ok(toks[i - 1]));
        assert(spelled_at(toks, input, i - 1));
        let from = offset_of(toks, i - 1) as int;
        let to = offset_of(toks, i) as int;
        let segment = input.subrange(from, to);
        assert(spelled(toks[i - 1], segment));
        lemma_lines_ended(toks[i - 1], segment);
        assert(input.take(to) =~= input.take(from) + segment);
        lemma_count_concat(input.take(from), segment, LF);
        assert(toks.take(i).drop_last() =~= toks.take(i - 1));
    }
}

/// Is `f` the finding on the `i`-th token?
pub open spec fn finding_of(v: SanitizerView, f: FindingView, i: int) -> bool {
    let toks = v.toks();
    &&& outcome(v.policy, toks, i) matches Outcome::Strip(verdict) && f == finding_on(
        v.marks[i],
        verdict,
        toks[i].raw(),
        offset_of(toks, i),
        line_of(toks, i),
    )
}

/// Every finding is about a removed token: it names the token's input offset,
/// the input line, and the verdict, and shows the token's bytes.
pub proof fn lemma_findings_have_tokens(v: SanitizerView, k: int)
    requires
        v.marks.len() <= v.toks().len(),
        0 <= k < v.log().findings.len(),
    ensures
        exists|i: int|
            0 <= i < v.marks.len() && #[trigger] finding_of(v, v.log().findings[k], i),
        v.log().findings[k].severity != Severity::Benign,
{
    lemma_findings_below(v, v.marks.len() as int, k);
}

proof fn lemma_findings_below(v: SanitizerView, n: int, k: int)
    requires
        0 <= n <= v.marks.len() <= v.toks().len(),
        0 <= k < log_of(v.policy, v.marks, v.toks(), n).findings.len(),
    ensures
        exists|i: int|
            0 <= i < n && #[trigger] finding_of(
                v,
                log_of(v.policy, v.marks, v.toks(), n).findings[k],
                i,
            ),
        log_of(v.policy, v.marks, v.toks(), n).findings[k].severity != Severity::Benign,
    decreases n,
{
    let now = log_of(v.policy, v.marks, v.toks(), n).findings;
    if n > 0 {
        let before = log_of(v.policy, v.marks, v.toks(), n - 1).findings;
        if k < before.len() {
            lemma_findings_below(v, n - 1, k);
            assert(now[k] == before[k]);
            let i = choose|i: int| 0 <= i < n - 1 && #[trigger] finding_of(v, before[k], i);
            assert(finding_of(v, now[k], i));
        } else {
            assert(finding_of(v, now[k], n - 1));
        }
    }
}

/// A finding names a place in the input: the offset at which its token starts
/// and the line on which it does, counted by the line feeds before it. It shows
/// what is retained of the token.
pub proof fn lemma_finding_place(v: SanitizerView, k: int) -> (i: int)
    requires
        complete(v),
        0 <= k < v.log().findings.len(),
    ensures
        0 <= i < v.toks().len(),
        ({
            let f = v.log().findings[k];
            &&& finding_of(v, f, i)
            &&& f.offset == offset_of(v.toks(), i)
            &&& f.offset < v.input.len()
            &&& f.line == 1 + count_of(v.input.take(f.offset as int), LF)
            &&& f.excerpt == shown(v.toks()[i].raw(), EXCERPT_CAP as nat)
            &&& f.severity != Severity::Benign
        }),
{
    lemma_findings_have_tokens(v, k);
    let i = choose|i: int|
        0 <= i < v.marks.len() && #[trigger] finding_of(v, v.log().findings[k], i);
    lemma_line_counts_input_lines(v.input, i);
    lemma_toks_fit(v);
    lemma_offset_bounds(v.toks(), i);
    assert(token_ok(v.toks()[i]));
    i
}

/// The class of a finding bounds its severity.
pub proof fn lemma_finding_severity(v: SanitizerView, k: int)
    requires
        v.marks.len() <= v.toks().len(),
        0 <= k < v.log().findings.len(),
    ensures
        severity_range(v.log().findings[k].class, v.log().findings[k].severity),
{
    lemma_findings_have_tokens(v, k);
    let i = choose|i: int|
        0 <= i < v.marks.len() && #[trigger] finding_of(v, v.log().findings[k], i);
    lemma_severity_of_class(v.toks()[i]);
    reveal(ruling);
}

/// What is found is what the policy does not allow. The exceptions are a
/// hyperlink that does not pass, and a carriage return that stands alone where
/// none may.
pub proof fn lemma_findings_not_allowed(v: SanitizerView, k: int)
    requires
        v.marks.len() <= v.toks().len(),
        0 <= k < v.log().findings.len(),
    ensures
        ({
            let f = v.log().findings[k];
            ||| !v.policy.allowed.contains(f.class)
            ||| {
                &&& f.class == Class::Hyperlink
                &&& f.label == "unsafe-link"@ || f.label == "malformed-hyperlink"@
            }
            ||| {
                &&& !v.policy.allow_lone_cr
                &&& f.class == Class::Control
                &&& f.label == "lone-cr"@
            }
        }),
{
    lemma_findings_have_tokens(v, k);
    reveal(ruling);
}

/// The findings on the first `n` tokens lie before the next one, each after the
/// one before.
proof fn lemma_offsets_below(v: SanitizerView, n: int)
    requires
        0 <= n <= v.marks.len() <= v.toks().len(),
    ensures
        ({
            let now = log_of(v.policy, v.marks, v.toks(), n).findings;
            &&& forall|k: int|
                0 <= k < now.len() ==> (#[trigger] now[k]).offset < offset_of(v.toks(), n)
            &&& forall|j: int, k: int|
                0 <= j < k < now.len() ==> (#[trigger] now[j]).offset < (#[trigger] now[k]).offset
        }),
    decreases n,
{
    if n > 0 {
        let toks = v.toks();
        let before = log_of(v.policy, v.marks, toks, n - 1).findings;
        let now = log_of(v.policy, v.marks, toks, n).findings;
        lemma_offsets_below(v, n - 1);
        lemma_toks_fit(v);
        lemma_offset_bounds(toks, n - 1);
        assert(token_ok(toks[n - 1]));
        assert(toks[n - 1].byte_len() > 0);
        assert forall|k: int| 0 <= k < now.len() implies (#[trigger] now[k]).offset < offset_of(
            toks,
            n,
        ) by {
            if k < before.len() {
                assert(now[k] == before[k]);
            }
        }
        assert forall|j: int, k: int| 0 <= j < k < now.len() implies (#[trigger] now[j]).offset < (
        #[trigger] now[k]).offset by {
            assert(now[j] == before[j]);
            if k < before.len() {
                assert(now[k] == before[k]);
            }
        }
    }
}

/// Findings come in the order of the input: their offsets strictly increase.
pub proof fn lemma_offsets_increase(v: SanitizerView, j: int, k: int)
    requires
        v.marks.len() <= v.toks().len(),
        0 <= j < k < v.log().findings.len(),
    ensures
        v.log().findings[j].offset < v.log().findings[k].offset,
{
    lemma_offsets_below(v, v.marks.len() as int);
}

/// What has been found stays found.
pub proof fn lemma_findings_grow(
    p: PolicyView,
    marks: Seq<bool>,
    toks: Seq<TokenView>,
    n: int,
    m: int,
)
    requires
        n <= m,
    ensures
        log_of(p, marks, toks, n).findings.is_prefix_of(log_of(p, marks, toks, m).findings),
    decreases m - n,
{
    let small = log_of(p, marks, toks, n).findings;
    let large = log_of(p, marks, toks, m).findings;
    if n == m || m <= 0 {
        assert(large.take(large.len() as int) =~= large);
    } else {
        lemma_findings_grow(p, marks, toks, n, m - 1);
        let middle = log_of(p, marks, toks, m - 1).findings;
        assert(large.take(small.len() as int) =~= middle.take(small.len() as int));
    }
}

/// Where lone carriage returns are forbidden, none goes unreported: each one in
/// the input that no line feed follows has a finding at its offset, and only
/// one.
pub proof fn lemma_lone_crs_found(v: SanitizerView, x: int) -> (k: int)
    requires
        complete(v),
        !v.policy.allow_lone_cr,
        0 <= x < v.input.len(),
        v.input[x] == CR,
        !(x + 1 < v.input.len() && v.input[x + 1] == LF),
    ensures
        0 <= k < v.log().findings.len(),
        v.log().findings[k].offset == x,
        v.log().findings[k].class == Class::Control,
        v.log().findings[k].severity == Severity::Medium,
        v.log().findings[k].label == "lone-cr"@,
        forall|j: int|
            0 <= j < v.log().findings.len() && (#[trigger] v.log().findings[j]).offset == x ==> j
                == k,
{
    let toks = v.toks();
    let all = v.log().findings;
    let i = lemma_control_token(v.input, x);
    lemma_lone_cr_bytes(v.input, i);
    let k = log_of(v.policy, v.marks, toks, i).findings.len() as int;
    let now = log_of(v.policy, v.marks, toks, i + 1).findings;
    lemma_findings_grow(v.policy, v.marks, toks, i + 1, toks.len() as int);
    assert(all.take(now.len() as int) =~= now);
    assert(all[k] == now[k]);
    lemma_offset_unique(v, k);
    k
}

/// No two findings lie at one offset.
pub proof fn lemma_offset_unique(v: SanitizerView, k: int)
    requires
        v.marks.len() <= v.toks().len(),
        0 <= k < v.log().findings.len(),
    ensures
        forall|j: int|
            0 <= j < v.log().findings.len() && (#[trigger] v.log().findings[j]).offset
                == v.log().findings[k].offset ==> j == k,
{
    let all = v.log().findings;
    assert forall|j: int| 0 <= j < all.len() && (#[trigger] all[j]).offset
        == all[k].offset implies j == k by {
        if j < k {
            lemma_offsets_increase(v, j, k);
        } else if k < j {
            lemma_offsets_increase(v, k, j);
        }
    }
}

// --- later calls --------------------------------------------------------------

/// More findings are no less severe.
proof fn lemma_worst_grows(findings: Seq<FindingView>, n: int)
    requires
        0 <= n <= findings.len(),
    ensures
        worst(findings.take(n)).rank() <= worst(findings).rank(),
    decreases findings.len() - n,
{
    if n == findings.len() {
        assert(findings.take(n) =~= findings);
    } else {
        lemma_worst_grows(findings, n + 1);
        assert(findings.take(n + 1).drop_last() =~= findings.take(n));
    }
}

proof fn lemma_findings_kept(v: SanitizerView, w: SanitizerView)
    requires
        v.marks.len() <= decided(v.policy, v.toks()),
        w.policy == v.policy,
        v.toks().is_prefix_of(w.toks()),
        v.marks.is_prefix_of(w.marks),
    ensures
        v.log().findings.is_prefix_of(w.log().findings),
        worst(v.log().findings).rank() <= worst(w.log().findings).rank(),
{
    let n = v.marks.len() as int;
    lemma_log_stable(v.policy, v.marks, w.marks, v.toks(), w.toks(), n);
    lemma_findings_grow(w.policy, w.marks, w.toks(), n, w.marks.len() as int);
    let all = w.log().findings;
    let m = v.log().findings.len() as int;
    assert(all.subrange(0, m) =~= all.take(m));
    lemma_worst_grows(all, m);
}

/// Nothing found is taken back by more input, and the highest severity never
/// decreases.
pub proof fn lemma_feeding_keeps_findings(v: SanitizerView, chunk: Seq<u8>)
    requires
        streaming(v),
    ensures
        v.log().findings.is_prefix_of(v.fed(chunk).log().findings),
        worst(v.log().findings).rank() <= worst(v.fed(chunk).log().findings).rank(),
{
    let w = v.fed(chunk);
    lemma_run_concat(start(), v.input, chunk);
    lemma_decided_grows(v.policy, v.input, chunk);
    assert(w.toks().subrange(0, v.toks().len() as int) =~= v.toks());
    assert(w.marks.subrange(0, v.marks.len() as int) =~= v.marks);
    lemma_findings_kept(v, w);
}

/// Nothing found is taken back by the end of input, and the highest severity
/// never decreases.
pub proof fn lemma_ending_keeps_findings(v: SanitizerView)
    requires
        streaming(v),
    ensures
        v.log().findings.is_prefix_of(v.ended().log().findings),
        worst(v.log().findings).rank() <= worst(v.ended().log().findings).rank(),
{
    let w = v.ended();
    lemma_decided_grows(v.policy, v.input, seq![]);
    assert(w.toks().subrange(0, v.toks().len() as int) =~= v.toks());
    assert(w.marks.subrange(0, v.marks.len() as int) =~= v.marks);
    lemma_findings_kept(v, w);
}

// --- counts -------------------------------------------------------------------

/// Findings that are none harmless divide by severity, and the highest
/// severity is the highest that occurs.
proof fn lemma_severities_add_up(findings: Seq<FindingView>)
    requires
        forall|k: int|
            0 <= k < findings.len() ==> (#[trigger] findings[k]).severity != Severity::Benign,
    ensures
        severity_count(findings, Severity::Low) + severity_count(findings, Severity::Medium)
            + severity_count(findings, Severity::High) + severity_count(
            findings,
            Severity::Critical,
        ) == findings.len(),
        worst(findings) == if severity_count(findings, Severity::Critical) > 0 {
            Severity::Critical
        } else if severity_count(findings, Severity::High) > 0 {
            Severity::High
        } else if severity_count(findings, Severity::Medium) > 0 {
            Severity::Medium
        } else if severity_count(findings, Severity::Low) > 0 {
            Severity::Low
        } else {
            Severity::Benign
        },
    decreases findings.len(),
{
    if findings.len() > 0 {
        assert(findings[findings.len() - 1].severity != Severity::Benign);
        assert forall|k: int| 0 <= k < findings.len() - 1 implies (
        #[trigger] findings.drop_last()[k]).severity != Severity::Benign by {
            assert(findings.drop_last()[k] == findings[k]);
        }
        lemma_severities_add_up(findings.drop_last());
    }
}

/// The statistics add up: findings are stored or counted as suppressed, at
/// most the cap is stored, every finding counts under its severity, and what
/// is kept or removed was a token.
pub proof fn lemma_summary_adds_up(v: SanitizerView)
    requires
        v.marks.len() <= v.toks().len(),
    ensures
        ({
            let s = v.summary();
            let found = v.log().findings.len();
            &&& s.low + s.medium + s.high + s.critical == found
            &&& stored(v.log().findings).len() + s.suppressed == found
            &&& stored(v.log().findings).len() == if found <= MAX_FINDINGS {
                found
            } else {
                MAX_FINDINGS as nat
            }
            &&& v.finished ==> s.findings == found
            &&& s.bytes_in == v.input.len()
            &&& s.bytes_out == v.output().len()
            &&& found <= s.stripped
            &&& s.kept + s.stripped <= v.toks().len()
        }),
        worst(v.log().findings) == if v.summary().critical > 0 {
            Severity::Critical
        } else if v.summary().high > 0 {
            Severity::High
        } else if v.summary().medium > 0 {
            Severity::Medium
        } else if v.summary().low > 0 {
            Severity::Low
        } else {
            Severity::Benign
        },
{
    let findings = v.log().findings;
    assert forall|k: int| 0 <= k < findings.len() implies (#[trigger] findings[k]).severity
        != Severity::Benign by {
        lemma_findings_have_tokens(v, k);
    }
    lemma_severities_add_up(findings);
    lemma_log_counts(v.policy, v.marks, v.toks(), v.marks.len() as int);
}

} // verus!
