//! What holds of the sanitizer on every input.

use vstd::prelude::*;
use vstd::utf8::{
    encode_utf8, encode_utf8_valid_utf8, is_ascii_chars, is_ascii_chars_encode_utf8, valid_utf8,
};

use crate::bytes::{CR, LF};
use crate::classify_laws::{label_char, label_ok, lemma_label_ok};
use crate::parser_laws::{
    lemma_offset_bounds, lemma_run_len, lemma_run_ok, lemma_start_ok,
    lemma_tokens_account_for_input, lemma_tokens_ok, offset_of, token_ok, tokens_ok, total_len,
};
use crate::parser_model::{start, TokenView};
use crate::policy_model::PolicyView;
use crate::sanitize_model::{
    cr_outcome, decided, filled, line_of, lines_ended, log_of, log_step, marker, normal_form,
    outcome, ruling, total_lines, undecided, written, Outcome, SanitizerView, GROWTH,
};
use crate::utf8_laws::{
    control_char, lemma_encode_char_len, lemma_encode_concat, lemma_encode_plain,
    lemma_three_byte_lead,
};
use crate::utf8_model::no_control;

verus! {

// --- bookkeeping --------------------------------------------------------------

/// What has been decided stays decided: more tokens and more marks do not
/// change the log of the tokens decided before.
pub proof fn lemma_log_stable(
    p: PolicyView,
    marks: Seq<bool>,
    more_marks: Seq<bool>,
    toks: Seq<TokenView>,
    more: Seq<TokenView>,
    n: int,
)
    requires
        toks.is_prefix_of(more),
        n <= decided(p, toks),
        n <= marks.len(),
        marks.is_prefix_of(more_marks),
    ensures
        log_of(p, marks, toks, n) == log_of(p, more_marks, more, n),
    decreases n,
{
    if n > 0 {
        lemma_log_stable(p, marks, more_marks, toks, more, n - 1);
        assert(toks == more.take(toks.len() as int));
        assert(toks[n - 1] == more[n - 1]);
        if n < toks.len() {
            assert(toks[n] == more[n]);
        }
        assert(toks.take(n - 1) =~= more.take(n - 1));
        assert(marks == more_marks.take(marks.len() as int));
        assert(marks[n - 1] == more_marks[n - 1]);
        assert(outcome(p, toks, n - 1) == outcome(p, more, n - 1));
    }
}

/// A log counts at most one kept or removed sequence per token, and at most
/// one finding per removed sequence.
pub proof fn lemma_log_counts(p: PolicyView, marks: Seq<bool>, toks: Seq<TokenView>, n: int)
    requires
        0 <= n,
    ensures
        log_of(p, marks, toks, n).kept + log_of(p, marks, toks, n).stripped <= n,
        log_of(p, marks, toks, n).findings.len() <= log_of(p, marks, toks, n).stripped,
    decreases n,
{
    if n > 0 {
        lemma_log_counts(p, marks, toks, n - 1);
    }
}

/// A log only grows.
pub proof fn lemma_log_grows(
    p: PolicyView,
    marks: Seq<bool>,
    toks: Seq<TokenView>,
    n: int,
    m: int,
)
    requires
        n <= m,
    ensures
        log_of(p, marks, toks, n).output.is_prefix_of(log_of(p, marks, toks, m).output),
    decreases m - n,
{
    let small = log_of(p, marks, toks, n).output;
    let large = log_of(p, marks, toks, m).output;
    if n == m || m <= 0 {
        assert(large.take(large.len() as int) =~= large);
    } else {
        lemma_log_grows(p, marks, toks, n, m - 1);
        let middle = log_of(p, marks, toks, m - 1).output;
        assert(large.take(small.len() as int) =~= middle.take(small.len() as int));
    }
}

/// One more token in steps: first a held carriage return is decided, and then
/// the token itself, unless it is a carriage return that is to be held.
pub proof fn lemma_log_next(
    p: PolicyView,
    marks: Seq<bool>,
    mark: bool,
    toks: Seq<TokenView>,
    t: TokenView,
)
    requires
        marks.len() == decided(p, toks),
    ensures
        ({
            let all = toks.push(t);
            let held = decided(p, toks) as int;
            let n = decided(p, all) as int;
            let more = filled(marks, mark, n as nat);
            let before = log_of(p, marks, toks, held);
            let middle = log_of(p, more, all, toks.len() as int);
            let after = log_of(p, more, all, n);
            &&& middle == if undecided(p, toks) {
                log_step(
                    before,
                    mark,
                    cr_outcome(t == TokenView::Control(LF)),
                    seq![CR],
                    offset_of(toks, held),
                    line_of(toks, held),
                )
            } else {
                before
            }
            &&& after == if undecided(p, all) {
                middle
            } else {
                log_step(
                    middle,
                    mark,
                    outcome(p, all, toks.len() as int),
                    t.raw(),
                    total_len(toks),
                    1 + total_lines(toks),
                )
            }
            &&& before.output.is_prefix_of(middle.output)
            &&& middle.output.is_prefix_of(after.output)
            &&& before.output.is_prefix_of(after.output)
            &&& middle.kept + middle.stripped <= toks.len()
            &&& before.kept + before.stripped <= held
            &&& before.findings.len() <= before.stripped
            &&& middle.findings.len() <= middle.stripped
            &&& total_len(all) == total_len(toks) + t.byte_len()
            &&& total_lines(all) == total_lines(toks) + lines_ended(t)
            &&& held == toks.len() || (undecided(p, toks) && held == toks.len() - 1)
            &&& offset_of(all, toks.len() as int) == total_len(toks)
            &&& line_of(all, toks.len() as int) == 1 + total_lines(toks)
        }),
{
    let all = toks.push(t);
    let held = decided(p, toks) as int;
    let n = decided(p, all) as int;
    let more = filled(marks, mark, n as nat);
    assert(all.take(toks.len() as int) =~= toks);
    assert(all.drop_last() =~= toks);
    assert(more.take(held) =~= marks);
    assert(all.take(held) =~= toks.take(held));
    lemma_log_stable(p, marks, more, toks, all, held);
    lemma_log_counts(p, more, all, held);
    lemma_log_counts(p, more, all, toks.len() as int);
    lemma_log_grows(p, more, all, held, toks.len() as int);
    lemma_log_grows(p, more, all, toks.len() as int, n);
    lemma_log_grows(p, more, all, held, n);
}

/// There are no more tokens, and no more lines, than input bytes.
pub proof fn lemma_tokens_fit(toks: Seq<TokenView>)
    requires
        tokens_ok(toks),
    ensures
        toks.len() <= total_len(toks),
        total_lines(toks) <= total_len(toks),
    decreases toks.len(),
{
    if toks.len() > 0 {
        assert(token_ok(toks.last()));
        assert forall|i: int| 0 <= i < toks.len() - 1 implies token_ok(
            #[trigger] toks.drop_last()[i],
        ) by {
            assert(toks.drop_last()[i] == toks[i]);
        }
        lemma_tokens_fit(toks.drop_last());
    }
}

/// The first tokens account for no more bytes and lines than all.
pub proof fn lemma_total_split(toks: Seq<TokenView>, n: int)
    requires
        0 <= n <= toks.len(),
    ensures
        total_len(toks.take(n)) <= total_len(toks),
        total_lines(toks.take(n)) <= total_lines(toks),
    decreases toks.len() - n,
{
    if n == toks.len() {
        assert(toks.take(n) =~= toks);
    } else {
        lemma_total_split(toks, n + 1);
        assert(toks.take(n + 1).drop_last() =~= toks.take(n));
    }
}

/// Every label of an outcome is short and printable.
pub proof fn lemma_outcome_label(p: PolicyView, toks: Seq<TokenView>, i: int)
    ensures
        outcome(p, toks, i) matches Outcome::Strip(verdict) ==> label_ok(verdict.label),
{
    reveal(ruling);
    reveal_strlit("lone-cr");
    reveal_strlit("unsafe-link");
    reveal_strlit("c1-control");
    reveal_strlit("malformed-hyperlink");
    lemma_label_ok(toks[i]);
}

/// A marker is complete UTF-8 text without control bytes, and short.
pub proof fn lemma_marker(label: Seq<char>)
    requires
        label_ok(label),
    ensures
        no_control(encode_utf8(marker(label))),
        valid_utf8(encode_utf8(marker(label))),
        encode_utf8(marker(label)).len() == 15 + label.len(),
        0xE0 <= encode_utf8(marker(label))[0] <= 0xEF,
{
    let open = "\u{27E8}stripped:"@;
    let close = "\u{27E9}"@;
    reveal_strlit("\u{27E8}stripped:");
    reveal_strlit("\u{27E9}");
    let word = open.drop_first();
    let all = marker(label);
    assert(open =~= seq!['\u{27E8}'] + word);
    assert(close =~= seq!['\u{27E9}']);
    assert(all =~= open + label + close);
    lemma_encode_concat(seq!['\u{27E8}'], word);
    lemma_encode_concat(open, label);
    lemma_encode_concat(open + label, close);
    lemma_encode_char_len('\u{27E8}');
    lemma_encode_char_len('\u{27E9}');
    assert(is_ascii_chars(word));
    is_ascii_chars_encode_utf8(word);
    assert(is_ascii_chars(label)) by {
        assert forall|i: int| 0 <= i < label.len() implies '\0' <= #[trigger] label[i] <= '\u{7f}' by {
            assert(label_char(label[i]));
        }
    }
    is_ascii_chars_encode_utf8(label);
    assert forall|i: int| 0 <= i < all.len() implies !control_char(#[trigger] all[i]) by {
        if open.len() <= i < open.len() + label.len() {
            assert(label_char(label[i - open.len()]));
        }
    }
    lemma_encode_plain(all);
    encode_utf8_valid_utf8(all);
    assert(encode_utf8(all).len() == 3 + 9 + label.len() + 3);
    lemma_three_byte_lead('\u{27E8}');
    assert(all[0] == '\u{27E8}');
}

/// The kept form of a sequence is at most twice as long as the sequence.
pub proof fn lemma_normal_form_len(t: TokenView)
    requires
        token_ok(t),
    ensures
        normal_form(t).len() <= 2 * t.byte_len(),
{
}

/// What is written for a token is at most [`GROWTH`] times as long as the
/// token, and twice without a marker.
pub proof fn lemma_written_len(p: PolicyView, mark: bool, toks: Seq<TokenView>, i: int)
    requires
        tokens_ok(toks),
        0 <= i < toks.len(),
    ensures
        written(mark, outcome(p, toks, i)).len() <= GROWTH * toks[i].byte_len(),
        !mark ==> written(mark, outcome(p, toks, i)).len() <= 2 * toks[i].byte_len(),
{
    let t = toks[i];
    assert(token_ok(t));
    lemma_normal_form_len(t);
    lemma_outcome_label(p, toks, i);
    match outcome(p, toks, i) {
        Outcome::Strip(verdict) => lemma_marker(verdict.label),
        _ => reveal(ruling),
    }
}

/// The output is at most [`GROWTH`] times as long as the tokens, and twice
/// without markers.
pub proof fn lemma_output_len(p: PolicyView, marks: Seq<bool>, toks: Seq<TokenView>, n: int)
    requires
        tokens_ok(toks),
        0 <= n <= toks.len(),
    ensures
        log_of(p, marks, toks, n).output.len() <= GROWTH * offset_of(toks, n),
        (forall|i: int| 0 <= i < n ==> !marks[i]) ==> log_of(p, marks, toks, n).output.len() <= 2
            * offset_of(toks, n),
    decreases n,
{
    if n > 0 {
        lemma_output_len(p, marks, toks, n - 1);
        lemma_written_len(p, marks[n - 1], toks, n - 1);
        lemma_offset_bounds(toks, n - 1);
    }
}

/// The tokens read so far account for no more than the input, and there are
/// no more of them, nor of lines, than input bytes.
pub proof fn lemma_toks_fit(v: SanitizerView)
    ensures
        tokens_ok(v.toks()),
        total_len(v.toks()) <= v.input.len(),
        v.toks().len() <= v.input.len(),
        total_lines(v.toks()) <= v.input.len(),
{
    if v.finished {
        lemma_tokens_ok(v.input);
        lemma_tokens_account_for_input(v.input);
    } else {
        lemma_start_ok();
        lemma_run_ok(start(), v.input);
        lemma_run_len(start(), v.input);
    }
    lemma_tokens_fit(v.toks());
}

/// Where the counters fit, input and output can be counted.
pub proof fn lemma_fits(v: SanitizerView)
    requires
        v.fits(),
        v.marks.len() <= v.toks().len(),
    ensures
        v.input.len() < usize::MAX,
        v.output().len() <= usize::MAX,
{
    let toks = v.toks();
    let n = v.marks.len() as int;
    lemma_toks_fit(v);
    lemma_output_len(v.policy, v.marks, toks, n);
    if n < toks.len() {
        lemma_offset_bounds(toks, n);
    } else {
        assert(toks.take(n) =~= toks);
    }
    assert(offset_of(toks, n) <= v.input.len());
    assert(GROWTH * offset_of(toks, n) <= GROWTH * v.input.len()) by (nonlinear_arith)
        requires
            offset_of(toks, n) <= v.input.len(),
    ;
}

/// Without markers, the counters fit whatever a slice of bytes can hold.
pub proof fn lemma_unmarked_fits(v: SanitizerView)
    requires
        v.input.len() <= isize::MAX,
        v.marks.len() <= v.toks().len(),
        forall|i: int| 0 <= i < v.marks.len() ==> !v.marks[i],
    ensures
        v.fits(),
{
    let toks = v.toks();
    let n = v.marks.len() as int;
    lemma_toks_fit(v);
    lemma_output_len(v.policy, v.marks, toks, n);
    if n < toks.len() {
        lemma_offset_bounds(toks, n);
    } else {
        assert(toks.take(n) =~= toks);
    }
}

/// The log after some of the tokens is the beginning of the log after all.
pub proof fn lemma_log_prefix(
    p: PolicyView,
    marks: Seq<bool>,
    mark: bool,
    toks: Seq<TokenView>,
    more: Seq<TokenView>,
    n: int,
)
    requires
        toks.is_prefix_of(more),
        marks.len() <= decided(p, toks),
        decided(p, more) <= n <= more.len(),
    ensures
        decided(p, toks) <= n,
        ({
            let small = filled(marks, mark, decided(p, toks));
            let large = filled(marks, mark, n as nat);
            let front = log_of(p, small, toks, decided(p, toks) as int);
            &&& front == log_of(p, large, more, decided(p, toks) as int)
            &&& front.output.is_prefix_of(log_of(p, large, more, n).output)
        }),
{
    let small = filled(marks, mark, decided(p, toks));
    let large = filled(marks, mark, n as nat);
    assert(toks == more.take(toks.len() as int));
    if toks.len() == more.len() {
        assert(more.take(more.len() as int) =~= more);
    }
    assert(large.take(small.len() as int) =~= small);
    lemma_log_stable(p, small, large, toks, more, decided(p, toks) as int);
    lemma_log_grows(p, large, more, decided(p, toks) as int, n);
}

} // verus!
