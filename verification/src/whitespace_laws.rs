//! Line feeds, tabs and carriage returns: none is lost that may pass.

use vstd::prelude::*;

use crate::bytes::{control_byte, count_of, lemma_count_concat, lemma_count_none, CR, LF, TAB};
use crate::parser_laws::{lemma_offset_bounds, lemma_tokens_ok, offset_of, token_ok, tokens_ok};
use crate::parser_model::TokenView;
use crate::policy_model::PolicyView;
use crate::rescan_laws::{
    complete, crs_paired, lemma_clean_whole, lemma_kept_inner, lemma_no_lone_cr_written, policy_ok,
};
use crate::sanitize_laws::{lemma_marker, lemma_outcome_label};
use crate::sanitize_model::{log_of, outcome, ruling, written, Outcome, SanitizerView};
use crate::spelling_laws::{
    inner_byte, lemma_controls_alone, lemma_tokens_spell_input, spelled, spelled_at, spells,
};

verus! {

/// Of the input that a token was read from, how many bytes are `b`? For
/// whitespace only the token that is the byte has one.
proof fn lemma_count_segment(t: TokenView, segment: Seq<u8>, b: u8)
    requires
        token_ok(t),
        spelled(t, segment),
        !inner_byte(b),
    ensures
        count_of(segment, b) == if t == TokenView::Control(b) {
            1nat
        } else {
            0nat
        },
{
    lemma_controls_alone(t, segment);
    lemma_count_none(segment, b);
    if !(t is Control) {
        assert forall|i: int| 0 <= i < segment.len() implies segment[i] != b by {
            assert(inner_byte(segment[i]));
        }
    }
}

/// Does this byte pass wherever it stands?
pub open spec fn always_passes(p: PolicyView, b: u8) -> bool {
    b == LF || b == TAB || (b == CR && p.allow_lone_cr)
}

/// What is written for a token holds a byte that always passes only where the
/// token is one.
proof fn lemma_count_written(p: PolicyView, mark: bool, toks: Seq<TokenView>, i: int, b: u8)
    requires
        policy_ok(p),
        tokens_ok(toks),
        0 <= i < toks.len(),
        always_passes(p, b),
    ensures
        count_of(written(mark, outcome(p, toks, i)), b) == if toks[i] == TokenView::Control(b) {
            1nat
        } else {
            0nat
        },
{
    let t = toks[i];
    let piece = written(mark, outcome(p, toks, i));
    assert(token_ok(t));
    lemma_count_none(piece, b);
    match outcome(p, toks, i) {
        Outcome::Strip(verdict) => {
            if mark {
                lemma_outcome_label(p, toks, i);
                lemma_marker(verdict.label);
                assert forall|j: int| 0 <= j < piece.len() implies piece[j] != b by {
                    assert(!control_byte(piece[j]));
                }
            }
        },
        _ => {
            reveal(ruling);
            lemma_clean_whole(p, t);
            if !(t is Control) {
                lemma_kept_inner(p, t);
                assert forall|j: int| 0 <= j < piece.len() implies piece[j] != b by {
                    assert(inner_byte(piece[j]));
                }
            }
        },
    }
}

proof fn lemma_count_below(v: SanitizerView, n: int, b: u8)
    requires
        complete(v),
        policy_ok(v.policy),
        0 <= n <= v.toks().len(),
        always_passes(v.policy, b),
    ensures
        offset_of(v.toks(), n) <= v.input.len(),
        count_of(log_of(v.policy, v.marks, v.toks(), n).output, b) == count_of(
            v.input.take(offset_of(v.toks(), n) as int),
            b,
        ),
    decreases n,
{
    let toks = v.toks();
    let input = v.input;
    lemma_tokens_spell_input(input);
    reveal(spells);
    if n == 0 {
        assert(toks.take(0) =~= seq![]);
        assert(input.take(0) =~= seq![]);
    } else {
        let i = n - 1;
        let from = offset_of(toks, i) as int;
        let to = offset_of(toks, n) as int;
        let segment = input.subrange(from, to);
        lemma_count_below(v, i, b);
        lemma_offset_bounds(toks, i);
        lemma_tokens_ok(input);
        assert(token_ok(toks[i]));
        assert(spelled_at(toks, input, i));
        lemma_count_segment(toks[i], segment, b);
        lemma_count_written(v.policy, v.marks[i], toks, i, b);
        assert(input.take(to) =~= input.take(from) + segment);
        lemma_count_concat(input.take(from), segment, b);
        lemma_count_concat(
            log_of(v.policy, v.marks, toks, i).output,
            written(v.marks[i], outcome(v.policy, toks, i)),
            b,
        );
    }
}

/// Every byte that always passes is there.
proof fn lemma_count_whole(v: SanitizerView, b: u8)
    requires
        complete(v),
        policy_ok(v.policy),
        always_passes(v.policy, b),
    ensures
        count_of(v.output(), b) == count_of(v.input, b),
{
    let n = v.toks().len() as int;
    lemma_count_below(v, n, b);
    lemma_tokens_spell_input(v.input);
    reveal(spells);
    assert(v.toks().take(n) =~= v.toks());
    assert(v.input.take(v.input.len() as int) =~= v.input);
}

/// Line feeds and tabs always pass: under every policy the output holds as many
/// of them as the input, whatever is removed around them.
pub proof fn lemma_line_feeds_and_tabs_survive(v: SanitizerView)
    requires
        complete(v),
        policy_ok(v.policy),
    ensures
        count_of(v.output(), LF) == count_of(v.input, LF),
        count_of(v.output(), TAB) == count_of(v.input, TAB),
{
    lemma_count_whole(v, LF);
    lemma_count_whole(v, TAB);
}

/// How many carriage returns have a line feed right after them?
pub open spec fn crlfs(s: Seq<u8>) -> nat
    decreases s.len(),
{
    if s.len() < 2 {
        0
    } else {
        crlfs(s.drop_last()) + if s[s.len() - 2] == CR && s.last() == LF {
            1nat
        } else {
            0nat
        }
    }
}

/// Without a line feed, more bytes make no more pairs.
proof fn lemma_crlfs_plain(p: Seq<u8>, more: Seq<u8>)
    requires
        forall|i: int| 0 <= i < more.len() ==> more[i] != LF,
    ensures
        crlfs(p + more) == crlfs(p),
    decreases more.len(),
{
    if more.len() == 0 {
        assert(p + more =~= p);
    } else {
        let front = more.drop_last();
        assert forall|i: int| 0 <= i < front.len() implies front[i] != LF by {
            assert(front[i] == more[i]);
        }
        lemma_crlfs_plain(p, front);
        assert((p + more).drop_last() =~= p + front);
        assert((p + more).last() == more[more.len() - 1]);
    }
}

/// A line feed makes a pair with a carriage return before it.
proof fn lemma_crlfs_line(p: Seq<u8>)
    ensures
        crlfs(p + seq![LF]) == crlfs(p) + if p.len() > 0 && p.last() == CR {
            1nat
        } else {
            0nat
        },
{
    let all = p + seq![LF];
    assert(all.drop_last() =~= p);
    if p.len() > 0 {
        assert(all[all.len() - 2] == p.last());
    }
}

/// Where every carriage return but a last one has its line feed, each counts as
/// a pair.
proof fn lemma_pairs_counted(s: Seq<u8>)
    requires
        forall|i: int| 0 <= i < s.len() - 1 && #[trigger] s[i] == CR ==> s[i + 1] == LF,
    ensures
        count_of(s, CR) == crlfs(s) + if s.len() > 0 && s.last() == CR {
            1nat
        } else {
            0nat
        },
    decreases s.len(),
{
    if s.len() > 0 {
        let front = s.drop_last();
        assert forall|i: int| 0 <= i < front.len() - 1 && #[trigger] front[i] == CR implies front[i
            + 1] == LF by {
            assert(s[i] == CR);
        }
        lemma_pairs_counted(front);
        if front.len() > 0 {
            assert(s[s.len() - 2] == front.last());
        }
    }
}

/// Does the next token decide that the carriage return before it passes?
spec fn pair_open(toks: Seq<TokenView>, n: int) -> bool {
    &&& 0 < n < toks.len()
    &&& toks[n - 1] == TokenView::Control(CR)
    &&& toks[n] == TokenView::Control(LF)
}

/// What is written for a token holds a carriage return only where the token is
/// one that a line feed follows.
proof fn lemma_cr_written(p: PolicyView, mark: bool, toks: Seq<TokenView>, i: int)
    requires
        policy_ok(p),
        !p.allow_lone_cr,
        tokens_ok(toks),
        0 <= i < toks.len(),
    ensures
        count_of(written(mark, outcome(p, toks, i)), CR) == if pair_open(toks, i + 1) {
            1nat
        } else {
            0nat
        },
{
    let t = toks[i];
    let piece = written(mark, outcome(p, toks, i));
    assert(token_ok(t));
    lemma_count_none(piece, CR);
    match outcome(p, toks, i) {
        Outcome::Strip(verdict) => {
            if mark {
                lemma_outcome_label(p, toks, i);
                lemma_marker(verdict.label);
                assert forall|j: int| 0 <= j < piece.len() implies piece[j] != CR by {
                    assert(!control_byte(piece[j]));
                }
            }
        },
        _ => {
            reveal(ruling);
            lemma_clean_whole(p, t);
            if !(t is Control) {
                lemma_kept_inner(p, t);
                assert forall|j: int| 0 <= j < piece.len() implies piece[j] != CR by {
                    assert(inner_byte(piece[j]));
                }
            }
        },
    }
}

#[verifier::rlimit(40)]
proof fn lemma_crs_below(v: SanitizerView, n: int)
    requires
        complete(v),
        policy_ok(v.policy),
        !v.policy.allow_lone_cr,
        0 <= n <= v.toks().len(),
    ensures
        offset_of(v.toks(), n) <= v.input.len(),
        ({
            let front = v.input.take(offset_of(v.toks(), n) as int);
            &&& count_of(log_of(v.policy, v.marks, v.toks(), n).output, CR) == crlfs(front)
                + if pair_open(v.toks(), n) {
                1nat
            } else {
                0nat
            }
            &&& front.len() > 0 && front.last() == CR <==> n > 0 && v.toks()[n - 1]
                == TokenView::Control(CR)
        }),
    decreases n,
{
    let toks = v.toks();
    let input = v.input;
    lemma_tokens_spell_input(input);
    reveal(spells);
    if n == 0 {
        assert(toks.take(0) =~= seq![]);
        assert(input.take(0) =~= seq![]);
    } else {
        let i = n - 1;
        let from = offset_of(toks, i) as int;
        let to = offset_of(toks, n) as int;
        let front = input.take(from);
        let segment = input.subrange(from, to);
        lemma_crs_below(v, i);
        lemma_offset_bounds(toks, i);
        lemma_tokens_ok(input);
        assert(token_ok(toks[i]));
        assert(spelled_at(toks, input, i));
        lemma_controls_alone(toks[i], segment);
        lemma_cr_written(v.policy, v.marks[i], toks, i);
        assert(input.take(to) =~= front + segment);
        assert(segment.len() > 0);
        assert(input.take(to).last() == segment.last());
        lemma_count_concat(
            log_of(v.policy, v.marks, toks, i).output,
            written(v.marks[i], outcome(v.policy, toks, i)),
            CR,
        );
        if toks[i] == TokenView::Control(LF) {
            lemma_crlfs_line(front);
        } else {
            assert forall|j: int| 0 <= j < segment.len() implies segment[j] != LF by {
                if !(toks[i] is Control) {
                    assert(inner_byte(segment[j]));
                }
            }
            lemma_crlfs_plain(front, segment);
            if !(toks[i] is Control) {
                assert(inner_byte(segment[segment.len() - 1]));
            }
        }
    }
}

/// Carriage returns pass too: all of them where lone ones are allowed, and
/// elsewhere those with a line feed right after them, as pairs, and no others.
pub proof fn lemma_carriage_returns_survive(v: SanitizerView)
    requires
        complete(v),
        policy_ok(v.policy),
    ensures
        v.policy.allow_lone_cr ==> count_of(v.output(), CR) == count_of(v.input, CR),
        !v.policy.allow_lone_cr ==> crs_paired(v.output()) && crlfs(v.output()) == crlfs(v.input)
            && count_of(v.output(), CR) == crlfs(v.input),
{
    if v.policy.allow_lone_cr {
        lemma_count_whole(v, CR);
    } else {
        let n = v.toks().len() as int;
        lemma_crs_below(v, n);
        lemma_tokens_spell_input(v.input);
        reveal(spells);
        assert(v.toks().take(n) =~= v.toks());
        assert(v.input.take(v.input.len() as int) =~= v.input);
        lemma_no_lone_cr_written(v);
        lemma_pairs_counted(v.output());
    }
}

} // verus!
