//! Tokens and the input they were read from: they spell it piece by piece,
//! what is retained is the front of each piece, control bytes stand alone, and
//! text runs are as long as they can be.

use vstd::prelude::*;

use crate::bytes::{
    all_intermediates, all_params, continuation_byte, control_byte, param_byte, BACKSLASH, BEL,
    BRACKET, C1_CSI, C1_ST, ESC,
};
use crate::parser::{MalformedReason, StrKind, CSI_MAX, ESC_INTERM_MAX, STR_MAX};
use crate::parser_laws::{
    all_continuation, lemma_offset_bounds, lemma_plain_run_ok, lemma_plain_settled, lemma_released,
    lemma_released_ok, lemma_run_ok, lemma_start_ok, lemma_tokens_ok, lemma_total_concat,
    lemma_total_one, offset_of, phase_ok, string_shape, string_terminator, token_ok, total_len,
};
use crate::parser_model::{
    all_payload, broken, carries_on, csi_intro, csi_raw, csi_step, escape_step, flush, ground_step,
    payload_byte, plain_flush, plain_run, plain_step, preceded, released, run, start, step,
    string_end, string_intro, string_of_letter, string_raw, string_step, string_token, text_token,
    tokens, Phase, Run, TokenView,
};
use crate::utf8_laws::{lemma_begun_continuation, lemma_textual_push};
use crate::utf8_model::{no_control, no_raw_c1};

verus! {

// --- spelling ---------------------------------------------------------------

/// Is `tail` what is not retained of an overlong string sequence that `end`
/// terminates: payload bytes, and the terminator?
pub open spec fn cut_tail(kind: StrKind, tail: Seq<u8>, end: Seq<u8>) -> bool {
    let n = tail.len() - end.len();
    &&& string_terminator(kind, end)
    &&& n > 0
    &&& tail == tail.take(n) + end
    &&& all_payload(tail.take(n))
}

/// Is `tail` what is not retained of a sequence given up: payload bytes past
/// the cap, and an `ESC` that was held when the input ended?
pub open spec fn given_up_tail(raw: Seq<u8>, tail: Seq<u8>, reason: MalformedReason) -> bool {
    let held = reason == MalformedReason::Truncated && tail.len() > 0 && tail.last() == ESC;
    let dropped = if held {
        tail.drop_last()
    } else {
        tail
    };
    &&& all_payload(dropped)
    &&& dropped.len() > 0 ==> raw.len() > STR_MAX
}

/// Was `t` read from `segment`? The retained bytes stand at its front. They
/// are the whole segment, but for payload past the cap with what follows it,
/// and for an `ESC` held when the input ended.
pub open spec fn spelled(t: TokenView, segment: Seq<u8>) -> bool {
    let tail = segment.skip(t.raw().len() as int);
    &&& segment.len() == t.byte_len()
    &&& t.raw().is_prefix_of(segment)
    &&& match t {
        TokenView::Str { kind, overlong, .. } => if overlong {
            ||| cut_tail(kind, tail, seq![ESC, BACKSLASH])
            ||| cut_tail(kind, tail, seq![C1_ST])
            ||| cut_tail(kind, tail, seq![BEL])
        } else {
            tail.len() == 0
        },
        TokenView::Malformed { raw, reason, .. } => given_up_tail(raw, tail, reason),
        _ => true,
    }
}

/// Was the `i`-th token read from the piece of `bytes` between its offset and
/// that of the next?
pub open spec fn spelled_at(toks: Seq<TokenView>, bytes: Seq<u8>, i: int) -> bool {
    spelled(
        toks[i],
        bytes.subrange(offset_of(toks, i) as int, (offset_of(toks, i) + toks[i].byte_len()) as int),
    )
}

/// Were the tokens read from `bytes`, one after the other, leaving nothing?
#[verifier::opaque]
pub open spec fn spells(toks: Seq<TokenView>, bytes: Seq<u8>) -> bool {
    &&& total_len(toks) == bytes.len()
    &&& forall|i: int| 0 <= i < toks.len() ==> #[trigger] spelled_at(toks, bytes, i)
}

/// Are `bytes` the ones read since the last completed token?
pub open spec fn holds(phase: Phase, bytes: Seq<u8>) -> bool {
    &&& bytes.len() == phase.held()
    &&& match phase {
        Phase::Ground { text, part } => bytes == text + part,
        Phase::Escape { intermediates } => bytes == seq![ESC] + intermediates,
        Phase::Csi { c1, params, intermediates } => bytes == csi_raw(c1, params, intermediates),
        Phase::Str { kind, c1, payload, dropped, esc } => {
            let n = string_raw(kind, c1, payload).len() as int;
            &&& string_raw(kind, c1, payload) == bytes.take(n)
            &&& all_payload(bytes.subrange(n, n + dropped))
            &&& esc ==> bytes.last() == ESC
        },
    }
}

proof fn lemma_spells_none()
    ensures
        spells(seq![], seq![]),
{
    reveal(spells);
}

proof fn lemma_spells_one(t: TokenView, segment: Seq<u8>)
    requires
        spelled(t, segment),
    ensures
        spells(seq![t], segment),
{
    reveal(spells);
    let toks = seq![t];
    lemma_total_one(t);
    lemma_offset_bounds(toks, 0);
    assert(segment.subrange(0, segment.len() as int) =~= segment);
}

/// Tokens read from `a` and then from `b` are read from `a + b`.
proof fn lemma_spells_concat(t1: Seq<TokenView>, a: Seq<u8>, t2: Seq<TokenView>, b: Seq<u8>)
    requires
        spells(t1, a),
        spells(t2, b),
    ensures
        spells(t1 + t2, a + b),
{
    reveal(spells);
    let toks = t1 + t2;
    let bytes = a + b;
    lemma_total_concat(t1, t2);
    assert forall|i: int| 0 <= i < toks.len() implies #[trigger] spelled_at(toks, bytes, i) by {
        if i < t1.len() {
            lemma_offset_bounds(t1, i);
            assert(toks.take(i) =~= t1.take(i));
            assert(spelled_at(t1, a, i));
            let lo = offset_of(t1, i) as int;
            let hi = lo + t1[i].byte_len();
            assert(bytes.subrange(lo, hi) =~= a.subrange(lo, hi));
        } else {
            let j = i - t1.len();
            lemma_offset_bounds(t2, j);
            assert(toks.take(i) =~= t1 + t2.take(j));
            lemma_total_concat(t1, t2.take(j));
            assert(spelled_at(t2, b, j));
            let lo = offset_of(t2, j) as int;
            let hi = lo + t2[j].byte_len();
            assert(bytes.subrange(a.len() + lo, a.len() + hi) =~= b.subrange(lo, hi));
        }
    }
}

/// Tokens read from bytes account for all of them.
proof fn lemma_spells_len(toks: Seq<TokenView>, bytes: Seq<u8>)
    requires
        spells(toks, bytes),
    ensures
        total_len(toks) == bytes.len(),
{
    reveal(spells);
}

proof fn lemma_spells_text(text: Seq<u8>)
    ensures
        spells(text_token(text), text),
{
    if text.len() > 0 {
        lemma_spells_one(TokenView::Text(text), text);
    } else {
        assert(text =~= seq![]);
        lemma_spells_none();
    }
}

/// `bytes` splits into what the tokens of `r` were read from and what its
/// phase holds.
spec fn reads(r: Run, bytes: Seq<u8>) -> bool {
    let n = total_len(r.tokens) as int;
    &&& n <= bytes.len()
    &&& spells(r.tokens, bytes.take(n))
    &&& holds(r.phase, bytes.skip(n))
}

/// Tokens before a run, read from the bytes before it.
proof fn lemma_reads_preceded(earlier: Seq<TokenView>, a: Seq<u8>, r: Run, b: Seq<u8>)
    requires
        spells(earlier, a),
        reads(r, b),
    ensures
        reads(preceded(earlier, r), a + b),
{
    let n = total_len(r.tokens) as int;
    lemma_spells_len(earlier, a);
    lemma_total_concat(earlier, r.tokens);
    lemma_spells_concat(earlier, a, r.tokens, b.take(n));
    assert((a + b).take(a.len() + n) =~= a + b.take(n));
    assert((a + b).skip(a.len() + n) =~= b.skip(n));
}

/// Tokens that leave the parser at the start of a text run.
proof fn lemma_reads_complete(toks: Seq<TokenView>, bytes: Seq<u8>)
    requires
        spells(toks, bytes),
    ensures
        reads(Run { phase: start(), tokens: toks }, bytes),
{
    let n = total_len(toks) as int;
    lemma_spells_len(toks, bytes);
    assert(bytes.take(n) =~= bytes);
    assert(bytes.skip(n) =~= seq![]);
}

proof fn lemma_reads_held(phase: Phase, bytes: Seq<u8>)
    requires
        holds(phase, bytes),
    ensures
        reads(Run { phase, tokens: seq![] }, bytes),
{
    assert(bytes.take(0) =~= seq![]);
    assert(bytes.skip(0) =~= bytes);
    lemma_spells_none();
}

/// A token whose bytes are all retained is spelled by them.
proof fn lemma_spelled_whole(t: TokenView)
    requires
        t.raw().len() == t.byte_len(),
        t matches TokenView::Str { overlong, .. } ==> !overlong,
    ensures
        spelled(t, t.raw()),
{
    let raw = t.raw();
    assert(raw.take(raw.len() as int) =~= raw);
    assert(raw.skip(raw.len() as int) =~= seq![]);
    assert(raw.subrange(0, raw.len() as int) =~= raw);
}

proof fn lemma_ground_reads(text: Seq<u8>, b: u8)
    ensures
        reads(ground_step(text, b), text.push(b)),
{
    let r = ground_step(text, b);
    lemma_spells_text(text);
    assert(text.push(b) =~= text + seq![b]);
    if r.phase is Ground && r.tokens.len() == 0 {
        if r.phase->part.len() > 0 {
            assert(r.phase->part =~= seq![b]);
        } else {
            assert(r.phase->text + r.phase->part =~= text.push(b));
        }
        lemma_reads_held(r.phase, text.push(b));
    } else if r.phase is Ground {
        let t = if control_byte(b) {
            TokenView::Control(b)
        } else {
            TokenView::C1(b)
        };
        lemma_spelled_whole(t);
        lemma_spells_one(t, seq![b]);
        lemma_spells_concat(text_token(text), text, seq![t], seq![b]);
        assert(text_token(text).push(t) =~= text_token(text) + seq![t]);
        lemma_reads_complete(r.tokens, text.push(b));
    } else {
        assert(holds(r.phase, seq![b])) by {
            assert(seq![ESC] + Seq::<u8>::empty() =~= seq![ESC]);
            assert(csi_raw(true, seq![], seq![]) =~= seq![C1_CSI]);
            if r.phase is Str {
                let kind = r.phase->kind;
                assert(string_intro(kind, true) =~= seq![b]);
                assert(string_raw(kind, true, seq![]) =~= seq![b]);
                assert(seq![b].take(1) =~= seq![b]);
            }
        }
        lemma_reads_held(r.phase, seq![b]);
        lemma_reads_preceded(text_token(text), text, Run { phase: r.phase, tokens: seq![] }, seq![b]);
        assert(text_token(text) + Seq::<TokenView>::empty() =~= text_token(text));
    }
}

/// A sequence broken off by `b`, which is read on its own.
proof fn lemma_broken_reads(t: TokenView, segment: Seq<u8>, b: u8)
    requires
        spelled(t, segment),
    ensures
        reads(preceded(seq![t], ground_step(seq![], b)), segment.push(b)),
{
    lemma_spells_one(t, segment);
    lemma_ground_reads(seq![], b);
    assert(Seq::<u8>::empty().push(b) =~= seq![b]);
    lemma_reads_preceded(seq![t], segment, ground_step(seq![], b), seq![b]);
    assert(segment + seq![b] =~= segment.push(b));
}

proof fn lemma_escape_reads(intermediates: Seq<u8>, b: u8)
    ensures
        reads(escape_step(intermediates, b), (seq![ESC] + intermediates).push(b)),
{
    let r = escape_step(intermediates, b);
    let raw = seq![ESC] + intermediates;
    let all = raw.push(b);
    if control_byte(b) || b >= 0x80 {
        let t = broken(
            raw,
            if b >= 0xA0 {
                MalformedReason::BadByte
            } else {
                MalformedReason::AbortedByControl
            },
        );
        lemma_spelled_whole(t);
        lemma_broken_reads(t, raw, b);
    } else if r.tokens.len() > 0 {
        assert(r.tokens =~= seq![r.tokens[0]]);
        lemma_spelled_whole(r.tokens[0]);
        lemma_spells_one(r.tokens[0], all);
        lemma_reads_complete(r.tokens, all);
    } else {
        assert(all =~= seq![ESC] + intermediates.push(b));
        if intermediates.len() == 0 {
            assert(all =~= seq![ESC, b]);
            assert(csi_raw(false, seq![], seq![]) =~= seq![ESC, BRACKET]);
            if r.phase is Str {
                assert(string_raw(r.phase->kind, false, seq![]) =~= seq![ESC, b]);
                assert(all.take(2) =~= all);
            }
        }
        lemma_reads_held(r.phase, all);
    }
}

proof fn lemma_csi_reads(c1: bool, params: Seq<u8>, intermediates: Seq<u8>, b: u8)
    ensures
        reads(
            csi_step(c1, params, intermediates, b),
            csi_raw(c1, params, intermediates).push(b),
        ),
{
    let r = csi_step(c1, params, intermediates, b);
    let raw = csi_raw(c1, params, intermediates);
    let all = raw.push(b);
    let full = csi_raw(false, params, intermediates).len() >= CSI_MAX;
    if control_byte(b) || b >= 0x80 || (!full && param_byte(b) && intermediates.len() > 0) {
        let t = broken(
            raw,
            if control_byte(b) {
                MalformedReason::AbortedByControl
            } else {
                MalformedReason::BadByte
            },
        );
        lemma_spelled_whole(t);
        lemma_broken_reads(t, raw, b);
    } else if r.tokens.len() > 0 {
        assert(r.tokens =~= seq![r.tokens[0]]);
        lemma_spelled_whole(r.tokens[0]);
        lemma_spells_one(r.tokens[0], all);
        lemma_reads_complete(r.tokens, all);
    } else {
        if param_byte(b) {
            assert(intermediates =~= seq![]);
            assert(all =~= csi_raw(c1, params.push(b), intermediates));
        } else {
            assert(all =~= csi_raw(c1, params, intermediates.push(b)));
        }
        lemma_reads_held(r.phase, all);
    }
}

/// A string sequence given up, read from the bytes held of it.
proof fn lemma_given_up_spelled(
    kind: StrKind,
    c1: bool,
    payload: Seq<u8>,
    dropped: nat,
    bytes: Seq<u8>,
    reason: MalformedReason,
)
    requires
        phase_ok(Phase::Str { kind, c1, payload, dropped, esc: false }),
        holds(Phase::Str { kind, c1, payload, dropped, esc: false }, bytes),
    ensures
        ({
            let raw = string_raw(kind, c1, payload);
            spelled(TokenView::Malformed { raw, len: raw.len() + dropped, reason }, bytes)
        }),
{
    let raw = string_raw(kind, c1, payload);
    let n = raw.len() as int;
    let tail = bytes.skip(n);
    assert(tail =~= bytes.subrange(n, n + dropped));
    assert(bytes.subrange(0, n) =~= bytes.take(n));
    if tail.len() > 0 {
        assert(payload_byte(tail[tail.len() - 1]));
    }
}

/// A string sequence read to its end.
proof fn lemma_ended_spelled(
    kind: StrKind,
    c1: bool,
    payload: Seq<u8>,
    dropped: nat,
    bytes: Seq<u8>,
    end: Seq<u8>,
)
    requires
        phase_ok(Phase::Str { kind, c1, payload, dropped, esc: false }),
        holds(Phase::Str { kind, c1, payload, dropped, esc: false }, bytes),
        string_terminator(kind, end),
    ensures
        spelled(string_token(kind, c1, payload, dropped, end), bytes + end),
{
    let raw = string_raw(kind, c1, payload);
    let n = raw.len() as int;
    let all = bytes + end;
    let t = string_token(kind, c1, payload, dropped, end);
    if dropped == 0 {
        assert(bytes =~= raw) by {
            assert(bytes.take(n) =~= bytes);
        }
        lemma_spelled_whole(t);
    } else {
        let tail = all.skip(n);
        assert(all.subrange(0, n) =~= bytes.take(n));
        assert(tail.take(tail.len() - end.len()) =~= bytes.subrange(n, n + dropped));
        assert(tail =~= tail.take(tail.len() - end.len()) + end);
        assert(cut_tail(kind, tail, end));
        if end.len() == 1 {
            assert(end =~= seq![C1_ST] || end =~= seq![BEL]);
        }
    }
}

proof fn lemma_string_reads(
    kind: StrKind,
    c1: bool,
    payload: Seq<u8>,
    dropped: nat,
    esc: bool,
    b: u8,
    bytes: Seq<u8>,
)
    requires
        phase_ok(Phase::Str { kind, c1, payload, dropped, esc }),
        holds(Phase::Str { kind, c1, payload, dropped, esc }, bytes),
    ensures
        reads(string_step(kind, c1, payload, dropped, esc, b), bytes.push(b)),
{
    let r = string_step(kind, c1, payload, dropped, esc, b);
    let raw = string_raw(kind, c1, payload);
    let n = raw.len() as int;
    let all = bytes.push(b);
    let len = raw.len() + dropped;
    let aborted = TokenView::Malformed { raw, len, reason: MalformedReason::AbortedByControl };
    if esc {
        let front = bytes.drop_last();
        assert(front.take(n) =~= bytes.take(n));
        assert(front.subrange(n, n + dropped) =~= bytes.subrange(n, n + dropped));
        if b == BACKSLASH {
            let end = seq![ESC, BACKSLASH];
            let t = string_token(kind, c1, payload, dropped, end);
            lemma_ended_spelled(kind, c1, payload, dropped, front, end);
            assert(front + end =~= all);
            assert(r.tokens =~= seq![t]);
            lemma_spells_one(t, all);
            lemma_reads_complete(r.tokens, all);
        } else {
            lemma_given_up_spelled(kind, c1, payload, dropped, front, aborted->reason);
            lemma_spells_one(aborted, front);
            lemma_escape_reads(seq![], b);
            assert((seq![ESC] + Seq::<u8>::empty()).push(b) =~= seq![ESC, b]);
            lemma_reads_preceded(seq![aborted], front, escape_step(seq![], b), seq![ESC, b]);
            assert(front + seq![ESC, b] =~= all);
        }
    } else if b == ESC {
        assert(all.take(n) =~= bytes.take(n));
        assert(all.subrange(n, n + dropped) =~= bytes.subrange(n, n + dropped));
        lemma_reads_held(r.phase, all);
    } else if string_end(kind, b) {
        let end = seq![b];
        let t = string_token(kind, c1, payload, dropped, end);
        lemma_ended_spelled(kind, c1, payload, dropped, bytes, end);
        assert(bytes + end =~= all);
        assert(r.tokens =~= seq![t]);
        lemma_spells_one(t, all);
        lemma_reads_complete(r.tokens, all);
    } else if !payload_byte(b) {
        lemma_given_up_spelled(kind, c1, payload, dropped, bytes, aborted->reason);
        lemma_broken_reads(aborted, bytes, b);
    } else {
        if payload.len() < STR_MAX {
            assert(bytes.take(n) =~= bytes);
            assert(string_raw(kind, c1, payload.push(b)) =~= raw.push(b));
            assert(all =~= raw.push(b));
            assert(all.take(n + 1) =~= all);
        } else {
            assert(all.take(n) =~= bytes.take(n));
            assert(all.subrange(n, n + dropped + 1) =~= bytes.subrange(n, n + dropped).push(b));
        }
        lemma_reads_held(r.phase, all);
    }
}

proof fn lemma_plain_reads(phase: Phase, bytes: Seq<u8>, b: u8)
    requires
        phase_ok(phase),
        phase.settled(),
        holds(phase, bytes),
    ensures
        reads(plain_step(phase, b), bytes.push(b)),
{
    match phase {
        Phase::Ground { text, part } => {
            assert(bytes =~= text);
            lemma_ground_reads(text, b);
        },
        Phase::Escape { intermediates } => lemma_escape_reads(intermediates, b),
        Phase::Csi { c1, params, intermediates } => lemma_csi_reads(c1, params, intermediates, b),
        Phase::Str { kind, c1, payload, dropped, esc } => lemma_string_reads(
            kind,
            c1,
            payload,
            dropped,
            esc,
            b,
            bytes,
        ),
    }
}

/// One more byte where no character is begun.
proof fn lemma_plain_more(r: Run, bytes: Seq<u8>, b: u8)
    requires
        phase_ok(r.phase),
        r.phase.settled(),
        reads(r, bytes),
    ensures
        reads(preceded(r.tokens, plain_step(r.phase, b)), bytes.push(b)),
{
    let n = total_len(r.tokens) as int;
    let held = bytes.skip(n);
    lemma_plain_reads(r.phase, held, b);
    lemma_reads_preceded(r.tokens, bytes.take(n), plain_step(r.phase, b), held.push(b));
    assert(bytes.take(n) + held.push(b) =~= bytes.push(b));
}

proof fn lemma_plain_run_reads(phase: Phase, bytes: Seq<u8>, input: Seq<u8>)
    requires
        phase_ok(phase),
        phase.settled(),
        all_continuation(input),
        holds(phase, bytes),
    ensures
        reads(plain_run(phase, input), bytes + input),
    decreases input.len(),
{
    if input.len() == 0 {
        assert(bytes + input =~= bytes);
        lemma_reads_held(phase, bytes);
    } else {
        let front = input.drop_last();
        lemma_plain_run_reads(phase, bytes, front);
        lemma_plain_run_ok(phase, front);
        lemma_plain_settled(phase, front);
        lemma_plain_more(plain_run(phase, front), bytes + front, input.last());
        assert((bytes + front).push(input.last()) =~= bytes + input);
    }
}

/// Giving up on a begun character reads what was held of it.
proof fn lemma_released_reads(phase: Phase, bytes: Seq<u8>)
    requires
        phase_ok(phase),
        holds(phase, bytes),
    ensures
        reads(released(phase), bytes),
{
    lemma_reads_held(phase, bytes);
    if let Phase::Ground { text, part } = phase {
        if part.len() > 0 {
            let from = Phase::Ground { text: text.push(part[0]), part: seq![] };
            let rest = part.skip(1);
            assert forall|i: int| 0 <= i < rest.len() implies continuation_byte(
                #[trigger] rest[i],
            ) by {
                lemma_begun_continuation(part, i + 1);
            }
            lemma_textual_push(text, part[0]);
            assert(text.push(part[0]) + Seq::<u8>::empty() =~= text.push(part[0]));
            lemma_plain_run_reads(from, text.push(part[0]), rest);
            assert(text.push(part[0]) + rest =~= bytes);
        }
    }
}

/// One more byte.
proof fn lemma_step_reads(phase: Phase, bytes: Seq<u8>, b: u8)
    requires
        phase_ok(phase),
        holds(phase, bytes),
    ensures
        reads(step(phase, b), bytes.push(b)),
{
    if carries_on(phase, b) {
        let next = step(phase, b).phase;
        assert(next->text + next->part =~= bytes.push(b));
        lemma_reads_held(next, bytes.push(b));
    } else {
        lemma_released(phase);
        lemma_released_ok(phase);
        lemma_released_reads(phase, bytes);
        lemma_plain_more(released(phase), bytes, b);
    }
}

/// One more byte after what was read.
proof fn lemma_reads_more(r: Run, bytes: Seq<u8>, b: u8)
    requires
        phase_ok(r.phase),
        reads(r, bytes),
    ensures
        reads(preceded(r.tokens, step(r.phase, b)), bytes.push(b)),
{
    let n = total_len(r.tokens) as int;
    let held = bytes.skip(n);
    lemma_step_reads(r.phase, held, b);
    lemma_reads_preceded(r.tokens, bytes.take(n), step(r.phase, b), held.push(b));
    assert(bytes.take(n) + held.push(b) =~= bytes.push(b));
}

proof fn lemma_run_reads(input: Seq<u8>)
    ensures
        reads(run(start(), input), input),
    decreases input.len(),
{
    if input.len() == 0 {
        assert(input =~= seq![]);
        assert(Seq::<u8>::empty() + Seq::<u8>::empty() =~= seq![]);
        lemma_reads_held(start(), input);
    } else {
        let front = input.drop_last();
        lemma_run_reads(front);
        lemma_start_ok();
        lemma_run_ok(start(), front);
        lemma_reads_more(run(start(), front), front, input.last());
        assert(front.push(input.last()) =~= input);
    }
}

/// The end of input reads what is held.
proof fn lemma_flush_spells(phase: Phase, bytes: Seq<u8>)
    requires
        phase_ok(phase),
        phase.settled(),
        holds(phase, bytes),
    ensures
        spells(plain_flush(phase), bytes),
{
    match phase {
        Phase::Ground { text, part } => {
            assert(bytes =~= text);
            lemma_spells_text(text);
        },
        _ => {
            let t = plain_flush(phase)[0];
            assert(plain_flush(phase) =~= seq![t]);
            if let Phase::Str { kind, c1, payload, dropped, esc } = phase {
                let raw = string_raw(kind, c1, payload);
                let n = raw.len() as int;
                if esc {
                    let front = bytes.drop_last();
                    assert(front.take(n) =~= bytes.take(n));
                    assert(front.subrange(n, n + dropped) =~= bytes.subrange(n, n + dropped));
                    lemma_given_up_spelled(
                        kind,
                        c1,
                        payload,
                        dropped,
                        front,
                        MalformedReason::Truncated,
                    );
                    assert(bytes.skip(n).drop_last() =~= front.skip(n));
                    assert(bytes.subrange(0, n) =~= front.subrange(0, n));
                    if dropped > 0 {
                        assert(payload_byte(front.skip(n)[front.skip(n).len() - 1]));
                    }
                } else {
                    lemma_given_up_spelled(
                        kind,
                        c1,
                        payload,
                        dropped,
                        bytes,
                        MalformedReason::Truncated,
                    );
                }
            } else {
                lemma_spelled_whole(t);
            }
            lemma_spells_one(t, bytes);
        },
    }
}

/// The tokens of an input spell it: cut at the token offsets, each piece of
/// the input is what its token was read from.
pub proof fn lemma_tokens_spell_input(input: Seq<u8>)
    ensures
        spells(tokens(input), input),
{
    let r = run(start(), input);
    lemma_run_reads(input);
    lemma_start_ok();
    lemma_run_ok(start(), input);
    let n = total_len(r.tokens) as int;
    let rest = input.skip(n);
    let last = released(r.phase);
    let m = total_len(last.tokens) as int;
    lemma_released(r.phase);
    lemma_released_ok(r.phase);
    lemma_released_reads(r.phase, rest);
    lemma_flush_spells(last.phase, rest.skip(m));
    lemma_spells_concat(last.tokens, rest.take(m), plain_flush(last.phase), rest.skip(m));
    assert(rest.take(m) + rest.skip(m) =~= rest);
    lemma_spells_concat(r.tokens, input.take(n), flush(r.phase), rest);
    assert(input.take(n) + rest =~= input);
}

/// A token that is neither malformed nor overlong was read from the bytes that
/// are retained of it.
pub proof fn lemma_whole_token(t: TokenView, segment: Seq<u8>)
    requires
        token_ok(t),
        spelled(t, segment),
        !(t is Malformed),
        t matches TokenView::Str { overlong, .. } ==> !overlong,
    ensures
        segment == t.raw(),
{
    assert(segment.subrange(0, segment.len() as int) =~= segment);
}

/// The piece of the input that the `i`-th token was read from.
pub open spec fn piece_of(input: Seq<u8>, i: int) -> Seq<u8> {
    let from = offset_of(tokens(input), i) as int;
    input.subrange(from, from + tokens(input)[i].byte_len())
}

/// What is retained of a token is the front of its piece of the input. It is
/// all of the piece unless payload past the cap was dropped, or an `ESC` was
/// held back when the input ended.
pub proof fn lemma_retained_is_front(input: Seq<u8>, i: int)
    requires
        0 <= i < tokens(input).len(),
    ensures
        offset_of(tokens(input), i) + tokens(input)[i].byte_len() <= input.len(),
        tokens(input)[i].raw().is_prefix_of(piece_of(input, i)),
        match tokens(input)[i] {
            TokenView::Str { payload, raw, overlong, .. } => if overlong {
                payload.len() == STR_MAX && raw.len() < piece_of(input, i).len()
            } else {
                raw == piece_of(input, i)
            },
            TokenView::Malformed { raw, reason, .. } => {
                ||| raw == piece_of(input, i)
                ||| raw.len() > STR_MAX
                ||| reason == MalformedReason::Truncated && piece_of(input, i) == raw.push(ESC)
            },
            t => t.raw() == piece_of(input, i),
        },
{
    let toks = tokens(input);
    let t = toks[i];
    let piece = piece_of(input, i);
    lemma_tokens_spell_input(input);
    lemma_tokens_ok(input);
    lemma_offset_bounds(toks, i);
    assert(token_ok(t));
    assert(spelled_at(toks, input, i) && total_len(toks) == input.len()) by {
        reveal(spells);
    }
    let raw = t.raw();
    let tail = piece.skip(raw.len() as int);
    assert(piece.subrange(0, raw.len() as int) =~= raw);
    assert(piece =~= raw + tail);
    if tail.len() == 0 {
        assert(raw =~= piece);
    } else if let TokenView::Malformed { reason, .. } = t {
        if raw.len() <= STR_MAX {
            assert(tail =~= seq![ESC]);
            assert(piece =~= raw.push(ESC));
        }
    }
}

/// What is dropped past the cap is payload too: of an overlong string sequence
/// payload bytes and then the terminator, of one given up payload bytes and at
/// most an `ESC` that was held back when the input ended.
pub proof fn lemma_dropped_is_payload(input: Seq<u8>, i: int)
    requires
        0 <= i < tokens(input).len(),
    ensures
        ({
            let t = tokens(input)[i];
            let tail = piece_of(input, i).skip(t.raw().len() as int);
            match t {
                TokenView::Str { kind, overlong, .. } => overlong ==> {
                    ||| cut_tail(kind, tail, seq![ESC, BACKSLASH])
                    ||| cut_tail(kind, tail, seq![C1_ST])
                    ||| cut_tail(kind, tail, seq![BEL])
                },
                TokenView::Malformed { raw, reason, .. } => given_up_tail(raw, tail, reason),
                _ => tail.len() == 0,
            }
        }),
{
    let toks = tokens(input);
    lemma_tokens_spell_input(input);
    assert(spelled_at(toks, input, i)) by {
        reveal(spells);
    }
}

// --- control bytes ----------------------------------------------------------

/// May `b` stand inside a longer token? Of the control bytes only `ESC` and
/// `BEL` may, which open and end sequences.
pub open spec fn inner_byte(b: u8) -> bool {
    control_byte(b) ==> b == ESC || b == BEL
}

/// Are these all bytes that may stand inside a longer token?
pub open spec fn all_inner(s: Seq<u8>) -> bool {
    forall|i: int| 0 <= i < s.len() ==> inner_byte(#[trigger] s[i])
}

proof fn lemma_inner_concat(a: Seq<u8>, b: Seq<u8>)
    requires
        all_inner(a),
        all_inner(b),
    ensures
        all_inner(a + b),
{
}

proof fn lemma_payload_inner(s: Seq<u8>)
    requires
        all_payload(s),
    ensures
        all_inner(s),
{
    assert forall|i: int| 0 <= i < s.len() implies inner_byte(#[trigger] s[i]) by {
        assert(payload_byte(s[i]));
    }
}

proof fn lemma_string_inner(kind: StrKind, c1: bool, payload: Seq<u8>, end: Seq<u8>)
    requires
        all_payload(payload),
        string_terminator(kind, end),
    ensures
        all_inner(string_raw(kind, c1, payload)),
        all_inner(string_raw(kind, c1, payload) + end),
        all_inner(end),
{
    lemma_payload_inner(payload);
    assert(all_inner(string_intro(kind, c1)));
    lemma_inner_concat(string_intro(kind, c1), payload);
    assert(all_inner(end));
    lemma_inner_concat(string_raw(kind, c1, payload), end);
}

/// What is retained of a token that is no single control byte.
pub proof fn lemma_raw_inner(t: TokenView)
    requires
        token_ok(t),
        !(t is Control),
    ensures
        all_inner(t.raw()),
{
    match t {
        TokenView::Csi { params, intermediates, final_byte, raw } => {
            assert forall|i: int| 0 <= i < raw.len() implies inner_byte(#[trigger] raw[i]) by {
                let intro = csi_intro(raw[0] != ESC).len();
                if intro <= i < intro + params.len() {
                    assert(param_byte(params[i - intro]));
                }
            }
        },
        TokenView::Str { kind, payload, raw, len, overlong } => {
            let c1 = raw[0] != ESC;
            if string_shape(kind, payload, raw, len, overlong, seq![ESC, BACKSLASH]) {
                lemma_string_inner(kind, c1, payload, seq![ESC, BACKSLASH]);
            } else if string_shape(kind, payload, raw, len, overlong, seq![C1_ST]) {
                lemma_string_inner(kind, c1, payload, seq![C1_ST]);
            } else {
                lemma_string_inner(kind, c1, payload, seq![BEL]);
            }
        },
        TokenView::Malformed { raw, .. } => {
            assert forall|i: int| 0 <= i < raw.len() implies inner_byte(#[trigger] raw[i]) by {
                if i > 0 {
                    assert(!control_byte(raw[i]));
                }
            }
        },
        _ => {},
    }
}

proof fn lemma_cut_inner(kind: StrKind, tail: Seq<u8>, end: Seq<u8>)
    requires
        cut_tail(kind, tail, end),
    ensures
        all_inner(tail),
{
    let front = tail.take(tail.len() - end.len());
    lemma_payload_inner(front);
    assert(all_inner(end));
    lemma_inner_concat(front, end);
}

/// Control bytes stand alone: of the input that a token was read from, no byte
/// is a control byte other than `ESC` and `BEL`, unless it is the whole token.
pub proof fn lemma_controls_alone(t: TokenView, segment: Seq<u8>)
    requires
        token_ok(t),
        spelled(t, segment),
    ensures
        t matches TokenView::Control(b) ==> segment == seq![b],
        !(t is Control) ==> all_inner(segment),
{
    let raw = t.raw();
    let tail = segment.skip(raw.len() as int);
    assert(segment =~= raw + tail);
    if t is Control {
        assert(segment =~= raw);
    } else {
        lemma_raw_inner(t);
        match t {
            TokenView::Str { kind, overlong, .. } => {
                if overlong {
                    if cut_tail(kind, tail, seq![ESC, BACKSLASH]) {
                        lemma_cut_inner(kind, tail, seq![ESC, BACKSLASH]);
                    } else if cut_tail(kind, tail, seq![C1_ST]) {
                        lemma_cut_inner(kind, tail, seq![C1_ST]);
                    } else {
                        lemma_cut_inner(kind, tail, seq![BEL]);
                    }
                }
            },
            TokenView::Malformed { reason, .. } => {
                if reason == MalformedReason::Truncated && tail.len() > 0 && tail.last() == ESC {
                    lemma_payload_inner(tail.drop_last());
                    lemma_inner_concat(tail.drop_last(), seq![ESC]);
                    assert(tail =~= tail.drop_last() + seq![ESC]);
                } else {
                    lemma_payload_inner(tail);
                }
            },
            _ => {},
        }
        lemma_inner_concat(raw, tail);
    }
}

/// A token that starts with a control byte other than `ESC` is that byte.
pub proof fn lemma_control_first(t: TokenView, segment: Seq<u8>)
    requires
        token_ok(t),
        spelled(t, segment),
        control_byte(segment[0]),
        segment[0] != ESC,
    ensures
        t == TokenView::Control(segment[0]),
{
    let raw = t.raw();
    assert(raw.len() > 0);
    assert(segment.take(raw.len() as int) =~= raw);
    assert(raw[0] == segment[0]);
    if let TokenView::Str { kind, payload, .. } = t {
        assert(raw[0] == string_raw(kind, raw[0] != ESC, payload)[0]);
    }
}

/// The token that the input byte at `x` belongs to.
pub proof fn lemma_token_at(toks: Seq<TokenView>, input: Seq<u8>, x: int) -> (i: int)
    requires
        spells(toks, input),
        0 <= x < input.len(),
    ensures
        0 <= i < toks.len(),
        offset_of(toks, i) <= x < offset_of(toks, i) + toks[i].byte_len(),
        offset_of(toks, i) + toks[i].byte_len() <= input.len(),
        spelled_at(toks, input, i),
{
    lemma_spells_len(toks, input);
    assert(toks.take(toks.len() as int) =~= toks);
    let i = lemma_token_before(toks, toks.len() as int, x);
    reveal(spells);
    assert(spelled_at(toks, input, i));
    lemma_offset_bounds(toks, i);
    i
}

/// A control byte other than `ESC` and `BEL` is a token of its own.
pub proof fn lemma_control_token(input: Seq<u8>, x: int) -> (i: int)
    requires
        0 <= x < input.len(),
        !inner_byte(input[x]),
    ensures
        0 <= i < tokens(input).len(),
        tokens(input)[i] == TokenView::Control(input[x]),
        offset_of(tokens(input), i) == x,
{
    let toks = tokens(input);
    lemma_tokens_spell_input(input);
    lemma_tokens_ok(input);
    let i = lemma_token_at(toks, input, x);
    let piece = piece_of(input, i);
    let j = x - offset_of(toks, i);
    assert(token_ok(toks[i]));
    assert(piece[j] == input[x]);
    lemma_controls_alone(toks[i], piece);
    if !(toks[i] is Control) {
        assert(inner_byte(piece[j]));
    }
    i
}

proof fn lemma_token_before(toks: Seq<TokenView>, n: int, x: int) -> (i: int)
    requires
        0 <= n <= toks.len(),
        0 <= x < offset_of(toks, n),
    ensures
        0 <= i < n,
        offset_of(toks, i) <= x < offset_of(toks, i) + toks[i].byte_len(),
    decreases n,
{
    assert(toks.take(0) =~= seq![]);
    lemma_offset_bounds(toks, n - 1);
    if offset_of(toks, n - 1) <= x {
        n - 1
    } else {
        lemma_token_before(toks, n - 1, x)
    }
}

// --- text runs --------------------------------------------------------------

/// Is no text token followed by another?
pub open spec fn texts_apart(toks: Seq<TokenView>) -> bool {
    forall|i: int|
        0 <= i < toks.len() - 1 ==> !(#[trigger] toks[i] is Text && toks[i + 1] is Text)
}

/// Tokens after which text may follow only where the parser left the text.
spec fn run_apart(r: Run) -> bool {
    &&& texts_apart(r.tokens)
    &&& r.tokens.len() > 0 && r.tokens.last() is Text ==> !(r.phase is Ground)
}

/// A run that starts with text only where the parser was at text.
spec fn starts_apart(from: Phase, r: Run) -> bool {
    &&& run_apart(r)
    &&& r.tokens.len() > 0 && r.tokens[0] is Text ==> from is Ground
}

proof fn lemma_apart_join(from: Phase, a: Run, b: Run)
    requires
        starts_apart(from, a),
        starts_apart(a.phase, b),
        a.tokens.len() == 0 ==> (a.phase is Ground ==> from is Ground),
        a.tokens.len() > 0 && a.tokens.last() is Text && b.tokens.len() == 0 ==> !(
        b.phase is Ground),
    ensures
        starts_apart(from, preceded(a.tokens, b)),
{
    let all = a.tokens + b.tokens;
    assert forall|i: int| 0 <= i < all.len() - 1 implies !(#[trigger] all[i] is Text && all[i
        + 1] is Text) by {
        if i + 1 < a.tokens.len() {
            assert(all[i] == a.tokens[i]);
        } else if i >= a.tokens.len() {
            assert(all[i] == b.tokens[i - a.tokens.len()]);
        }
    }
}

proof fn lemma_ground_apart(text: Seq<u8>, b: u8)
    ensures
        starts_apart(Phase::Ground { text, part: seq![] }, ground_step(text, b)),
        text.len() == 0 && ground_step(text, b).tokens.len() > 0 ==> !(ground_step(
            text,
            b,
        ).tokens[0] is Text),
{
}

proof fn lemma_escape_apart(from: Phase, intermediates: Seq<u8>, b: u8)
    ensures
        starts_apart(from, escape_step(intermediates, b)),
        escape_step(intermediates, b).phase is Ground ==> escape_step(
            intermediates,
            b,
        ).tokens.len() > 0,
        forall|i: int|
            0 <= i < escape_step(intermediates, b).tokens.len() ==> !(#[trigger] escape_step(
                intermediates,
                b,
            ).tokens[i] is Text),
{
}

proof fn lemma_csi_apart(from: Phase, c1: bool, params: Seq<u8>, intermediates: Seq<u8>, b: u8)
    ensures
        starts_apart(from, csi_step(c1, params, intermediates, b)),
        csi_step(c1, params, intermediates, b).phase is Ground ==> csi_step(
            c1,
            params,
            intermediates,
            b,
        ).tokens.len() > 0,
{
    let r = csi_step(c1, params, intermediates, b);
    assert(forall|i: int| 0 <= i < r.tokens.len() ==> !(#[trigger] r.tokens[i] is Text));
}

proof fn lemma_string_apart(
    from: Phase,
    kind: StrKind,
    c1: bool,
    payload: Seq<u8>,
    dropped: nat,
    esc: bool,
    b: u8,
)
    ensures
        starts_apart(from, string_step(kind, c1, payload, dropped, esc, b)),
        string_step(kind, c1, payload, dropped, esc, b).phase is Ground ==> string_step(
            kind,
            c1,
            payload,
            dropped,
            esc,
            b,
        ).tokens.len() > 0,
{
    let r = string_step(kind, c1, payload, dropped, esc, b);
    lemma_escape_apart(from, seq![], b);
    assert(forall|i: int| 0 <= i < r.tokens.len() ==> !(#[trigger] r.tokens[i] is Text));
}

/// A byte read on its own keeps text tokens apart. A sequence is left only by
/// a token that is no text.
proof fn lemma_plain_apart(phase: Phase, b: u8)
    ensures
        starts_apart(phase, plain_step(phase, b)),
        !(phase is Ground) && plain_step(phase, b).phase is Ground ==> plain_step(
            phase,
            b,
        ).tokens.len() > 0,
{
    match phase {
        Phase::Ground { text, .. } => lemma_ground_apart(text, b),
        Phase::Escape { intermediates } => lemma_escape_apart(phase, intermediates, b),
        Phase::Csi { c1, params, intermediates } => lemma_csi_apart(
            phase,
            c1,
            params,
            intermediates,
            b,
        ),
        Phase::Str { kind, c1, payload, dropped, esc } => lemma_string_apart(
            phase,
            kind,
            c1,
            payload,
            dropped,
            esc,
            b,
        ),
    }
}

proof fn lemma_plain_run_apart(phase: Phase, input: Seq<u8>)
    ensures
        starts_apart(phase, plain_run(phase, input)),
        !(phase is Ground) && plain_run(phase, input).phase is Ground ==> plain_run(
            phase,
            input,
        ).tokens.len() > 0,
    decreases input.len(),
{
    if input.len() > 0 {
        let before = plain_run(phase, input.drop_last());
        lemma_plain_run_apart(phase, input.drop_last());
        lemma_plain_apart(before.phase, input.last());
        lemma_apart_join(phase, before, plain_step(before.phase, input.last()));
    }
}

proof fn lemma_step_apart(phase: Phase, b: u8)
    ensures
        starts_apart(phase, step(phase, b)),
        !(phase is Ground) && step(phase, b).phase is Ground ==> step(phase, b).tokens.len() > 0,
{
    if !carries_on(phase, b) {
        let r = released(phase);
        if let Phase::Ground { text, part } = phase {
            lemma_plain_run_apart(
                Phase::Ground { text: text.push(part[0]), part: seq![] },
                part.skip(1),
            );
        }
        lemma_plain_apart(r.phase, b);
        lemma_apart_join(phase, r, plain_step(r.phase, b));
    }
}

proof fn lemma_run_apart(phase: Phase, input: Seq<u8>)
    ensures
        starts_apart(phase, run(phase, input)),
        !(phase is Ground) && run(phase, input).phase is Ground ==> run(phase, input).tokens.len()
            > 0,
    decreases input.len(),
{
    if input.len() > 0 {
        let before = run(phase, input.drop_last());
        lemma_run_apart(phase, input.drop_last());
        lemma_step_apart(before.phase, input.last());
        lemma_apart_join(phase, before, step(before.phase, input.last()));
    }
}

/// No two text tokens are adjacent: a text run goes on until something else
/// comes.
pub proof fn lemma_texts_apart(input: Seq<u8>)
    ensures
        texts_apart(tokens(input)),
{
    let r = run(start(), input);
    let last = released(r.phase);
    lemma_run_apart(start(), input);
    if let Phase::Ground { text, part } = r.phase {
        lemma_plain_run_apart(
            Phase::Ground { text: text.push(part[0]), part: seq![] },
            part.skip(1),
        );
    }
    lemma_apart_join(start(), r, last);
    let end = Run { phase: Phase::Escape { intermediates: seq![] }, tokens: plain_flush(last.phase) };
    assert(starts_apart(last.phase, end));
    lemma_apart_join(start(), preceded(r.tokens, last), end);
    assert(r.tokens + last.tokens + plain_flush(last.phase) =~= tokens(input));
}

// --- tokens by kind ---------------------------------------------------------

/// A text token is not empty, holds no control byte of either kind, and no
/// other text follows it.
pub proof fn lemma_text_token(input: Seq<u8>, i: int)
    requires
        0 <= i < tokens(input).len(),
        tokens(input)[i] is Text,
    ensures
        tokens(input)[i].raw() == piece_of(input, i),
        piece_of(input, i).len() > 0,
        no_control(piece_of(input, i)),
        no_raw_c1(piece_of(input, i)),
        i + 1 < tokens(input).len() ==> !(tokens(input)[i + 1] is Text),
{
    lemma_retained_is_front(input, i);
    lemma_tokens_ok(input);
    lemma_texts_apart(input);
    assert(token_ok(tokens(input)[i]));
}

/// A control sequence token is its introducer, parameters, intermediates and
/// final byte, and keeps to the cap whichever introducer it has.
pub proof fn lemma_csi_token(input: Seq<u8>, i: int)
    requires
        0 <= i < tokens(input).len(),
    ensures
        tokens(input)[i] matches TokenView::Csi { params, intermediates, final_byte, raw } ==> {
            &&& all_params(params)
            &&& all_intermediates(intermediates)
            &&& 0x40 <= final_byte <= 0x7E
            &&& raw == piece_of(input, i)
            &&& raw == csi_raw(false, params, intermediates).push(final_byte) || raw == csi_raw(
                true,
                params,
                intermediates,
            ).push(final_byte)
            &&& csi_raw(false, params, intermediates).len() < CSI_MAX
            &&& raw.len() <= CSI_MAX
        },
{
    lemma_retained_is_front(input, i);
    lemma_tokens_ok(input);
    assert(token_ok(tokens(input)[i]));
}

/// An escape sequence token is `ESC`, a few intermediates and a final byte, and
/// that byte opens no longer sequence.
pub proof fn lemma_escape_token(input: Seq<u8>, i: int)
    requires
        0 <= i < tokens(input).len(),
    ensures
        tokens(input)[i] matches TokenView::Esc { intermediates, final_byte, raw } ==> {
            &&& all_intermediates(intermediates)
            &&& intermediates.len() <= ESC_INTERM_MAX
            &&& 0x30 <= final_byte <= 0x7E
            &&& intermediates.len() == 0 ==> final_byte != BRACKET && string_of_letter(
                final_byte,
            ) is None
            &&& raw == piece_of(input, i)
            &&& raw == (seq![ESC] + intermediates).push(final_byte)
        },
{
    lemma_retained_is_front(input, i);
    lemma_tokens_ok(input);
    assert(token_ok(tokens(input)[i]));
}

/// How many of `n` payload bytes the cap lets be retained.
pub open spec fn retained(n: nat) -> nat {
    if n <= STR_MAX {
        n
    } else {
        STR_MAX as nat
    }
}

/// The token that a string sequence with this body and terminator is read as.
/// Of the body as much is retained as the cap allows.
pub open spec fn read_string(kind: StrKind, c1: bool, body: Seq<u8>, end: Seq<u8>) -> TokenView {
    let n = retained(body.len());
    string_token(kind, c1, body.take(n as int), (body.len() - n) as nat, end)
}

/// A string sequence token is its introducer, a body of payload bytes and a
/// terminator. Payload, length and whether it is overlong follow from these.
#[verifier::rlimit(40)]
pub proof fn lemma_read_string(input: Seq<u8>, i: int) -> (parts: (bool, Seq<u8>, Seq<u8>))
    requires
        0 <= i < tokens(input).len(),
        tokens(input)[i] is Str,
    ensures
        ({
            let (c1, body, end) = parts;
            let kind = tokens(input)[i]->kind;
            &&& all_payload(body)
            &&& string_terminator(kind, end)
            &&& piece_of(input, i) == string_raw(kind, c1, body) + end
            &&& tokens(input)[i] == read_string(kind, c1, body, end)
        }),
{
    let t = tokens(input)[i];
    let piece = piece_of(input, i);
    lemma_retained_is_front(input, i);
    lemma_dropped_is_payload(input, i);
    lemma_tokens_ok(input);
    assert(token_ok(t));
    let kind = t->kind;
    let payload = t->payload;
    let raw = t.raw();
    let c1 = raw[0] != ESC;
    let overlong = t->overlong;
    let tail = piece.skip(raw.len() as int);
    let terminators = (seq![ESC, BACKSLASH], seq![C1_ST], seq![BEL]);
    if overlong {
        let end = if cut_tail(kind, tail, terminators.0) {
            terminators.0
        } else if cut_tail(kind, tail, terminators.1) {
            terminators.1
        } else {
            terminators.2
        };
        let dropped = tail.take(tail.len() - end.len());
        let body = payload + dropped;
        assert(piece.subrange(0, raw.len() as int) =~= raw);
        assert(cut_tail(kind, tail, end));
        assert(raw == string_raw(kind, c1, payload));
        assert(piece =~= raw + (dropped + end));
        assert(string_raw(kind, c1, body) =~= raw + dropped);
        assert(piece =~= string_raw(kind, c1, body) + end);
        assert(body.take(STR_MAX as int) =~= payload);
        assert forall|j: int| 0 <= j < body.len() implies payload_byte(#[trigger] body[j]) by {
            if j >= payload.len() {
                assert(payload_byte(dropped[j - payload.len()]));
            }
        }
        assert(t =~= read_string(kind, c1, body, end));
        (c1, body, end)
    } else {
        let len = t.byte_len();
        let end = if string_shape(kind, payload, raw, len, false, terminators.0) {
            terminators.0
        } else if string_shape(kind, payload, raw, len, false, terminators.1) {
            terminators.1
        } else {
            terminators.2
        };
        assert(payload.take(payload.len() as int) =~= payload);
        assert(t =~= read_string(kind, c1, payload, end));
        (c1, payload, end)
    }
}

} // verus!
