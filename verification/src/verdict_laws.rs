//! Which sequences get which verdict, told by the bytes that spell them and
//! class by class.

use vstd::prelude::*;

use crate::bytes::{all_digits, digit_byte, SEMICOLON};
use crate::classify::{Class, Severity};
use crate::classify_laws::{lemma_digits_front, lemma_find};
use crate::classify_model::{
    digits_front, digits_value, early_q, fields, find, leading_number_of, link_uri, number,
    osc_rest, osc_selector, question, sgr_byte, sgr_params, verdict_on,
};
use crate::parser::{MalformedReason, StrKind};
use crate::parser_model::TokenView;

verus! {

// --- numbers ------------------------------------------------------------------

/// The number that decimal digits make, read from left to right after `before`.
pub open spec fn read_on(before: nat, digits: Seq<u8>) -> nat
    decreases digits.len(),
{
    if digits.len() == 0 {
        before
    } else {
        read_on((10 * before + digits[0] - 0x30) as nat, digits.skip(1))
    }
}

/// Are the first `k` bytes of `s`, one to eight of them, digits that make `n`?
pub open spec fn digits_make(s: Seq<u8>, k: int, n: u32) -> bool {
    &&& 1 <= k <= 8
    &&& k <= s.len()
    &&& forall|j: int| 0 <= j < k ==> 0x30 <= #[trigger] s[j] <= 0x39
    &&& read_on(0, s.take(k)) == n
}

/// Does a payload start with the number `n`, up to a semicolon or its end?
pub open spec fn selects(payload: Seq<u8>, n: u32) -> bool {
    exists|k: int|
        #[trigger] digits_make(payload, k, n) && (k < payload.len() ==> payload[k] == 0x3B)
}

/// An operating system command comes apart at its first semicolon: before it stands
/// what selects the command, and behind it all the rest.
pub proof fn lemma_command_parts(first: Seq<u8>, rest: Seq<u8>)
    requires
        forall|i: int| 0 <= i < first.len() ==> first[i] != 0x3B,
    ensures
        osc_rest(first + seq![0x3Bu8] + rest) == rest,
        osc_rest(first) == Seq::<u8>::empty(),
        osc_selector(first + seq![0x3Bu8] + rest) == osc_selector(first),
{
    let payload = first + seq![0x3Bu8] + rest;
    lemma_find(payload, SEMICOLON, first.len() as int);
    lemma_find(first, SEMICOLON, first.len() as int);
    assert(payload.take(first.len() as int) =~= first);
    assert(first.take(first.len() as int) =~= first);
    assert(payload.skip(first.len() as int + 1) =~= rest);
}

/// Do parameters start with the number `n`, up to a byte that is no digit or
/// their end?
pub open spec fn leads(params: Seq<u8>, n: u32) -> bool {
    exists|k: int|
        #[trigger] digits_make(params, k, n) && (k < params.len() ==> !(0x30 <= params[k]
            <= 0x39))
}

proof fn lemma_read_last(before: nat, s: Seq<u8>)
    requires
        s.len() > 0,
        forall|j: int| 0 <= j < s.len() ==> 0x30 <= #[trigger] s[j] <= 0x39,
    ensures
        read_on(before, s) == 10 * read_on(before, s.drop_last()) + s.last() - 0x30,
    decreases s.len(),
{
    reveal_with_fuel(read_on, 2);
    let next = (10 * before + s[0] - 0x30) as nat;
    assert(0x30 <= s[0]);
    if s.len() == 1 {
        assert(s.skip(1) =~= seq![]);
        assert(s.drop_last() =~= seq![]);
    } else {
        let rest = s.skip(1);
        assert forall|j: int| 0 <= j < rest.len() implies 0x30 <= #[trigger] rest[j] <= 0x39 by {
            assert(rest[j] == s[j + 1]);
        }
        lemma_read_last(next, rest);
        assert(s.drop_last().skip(1) =~= rest.drop_last());
        assert(s.drop_last()[0] == s[0]);
    }
}

/// Digits denote the number that they make from left to right, and eight of
/// them stay below a hundred million.
proof fn lemma_digits_read(s: Seq<u8>)
    requires
        all_digits(s),
    ensures
        digits_value(s) == read_on(0, s),
        s.len() <= 1 ==> digits_value(s) < 10,
        s.len() <= 2 ==> digits_value(s) < 100,
        s.len() <= 3 ==> digits_value(s) < 1_000,
        s.len() <= 4 ==> digits_value(s) < 10_000,
        s.len() <= 5 ==> digits_value(s) < 100_000,
        s.len() <= 6 ==> digits_value(s) < 1_000_000,
        s.len() <= 7 ==> digits_value(s) < 10_000_000,
        s.len() <= 8 ==> digits_value(s) < 100_000_000,
    decreases s.len(),
{
    if s.len() > 0 {
        let front = s.drop_last();
        assert forall|j: int| 0 <= j < front.len() implies digit_byte(#[trigger] front[j]) by {
            assert(front[j] == s[j]);
        }
        assert forall|j: int| 0 <= j < s.len() implies 0x30 <= #[trigger] s[j] <= 0x39 by {
            assert(digit_byte(s[j]));
        }
        lemma_digits_read(front);
        lemma_read_last(0, s);
    }
}

proof fn lemma_number_makes(s: Seq<u8>, k: int, n: u32)
    requires
        0 <= k <= s.len(),
    ensures
        number(s.take(k)) == Some(n) <==> digits_make(s, k, n),
{
    let front = s.take(k);
    if digits_make(s, k, n) {
        assert forall|j: int| 0 <= j < front.len() implies digit_byte(#[trigger] front[j]) by {
            assert(0x30 <= s[j] <= 0x39);
        }
        lemma_digits_read(front);
    }
    if number(front) == Some(n) {
        assert forall|j: int| 0 <= j < k implies 0x30 <= #[trigger] s[j] <= 0x39 by {
            assert(digit_byte(front[j]));
        }
        lemma_digits_read(front);
    }
}

/// `find` gives a place, and the byte does not stand before it.
proof fn lemma_found(s: Seq<u8>, b: u8)
    ensures
        0 <= find(s, b) <= s.len(),
        forall|j: int| 0 <= j < find(s, b) ==> s[j] != b,
        find(s, b) < s.len() ==> s[find(s, b)] == b,
    decreases s.len(),
{
    if s.len() > 0 && s[0] != b {
        let rest = s.drop_first();
        lemma_found(rest, b);
        assert forall|j: int| 0 <= j < find(s, b) implies s[j] != b by {
            if j > 0 {
                assert(s[j] == rest[j - 1]);
            }
        }
    }
}

proof fn lemma_fronted(s: Seq<u8>)
    ensures
        0 <= digits_front(s) <= s.len(),
        forall|j: int| 0 <= j < digits_front(s) ==> digit_byte(#[trigger] s[j]),
        digits_front(s) < s.len() ==> !digit_byte(s[digits_front(s)]),
    decreases s.len(),
{
    if s.len() > 0 && digit_byte(s[0]) {
        let rest = s.drop_first();
        lemma_fronted(rest);
        assert forall|j: int| 0 <= j < digits_front(s) implies digit_byte(#[trigger] s[j]) by {
            if j > 0 {
                assert(s[j] == rest[j - 1]);
            }
        }
    }
}

/// The selector of an operating system command is the number at its front, up
/// to the first semicolon.
pub proof fn lemma_selector(payload: Seq<u8>)
    ensures
        forall|n: u32| osc_selector(payload) == Some(n) <==> #[trigger] selects(payload, n),
{
    let i = find(payload, SEMICOLON);
    lemma_found(payload, SEMICOLON);
    assert forall|n: u32| osc_selector(payload) == Some(n) <==> #[trigger] selects(
        payload,
        n,
    ) by {
        lemma_number_makes(payload, i, n);
        if selects(payload, n) {
            let k = choose|k: int|
                #[trigger] digits_make(payload, k, n) && (k < payload.len() ==> payload[k]
                    == 0x3B);
            lemma_find(payload, SEMICOLON, k);
        }
    }
}

/// The leading number of parameters is the number at their front, up to the
/// first byte that is no digit.
pub proof fn lemma_leading(params: Seq<u8>)
    ensures
        forall|n: u32| leading_number_of(params) == Some(n) <==> #[trigger] leads(params, n),
{
    let i = digits_front(params);
    lemma_fronted(params);
    assert forall|n: u32| leading_number_of(params) == Some(n) <==> #[trigger] leads(
        params,
        n,
    ) by {
        lemma_number_makes(params, i, n);
        if leads(params, n) {
            let k = choose|k: int|
                #[trigger] digits_make(params, k, n) && (k < params.len() ==> !(0x30 <= params[k]
                    <= 0x39));
            assert forall|j: int| 0 <= j < k implies digit_byte(#[trigger] params[j]) by {
                assert(0x30 <= params[j] <= 0x39);
            }
            lemma_digits_front(params, k);
        }
    }
}

// --- questions ----------------------------------------------------------------

/// Is there a field that is one question mark, after the first field?
pub open spec fn asks(payload: Seq<u8>) -> bool {
    exists|i: int|
        1 <= i < payload.len() && #[trigger] payload[i] == 0x3F && payload[i - 1] == 0x3B && (i + 1
            < payload.len() ==> payload[i + 1] == 0x3B)
}

/// Is the third field one question mark?
pub open spec fn asks_third(payload: Seq<u8>) -> bool {
    exists|k: int, m: int| #[trigger] third_at(payload, k, m)
}

/// Do the first two semicolons stand at `k` and `m`, with a field of one
/// question mark after them?
pub open spec fn third_at(payload: Seq<u8>, k: int, m: int) -> bool {
    &&& 0 <= k < m
    &&& m + 1 < payload.len()
    &&& payload[k] == 0x3B
    &&& payload[m] == 0x3B
    &&& forall|j: int| 0 <= j < m && j != k ==> #[trigger] payload[j] != 0x3B
    &&& payload[m + 1] == 0x3F
    &&& m + 2 < payload.len() ==> payload[m + 2] == 0x3B
}

/// Is the field that starts at `i` one question mark?
spec fn question_at(s: Seq<u8>, i: int) -> bool {
    &&& 0 <= i < s.len()
    &&& s[i] == 0x3F
    &&& i > 0 ==> s[i - 1] == 0x3B
    &&& i + 1 < s.len() ==> s[i + 1] == 0x3B
}

proof fn lemma_first_field(s: Seq<u8>)
    ensures
        fields(s).len() > 0,
        fields(s)[0] == s.take(find(s, SEMICOLON)),
        fields(s)[0] == question() <==> question_at(s, 0),
        find(s, SEMICOLON) < s.len() ==> fields(s) == seq![s.take(find(s, SEMICOLON))] + fields(
            s.skip(find(s, SEMICOLON) + 1),
        ),
        find(s, SEMICOLON) == s.len() ==> fields(s) == seq![s],
{
    lemma_found(s, SEMICOLON);
    let i = find(s, SEMICOLON);
    let first = s.take(i);
    if i == s.len() {
        assert(first =~= s);
    }
    if first == question() {
        assert(first.len() == question().len() && question().len() == 1);
        assert(first[0] == s[0]);
    }
    if question_at(s, 0) {
        lemma_find(s, SEMICOLON, 1);
        assert(s.take(1) =~= question());
    }
}

proof fn lemma_question_field(s: Seq<u8>)
    ensures
        fields(s).contains(question()) <==> exists|i: int| #[trigger] question_at(s, i),
    decreases s.len(),
{
    let i = find(s, SEMICOLON);
    let all = fields(s);
    lemma_found(s, SEMICOLON);
    lemma_first_field(s);
    if i < s.len() {
        let rest = s.skip(i + 1);
        let later = fields(rest);
        lemma_question_field(rest);
        if all.contains(question()) {
            let j = choose|j: int| 0 <= j < all.len() && all[j] == question();
            if j > 0 {
                assert(later[j - 1] == question());
                let k = choose|k: int| #[trigger] question_at(rest, k);
                assert(question_at(s, i + 1 + k)) by {
                    assert(rest[k] == s[i + 1 + k]);
                    if k > 0 {
                        assert(rest[k - 1] == s[i + k]);
                    }
                    if k + 1 < rest.len() {
                        assert(rest[k + 1] == s[i + 2 + k]);
                    }
                }
            }
        }
        if exists|k: int| #[trigger] question_at(s, k) {
            let k = choose|k: int| #[trigger] question_at(s, k);
            if k == 0 {
                assert(all[0] == question());
            } else {
                assert(k - 1 >= i);
                let m = k - i - 1;
                assert(question_at(rest, m)) by {
                    assert(rest[m] == s[k]);
                    if m > 0 {
                        assert(rest[m - 1] == s[k - 1]);
                    }
                    if m + 1 < rest.len() {
                        assert(rest[m + 1] == s[k + 1]);
                    }
                }
                let j = choose|j: int| 0 <= j < later.len() && later[j] == question();
                assert(all[j + 1] == question());
            }
        }
    } else {
        if all.contains(question()) {
            assert(all[0] == question());
        }
        if exists|k: int| #[trigger] question_at(s, k) {
            let k = choose|k: int| #[trigger] question_at(s, k);
            assert(k == 0);
            assert(all[0] == question());
        }
    }
}

/// The fields of an operating system command tell whether it asks.
pub proof fn lemma_asking(payload: Seq<u8>)
    ensures
        fields(osc_rest(payload)).contains(question()) <==> asks(payload),
        fields(osc_rest(payload)).len() > 1 && fields(osc_rest(payload))[1] == question()
            <==> asks_third(payload),
{
    let i = find(payload, SEMICOLON);
    let rest = osc_rest(payload);
    lemma_found(payload, SEMICOLON);
    lemma_question_field(rest);
    lemma_first_field(rest);
    if exists|k: int| #[trigger] question_at(rest, k) {
        let k = choose|k: int| #[trigger] question_at(rest, k);
        assert(payload[i + 1 + k] == rest[k]);
        if k > 0 {
            assert(payload[i + k] == rest[k - 1]);
        }
        if k + 1 < rest.len() {
            assert(payload[i + 2 + k] == rest[k + 1]);
        }
    }
    if asks(payload) {
        let k = choose|k: int|
            1 <= k < payload.len() && #[trigger] payload[k] == 0x3F && payload[k - 1] == 0x3B && (k
                + 1 < payload.len() ==> payload[k + 1] == 0x3B);
        assert(k - 1 >= i);
        let m = k - i - 1;
        assert(rest[m] == payload[k]);
        if m > 0 {
            assert(rest[m - 1] == payload[k - 1]);
        }
        if m + 1 < rest.len() {
            assert(rest[m + 1] == payload[k + 1]);
        }
        assert(question_at(rest, m));
    }
    lemma_asking_third(payload);
}

proof fn lemma_asking_third(payload: Seq<u8>)
    ensures
        fields(osc_rest(payload)).len() > 1 && fields(osc_rest(payload))[1] == question()
            <==> asks_third(payload),
{
    let i = find(payload, SEMICOLON);
    let rest = osc_rest(payload);
    let j = find(rest, SEMICOLON);
    lemma_found(payload, SEMICOLON);
    lemma_found(rest, SEMICOLON);
    lemma_first_field(rest);
    if j < rest.len() {
        let last = rest.skip(j + 1);
        let m = i + 1 + j;
        lemma_first_field(last);
        assert(fields(rest)[1] == fields(last)[0]);
        assert(payload[m] == rest[j]);
        if question_at(last, 0) {
            assert(last[0] == payload[m + 1]);
            if 1 < last.len() {
                assert(last[1] == payload[m + 2]);
            }
            assert forall|x: int| 0 <= x < m && x != i implies #[trigger] payload[x] != 0x3B by {
                if x > i {
                    assert(rest[x - i - 1] == payload[x]);
                }
            }
            assert(third_at(payload, i, m));
        }
        if asks_third(payload) {
            let (k, n) = choose|k: int, n: int| #[trigger] third_at(payload, k, n);
            assert(k == i);
            assert(n == m) by {
                if n < m {
                    assert(rest[n - i - 1] == payload[n]);
                }
            }
            assert(last[0] == payload[m + 1]);
            if 1 < last.len() {
                assert(last[1] == payload[m + 2]);
            }
        }
    } else if asks_third(payload) {
        let (k, n) = choose|k: int, n: int| #[trigger] third_at(payload, k, n);
        assert(k == i);
        assert(rest[n - i - 1] == payload[n]);
    }
}

/// A hyperlink is the number eight, parameters without semicolon, and a URI; its
/// URI is what follows the second semicolon.
pub proof fn lemma_link_parts(payload: Seq<u8>, params: Seq<u8>, uri: Seq<u8>)
    requires
        forall|i: int| 0 <= i < params.len() ==> params[i] != 0x3B,
    ensures
        payload == seq![0x38u8, 0x3B] + params + seq![0x3Bu8] + uri ==> link_uri(payload) == Some(
            uri,
        ),
{
    if payload == seq![0x38u8, 0x3B] + params + seq![0x3Bu8] + uri {
        let rest = payload.skip(2);
        assert(payload.subrange(0, 2) =~= seq![0x38u8, SEMICOLON]);
        assert(rest =~= params + seq![0x3Bu8] + uri);
        lemma_find(rest, SEMICOLON, params.len() as int);
        assert(rest.skip(params.len() as int + 1) =~= uri);
    }
}

/// A payload without the two semicolons after a bare eight has no URI.
pub proof fn lemma_no_link(payload: Seq<u8>)
    ensures
        link_uri(payload) is Some ==> payload.len() >= 3 && payload[0] == 0x38 && payload[1] == 0x3B
            && exists|m: int| 2 <= m < payload.len() && #[trigger] payload[m] == 0x3B,
        !(payload.len() >= 2 && payload[0] == 0x38 && payload[1] == 0x3B) ==> link_uri(
            payload,
        ) is None,
        (forall|m: int| 2 <= m < payload.len() ==> #[trigger] payload[m] != 0x3B) ==> link_uri(
            payload,
        ) is None,
{
    let front = seq![0x38u8, SEMICOLON];
    if front.is_prefix_of(payload) {
        assert(payload.subrange(0, 2)[0] == payload[0]);
        assert(payload.subrange(0, 2)[1] == payload[1]);
        let rest = payload.skip(2);
        lemma_found(rest, SEMICOLON);
        let i = find(rest, SEMICOLON);
        if i < rest.len() {
            assert(rest[i] == payload[i + 2]);
        }
    }
}

// --- sequences by their bytes ---------------------------------------------------

/// Is this a control sequence without intermediates that ends with `b`?
pub open spec fn bare_csi(t: TokenView, b: u8) -> bool {
    t matches TokenView::Csi { intermediates, final_byte, .. } && intermediates.len() == 0
        && final_byte == b
}

/// Is this a control sequence with the one intermediate `a` that ends with `b`?
pub open spec fn marked_csi(t: TokenView, a: u8, b: u8) -> bool {
    t matches TokenView::Csi { intermediates, final_byte, .. } && intermediates.len() == 1
        && intermediates[0] == a && final_byte == b
}

/// Is this an escape sequence without intermediates that ends with `b`?
pub open spec fn bare_esc(t: TokenView, b: u8) -> bool {
    t matches TokenView::Esc { intermediates, final_byte, .. } && intermediates.len() == 0
        && final_byte == b
}

/// Is this an escape sequence whose first intermediate is `a`?
pub open spec fn marked_esc(t: TokenView, a: u8) -> bool {
    t matches TokenView::Esc { intermediates, .. } && intermediates.len() > 0 && intermediates[0]
        == a
}

/// Is this a complete string sequence of this kind?
pub open spec fn whole_str(t: TokenView, kind: StrKind) -> bool {
    t matches TokenView::Str { kind: k, overlong, .. } && k == kind && !overlong
}

/// Is this a complete operating system command with this selector?
pub open spec fn osc(t: TokenView, n: u32) -> bool {
    whole_str(t, StrKind::Osc) && selects(t->payload, n)
}

/// Are all parameters digits, colons and semicolons?
pub open spec fn styling_params(params: Seq<u8>) -> bool {
    forall|i: int| 0 <= i < params.len() ==> 0x30 <= #[trigger] params[i] <= 0x3B
}

/// Does a payload start with these bytes?
pub open spec fn starts(payload: Seq<u8>, a: u8, b: u8) -> bool {
    payload.len() >= 2 && payload[0] == a && payload[1] == b
}

/// Does the token get this verdict?
pub open spec fn gets(t: TokenView, class: Class, severity: Severity, label: Seq<char>) -> bool {
    &&& verdict_on(t).class == class
    &&& verdict_on(t).severity == severity
    &&& verdict_on(t).label == label
}

proof fn lemma_styling_params(params: Seq<u8>)
    ensures
        sgr_params(params) <==> styling_params(params),
{
    if sgr_params(params) {
        assert forall|i: int| 0 <= i < params.len() implies 0x30 <= #[trigger] params[i] <= 0x3B by {
            assert(sgr_byte(params[i]));
        }
    }
    if styling_params(params) {
        assert forall|i: int| 0 <= i < params.len() implies sgr_byte(#[trigger] params[i]) by {
            assert(0x30 <= params[i] <= 0x3B);
        }
    }
}

// --- classes --------------------------------------------------------------------

/// Styling is a control sequence that ends with `m`, without intermediates and
/// with digits, colons and semicolons for parameters: such a sequence is, with or
/// without parameters, and nothing else.
pub proof fn lemma_styling_exactly(t: TokenView)
    ensures
        verdict_on(t).class == Class::Sgr <==> bare_csi(t, 0x6D) && styling_params(
            t->params,
        ),
        verdict_on(t).class == Class::Sgr ==> gets(t, Class::Sgr, Severity::Benign, "sgr"@),
{
    if let TokenView::Csi { params, .. } = t {
        lemma_styling_params(params);
    }
}

/// Does this letter end a control sequence that moves the cursor? `A` to `H`,
/// backquote, `a`, and `d` to `f` do.
pub open spec fn moving_letter(b: u8) -> bool {
    0x41 <= b <= 0x48 || b == 0x60 || b == 0x61 || 0x64 <= b <= 0x66
}

/// Cursor sequences move it, save it or restore it: control sequences that end
/// with a moving letter, `s` or `u`, and `ESC 7` and `ESC 8`.
pub proof fn lemma_cursor_exactly(t: TokenView)
    ensures
        verdict_on(t).class == Class::Cursor <==> {
            ||| t matches TokenView::Csi { intermediates, final_byte, .. } && intermediates.len()
                == 0 && (moving_letter(final_byte) || final_byte == 0x73 || final_byte == 0x75)
            ||| bare_esc(t, 0x37)
            ||| bare_esc(t, 0x38)
        },
        verdict_on(t).class == Class::Cursor ==> gets(
            t,
            Class::Cursor,
            Severity::Medium,
            if bare_csi(t, 0x73) || bare_csi(t, 0x75) || bare_esc(t, 0x37) || bare_esc(t, 0x38) {
                "cursor-save-restore"@
            } else {
                "cursor-move"@
            },
        ),
{
}

/// Screen sequences erase, edit, scroll, step lines, set tabs or test the
/// screen.
pub proof fn lemma_screen_exactly(t: TokenView)
    ensures
        verdict_on(t).class == Class::Screen <==> {
            ||| bare_csi(t, 0x4A)
            ||| bare_csi(t, 0x4B)
            ||| bare_csi(t, 0x4C)
            ||| bare_csi(t, 0x4D)
            ||| bare_csi(t, 0x50)
            ||| bare_csi(t, 0x53)
            ||| bare_csi(t, 0x54)
            ||| bare_csi(t, 0x58)
            ||| bare_csi(t, 0x40)
            ||| bare_csi(t, 0x62)
            ||| bare_csi(t, 0x72)
            ||| bare_esc(t, 0x44)
            ||| bare_esc(t, 0x45)
            ||| bare_esc(t, 0x48)
            ||| bare_esc(t, 0x4D)
            ||| marked_esc(t, 0x23)
        },
        verdict_on(t).class == Class::Screen ==> verdict_on(t).severity == Severity::Medium,
        bare_csi(t, 0x4A) ==> verdict_on(t).label == "erase-display"@,
        bare_csi(t, 0x4B) ==> verdict_on(t).label == "erase-line"@,
        bare_csi(t, 0x4C) || bare_csi(t, 0x4D) || bare_csi(t, 0x50) || bare_csi(t, 0x58)
            || bare_csi(t, 0x40) || bare_csi(t, 0x62) ==> verdict_on(t).label == "edit-line"@,
        bare_csi(t, 0x53) || bare_csi(t, 0x54) ==> verdict_on(t).label == "scroll"@,
        bare_csi(t, 0x72) ==> verdict_on(t).label == "scroll-region"@,
        bare_esc(t, 0x44) || bare_esc(t, 0x45) || bare_esc(t, 0x4D) ==> verdict_on(t).label
            == "index"@,
        bare_esc(t, 0x48) ==> verdict_on(t).label == "tab-set"@,
        marked_esc(t, 0x23) ==> verdict_on(t).label == "dec-screen-test"@,
{
}

/// Is this a private mode switch, with a `?` before its parameters?
pub open spec fn private_switch(t: TokenView) -> bool {
    &&& bare_csi(t, 0x68) || bare_csi(t, 0x6C)
    &&& t->params.len() > 0
    &&& t->params[0] == 0x3F
}

/// Does a private mode switch name this mode?
pub open spec fn switches(t: TokenView, n: u32) -> bool {
    private_switch(t) && leads(t->params.skip(1), n)
}

/// Mode switches are control sequences that end with `h` or `l`, the cursor
/// style, private styling, and the keypad modes.
pub proof fn lemma_mode_exactly(t: TokenView)
    ensures
        verdict_on(t).class == Class::Mode <==> {
            ||| bare_csi(t, 0x68)
            ||| bare_csi(t, 0x6C)
            ||| bare_csi(t, 0x6D) && !styling_params(t->params)
            ||| marked_csi(t, 0x20, 0x71)
            ||| bare_esc(t, 0x3D)
            ||| bare_esc(t, 0x3E)
        },
        verdict_on(t).class == Class::Mode ==> verdict_on(t).severity == if private_switch(t) {
            Severity::High
        } else {
            Severity::Medium
        },
        (bare_csi(t, 0x68) || bare_csi(t, 0x6C)) && !private_switch(t) ==> verdict_on(t).label
            == "ansi-mode"@,
        bare_csi(t, 0x6D) && !styling_params(t->params) ==> verdict_on(t).label == "private-sgr"@,
        marked_csi(t, 0x20, 0x71) ==> verdict_on(t).label == "cursor-style"@,
        bare_esc(t, 0x3D) || bare_esc(t, 0x3E) ==> verdict_on(t).label == "keypad-mode"@,
{
    if let TokenView::Csi { params, intermediates, .. } = t {
        lemma_styling_params(params);
        if intermediates.len() == 1 {
            assert(intermediates =~= seq![intermediates[0]]);
        }
        assert(seq![0x20u8][0] == 0x20);
        assert(seq![0x21u8][0] == 0x21);
    }
}

/// Private modes are labelled by their number.
pub proof fn lemma_private_modes(t: TokenView, n: u32)
    requires
        private_switch(t),
    ensures
        switches(t, 47) || switches(t, 1047) || switches(t, 1049) ==> verdict_on(t).label
            == "alt-screen"@,
        switches(t, 2004) ==> verdict_on(t).label == "bracketed-paste"@,
        switches(t, 25) ==> verdict_on(t).label == "cursor-visibility"@,
        switches(t, 2026) ==> verdict_on(t).label == "sync-update"@,
        1000 <= n <= 1016 && switches(t, n) ==> verdict_on(t).label == "mouse-tracking"@,
        switches(t, n) && n != 47 && n != 1047 && n != 1049 && n != 2004 && n != 25 && n != 2026
            && !(1000 <= n <= 1016) ==> verdict_on(t).label == if bare_csi(t, 0x68) {
            "private-mode-set"@
        } else {
            "private-mode-reset"@
        },
        (forall|m: u32| !#[trigger] switches(t, m)) ==> verdict_on(t).label == if bare_csi(
            t,
            0x68,
        ) {
            "private-mode-set"@
        } else {
            "private-mode-reset"@
        },
{
    let rest = t->params.skip(1);
    lemma_leading(rest);
    match leading_number_of(rest) {
        Some(m) => {
            assert(leads(rest, m));
            assert(switches(t, m));
        },
        None => {},
    }
}

/// Resets are `ESC c` and `CSI ! p`.
pub proof fn lemma_reset_exactly(t: TokenView)
    ensures
        verdict_on(t).class == Class::Reset <==> bare_esc(t, 0x63) || marked_csi(t, 0x21, 0x70),
        bare_esc(t, 0x63) ==> gets(t, Class::Reset, Severity::High, "hard-reset"@),
        marked_csi(t, 0x21, 0x70) ==> gets(t, Class::Reset, Severity::High, "soft-reset"@),
{
    if let TokenView::Csi { intermediates, .. } = t {
        if intermediates.len() == 1 {
            assert(intermediates =~= seq![intermediates[0]]);
        }
        assert(seq![0x20u8][0] == 0x20);
        assert(seq![0x21u8][0] == 0x21);
    }
}

/// Charset sequences designate, select or shift character sets.
pub proof fn lemma_charset_exactly(t: TokenView)
    ensures
        verdict_on(t).class == Class::Charset <==> {
            ||| designates(t)
            ||| marked_esc(t, 0x25)
            ||| bare_esc(t, 0x4E)
            ||| bare_esc(t, 0x4F)
            ||| locks(t)
            ||| t == TokenView::Control(0x0E)
            ||| t == TokenView::Control(0x0F)
        },
        designates(t) ==> gets(t, Class::Charset, Severity::High, "charset-designate"@),
        marked_esc(t, 0x25) ==> gets(t, Class::Charset, Severity::High, "charset-select"@),
        bare_esc(t, 0x4E) || bare_esc(t, 0x4F) ==> gets(
            t,
            Class::Charset,
            Severity::High,
            "single-shift"@,
        ),
        locks(t) ==> gets(t, Class::Charset, Severity::High, "locking-shift"@),
        t == TokenView::Control(0x0E) ==> gets(t, Class::Charset, Severity::High, "shift-out"@),
        t == TokenView::Control(0x0F) ==> gets(t, Class::Charset, Severity::Medium, "shift-in"@),
{
}

/// Does an escape sequence designate a character set? `(` to `+` and `-` to `/`
/// do.
pub open spec fn designates(t: TokenView) -> bool {
    t matches TokenView::Esc { intermediates, .. } && intermediates.len() > 0 && (0x28
        <= intermediates[0] <= 0x2B || 0x2D <= intermediates[0] <= 0x2F)
}

/// Does an escape sequence lock a shift?
pub open spec fn locks(t: TokenView) -> bool {
    ||| bare_esc(t, 0x6E)
    ||| bare_esc(t, 0x6F)
    ||| bare_esc(t, 0x7C)
    ||| bare_esc(t, 0x7D)
    ||| bare_esc(t, 0x7E)
}

/// Does a window operation start with this number?
pub open spec fn window(t: TokenView, n: u32) -> bool {
    bare_csi(t, 0x74) && leads(t->params, n)
}

/// Titles are set by the selectors zero, one and two, and stacked by the window
/// operations twenty-two and twenty-three.
pub proof fn lemma_title_exactly(t: TokenView)
    ensures
        verdict_on(t).class == Class::Title <==> osc(t, 0) || osc(t, 1) || osc(t, 2) || window(
            t,
            22,
        ) || window(t, 23),
        osc(t, 0) || osc(t, 1) || osc(t, 2) ==> gets(t, Class::Title, Severity::High, "title-set"@),
        window(t, 22) || window(t, 23) ==> gets(
            t,
            Class::Title,
            Severity::High,
            "title-stack"@,
        ),
{
    lemma_by_number(t);
}

/// What the numbers at the front of parameters and payloads are.
proof fn lemma_by_number(t: TokenView)
    ensures
        t matches TokenView::Csi { params, .. } ==> forall|n: u32|
            leading_number_of(params) == Some(n) <==> #[trigger] leads(params, n),
        t matches TokenView::Str { payload, .. } ==> forall|n: u32|
            osc_selector(payload) == Some(n) <==> #[trigger] selects(payload, n),
{
    match t {
        TokenView::Csi { params, .. } => lemma_leading(params),
        TokenView::Str { payload, .. } => lemma_selector(payload),
        _ => {},
    }
}

/// The clipboard is selector fifty-two, and it is read where the third field is
/// a question mark.
pub proof fn lemma_clipboard_exactly(t: TokenView)
    ensures
        verdict_on(t).class == Class::Clipboard <==> osc(t, 52),
        osc(t, 52) && asks_third(t->payload) ==> gets(
            t,
            Class::Clipboard,
            Severity::Critical,
            "clipboard-read"@,
        ),
        osc(t, 52) && !asks_third(t->payload) ==> gets(
            t,
            Class::Clipboard,
            Severity::Critical,
            "clipboard-write"@,
        ),
{
    lemma_by_number(t);
    if let TokenView::Str { payload, .. } = t {
        lemma_asking(payload);
    }
}

/// Is this an operating system command with a selector in this range?
pub open spec fn osc_within(t: TokenView, from: u32, to: u32) -> bool {
    exists|n: u32| from <= n <= to && #[trigger] osc(t, n)
}

/// Palette sequences set or reset colors, and do not ask for them.
pub proof fn lemma_palette_exactly(t: TokenView)
    ensures
        verdict_on(t).class == Class::Palette <==> {
            ||| osc(t, 4)
            ||| osc(t, 5)
            ||| osc(t, 104)
            ||| osc(t, 105)
            ||| osc_within(t, 10, 19) && !asks(t->payload)
            ||| osc_within(t, 110, 119)
        },
        osc(t, 4) || osc(t, 5) ==> gets(t, Class::Palette, Severity::Medium, "palette-set"@),
        osc(t, 104) || osc(t, 105) ==> gets(t, Class::Palette, Severity::Medium, "palette-reset"@),
        osc_within(t, 10, 19) && !asks(t->payload) ==> gets(
            t,
            Class::Palette,
            Severity::Medium,
            "default-colors"@,
        ),
        osc_within(t, 110, 119) ==> gets(
            t,
            Class::Palette,
            Severity::Medium,
            "default-colors-reset"@,
        ),
{
    lemma_by_number(t);
    if let TokenView::Str { payload, .. } = t {
        lemma_asking(payload);
        if osc_selector(payload) is Some {
            assert(selects(payload, osc_selector(payload)->0));
            assert(whole_str(t, StrKind::Osc) ==> osc(t, osc_selector(payload)->0));
        }
    }
}

/// Hyperlinks are selector eight, and harmless until their URI is looked at.
pub proof fn lemma_link_exactly(t: TokenView)
    ensures
        verdict_on(t).class == Class::Hyperlink <==> osc(t, 8),
        osc(t, 8) ==> gets(t, Class::Hyperlink, Severity::Benign, "hyperlink"@),
{
    lemma_by_number(t);
}

/// Queries make the terminal answer.
pub proof fn lemma_query_exactly(t: TokenView)
    ensures
        verdict_on(t).class == Class::Query <==> {
            ||| bare_csi(t, 0x63)
            ||| bare_csi(t, 0x6E)
            ||| bare_csi(t, 0x78)
            ||| bare_csi(t, 0x74) && !window(t, 22) && !window(t, 23)
            ||| bare_esc(t, 0x5A)
            ||| t == TokenView::Control(0x05)
            ||| osc_within(t, 10, 19) && asks(t->payload)
        },
        verdict_on(t).class == Class::Query ==> verdict_on(t).severity == Severity::High,
        bare_csi(t, 0x63) || bare_esc(t, 0x5A) ==> verdict_on(t).label == "device-attributes"@,
        bare_csi(t, 0x6E) ==> verdict_on(t).label == "device-status-report"@,
        bare_csi(t, 0x78) ==> verdict_on(t).label == "terminal-parameters"@,
        t == TokenView::Control(0x05) ==> verdict_on(t).label == "enquiry"@,
        osc_within(t, 10, 19) && asks(t->payload) ==> verdict_on(t).label == "color-query"@,
        reports_window(t) ==> verdict_on(t).label == "window-report"@,
        bare_csi(t, 0x74) && !reports_window(t) && !window(t, 22) && !window(t, 23) ==> verdict_on(
            t,
        ).label == "window-op"@,
{
    lemma_by_number(t);
    if let TokenView::Str { payload, .. } = t {
        lemma_asking(payload);
        if osc_selector(payload) is Some {
            assert(selects(payload, osc_selector(payload)->0));
            assert(whole_str(t, StrKind::Osc) ==> osc(t, osc_selector(payload)->0));
        }
    }
    if let TokenView::Csi { params, .. } = t {
        if leading_number_of(params) is Some {
            assert(leads(params, leading_number_of(params)->0));
        }
    }
}

/// Does a window operation ask for a report?
pub open spec fn reports_window(t: TokenView) -> bool {
    ||| window(t, 11)
    ||| window(t, 13)
    ||| window(t, 14)
    ||| window(t, 18)
    ||| window(t, 19)
    ||| window(t, 20)
    ||| window(t, 21)
}

/// Does a payload start with `tmux;`?
pub open spec fn tmux_payload(payload: Seq<u8>) -> bool {
    payload.len() >= 5 && payload[0] == 0x74 && payload[1] == 0x6D && payload[2] == 0x75
        && payload[3] == 0x78 && payload[4] == 0x3B
}

/// Does `q` stand among the first eight bytes of a payload?
pub open spec fn sixel_payload(payload: Seq<u8>) -> bool {
    exists|i: int| 0 <= i < 8 && i < payload.len() && #[trigger] payload[i] == 0x71
}

/// String channels are all complete strings but operating system commands, and
/// selector thirteen hundred and thirty-seven of these.
pub proof fn lemma_dcs_exactly(t: TokenView)
    ensures
        verdict_on(t).class == Class::Dcs <==> {
            ||| whole_str(t, StrKind::Dcs)
            ||| whole_str(t, StrKind::Apc)
            ||| whole_str(t, StrKind::Pm)
            ||| whole_str(t, StrKind::Sos)
            ||| osc(t, 1337)
        },
        whole_str(t, StrKind::Apc) ==> gets(t, Class::Dcs, Severity::High, "apc"@),
        whole_str(t, StrKind::Pm) ==> gets(t, Class::Dcs, Severity::High, "pm"@),
        whole_str(t, StrKind::Sos) ==> gets(t, Class::Dcs, Severity::High, "sos"@),
        osc(t, 1337) ==> gets(t, Class::Dcs, Severity::Critical, "iterm2-proprietary"@),
        whole_str(t, StrKind::Dcs) ==> {
            let payload = t->payload;
            if starts(payload, 0x24, 0x71) {
                gets(t, Class::Dcs, Severity::Critical, "decrqss"@)
            } else if starts(payload, 0x2B, 0x71) {
                gets(t, Class::Dcs, Severity::Critical, "xtgettcap"@)
            } else if tmux_payload(payload) {
                gets(t, Class::Dcs, Severity::Critical, "tmux-passthrough"@)
            } else if sixel_payload(payload) {
                gets(t, Class::Dcs, Severity::Medium, "sixel"@)
            } else {
                gets(t, Class::Dcs, Severity::High, "dcs"@)
            }
        },
{
    lemma_by_number(t);
    if let TokenView::Str { payload, .. } = t {
        lemma_starts(payload, 0x24, 0x71);
        lemma_starts(payload, 0x2B, 0x71);
        let tmux = seq![0x74u8, 0x6D, 0x75, 0x78, 0x3B];
        if tmux.is_prefix_of(payload) {
            let front = payload.subrange(0, 5);
            assert(front == tmux);
            assert(front[0] == payload[0] && front[1] == payload[1] && front[2] == payload[2]
                && front[3] == payload[3] && front[4] == payload[4]);
        }
        if tmux_payload(payload) {
            assert(payload.subrange(0, 5) =~= tmux);
        }
        if early_q(payload) {
            let i = choose|i: int| 0 <= i < payload.len() && i < 8 && #[trigger] payload[i] == 0x71;
            assert(payload[i] == 0x71);
        }
    }
}

proof fn lemma_starts(payload: Seq<u8>, a: u8, b: u8)
    ensures
        seq![a, b].is_prefix_of(payload) <==> starts(payload, a, b),
{
    let two = seq![a, b];
    if two.is_prefix_of(payload) {
        let front = payload.subrange(0, 2);
        assert(front == two);
        assert(front[0] == payload[0] && front[1] == payload[1]);
    }
    if starts(payload, a, b) {
        assert(payload.subrange(0, 2) =~= two);
    }
}

/// Bare control bytes are a class of their own, but for the enquiry and the two
/// shifts. Line feed, tab and carriage return are harmless.
pub proof fn lemma_control_exactly(t: TokenView)
    ensures
        verdict_on(t).class == Class::Control <==> {
            ||| t is Text
            ||| t matches TokenView::Control(b) && b != 0x05 && b != 0x0E && b != 0x0F
        },
        t is Text ==> gets(t, Class::Control, Severity::Benign, "text"@),
        t matches TokenView::Control(b) ==> {
            &&& b == 0x09 || b == 0x0A || b == 0x0D ==> gets(
                t,
                Class::Control,
                Severity::Benign,
                "whitespace"@,
            )
            &&& b == 0x07 ==> gets(t, Class::Control, Severity::Low, "bell"@)
            &&& b == 0x08 ==> gets(t, Class::Control, Severity::Medium, "backspace"@)
            &&& b == 0x0B ==> gets(t, Class::Control, Severity::Medium, "vertical-tab"@)
            &&& b == 0x0C ==> gets(t, Class::Control, Severity::Medium, "form-feed"@)
            &&& b == 0x7F ==> gets(t, Class::Control, Severity::Medium, "delete"@)
            &&& b <= 0x04 || b == 0x06 || (0x10 <= b && b != 0x7F) ==> gets(
                t,
                Class::Control,
                Severity::Low,
                "c0-control"@,
            )
        },
{
}

/// Raw C1 bytes are a class of their own.
pub proof fn lemma_c1_exactly(t: TokenView)
    ensures
        verdict_on(t).class == Class::C1 <==> t is C1,
        t is C1 ==> gets(t, Class::C1, Severity::High, "c1-control"@),
{
}

/// What never completed or grew too long is malformed, by the reason for it.
pub proof fn lemma_malformed_exactly(t: TokenView)
    ensures
        verdict_on(t).class == Class::Malformed <==> (t is Malformed || (t matches TokenView::Str {
            overlong,
            ..
        } && overlong)),
        t matches TokenView::Str { overlong, .. } && overlong ==> gets(
            t,
            Class::Malformed,
            Severity::High,
            "oversized-string"@,
        ),
        t matches TokenView::Malformed { reason, .. } ==> gets(
            t,
            Class::Malformed,
            Severity::Medium,
            match reason {
                MalformedReason::Truncated => "truncated-sequence"@,
                MalformedReason::AbortedByControl => "spliced-sequence"@,
                MalformedReason::Oversized => "oversized-sequence"@,
                MalformedReason::BadByte => "corrupt-sequence"@,
            },
        ),
{
}

/// Does a control sequence end with a letter that no class claims?
pub open spec fn unclaimed_csi(t: TokenView) -> bool {
    &&& t is Csi
    &&& if t->Csi_intermediates.len() > 0 {
        !marked_csi(t, 0x20, 0x71) && !marked_csi(t, 0x21, 0x70)
    } else {
        let b = t->Csi_final_byte;
        &&& !moving_letter(b)
        &&& b != 0x40 && b != 0x4A && b != 0x4B && b != 0x4C && b != 0x4D && b != 0x50
        &&& b != 0x53 && b != 0x54 && b != 0x58 && b != 0x62 && b != 0x63 && b != 0x68
        &&& b != 0x6C && b != 0x6D && b != 0x6E && b != 0x72 && b != 0x73 && b != 0x74
        &&& b != 0x75 && b != 0x78
    }
}

/// Does an escape sequence end with a letter that no class claims?
pub open spec fn unclaimed_esc(t: TokenView) -> bool {
    &&& t is Esc
    &&& if t->Esc_intermediates.len() > 0 {
        !designates(t) && !marked_esc(t, 0x23) && !marked_esc(t, 0x25)
    } else {
        let b = t->Esc_final_byte;
        &&& !locks(t)
        &&& b != 0x37 && b != 0x38 && b != 0x3D && b != 0x3E && b != 0x44 && b != 0x45
        &&& b != 0x48 && b != 0x4D && b != 0x4E && b != 0x4F && b != 0x5A && b != 0x63
    }
}

/// Does an operating system command have a selector that no class claims, or
/// none?
pub open spec fn unclaimed_osc(t: TokenView) -> bool {
    &&& whole_str(t, StrKind::Osc)
    &&& !osc_within(t, 0, 2) && !osc(t, 4) && !osc(t, 5) && !osc(t, 8)
    &&& !osc_within(t, 10, 19) && !osc(t, 52) && !osc(t, 104) && !osc(t, 105)
    &&& !osc_within(t, 110, 119) && !osc(t, 1337)
}

/// Well-formed sequences that no class claims are unknown. A few are known to be
/// little trouble.
pub proof fn lemma_unknown_exactly(t: TokenView)
    ensures
        verdict_on(t).class == Class::Unknown <==> unclaimed_csi(t) || unclaimed_esc(t)
            || unclaimed_osc(t),
        unclaimed_csi(t) ==> gets(t, Class::Unknown, Severity::Medium, "csi-unknown"@),
        unclaimed_esc(t) && bare_esc(t, 0x5C) ==> gets(
            t,
            Class::Unknown,
            Severity::Low,
            "stray-terminator"@,
        ),
        unclaimed_esc(t) && !bare_esc(t, 0x5C) ==> gets(
            t,
            Class::Unknown,
            Severity::Medium,
            "esc-unknown"@,
        ),
        osc(t, 7) ==> gets(t, Class::Unknown, Severity::Low, "cwd-report"@),
        osc(t, 22) ==> gets(t, Class::Unknown, Severity::Low, "pointer-shape"@),
        osc(t, 133) ==> gets(t, Class::Unknown, Severity::Low, "semantic-prompt"@),
        osc(t, 9) || osc(t, 99) || osc(t, 777) ==> gets(
            t,
            Class::Unknown,
            Severity::Medium,
            "desktop-notification"@,
        ),
        unclaimed_osc(t) && !osc(t, 7) && !osc(t, 9) && !osc(t, 22) && !osc(t, 99) && !osc(t, 133)
            && !osc(t, 777) ==> gets(t, Class::Unknown, Severity::Medium, "osc-unknown"@),
{
    lemma_by_number(t);
    if let TokenView::Str { payload, .. } = t {
        if osc_selector(payload) is Some {
            assert(selects(payload, osc_selector(payload)->0));
            assert(whole_str(t, StrKind::Osc) ==> osc(t, osc_selector(payload)->0));
        }
    }
    if let TokenView::Csi { params, intermediates, .. } = t {
        if intermediates.len() == 1 {
            assert(intermediates =~= seq![intermediates[0]]);
        }
        assert(seq![0x20u8][0] == 0x20);
        assert(seq![0x21u8][0] == 0x21);
    }
}

} // verus!
