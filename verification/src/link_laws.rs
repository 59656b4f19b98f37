//! Presets and links in plain terms: what a preset keeps, and which links may
//! survive, byte by byte.

use vstd::prelude::*;
use vstd::utf8::valid_utf8;

use crate::bytes::control_byte;
use crate::classify::Class;
use crate::classify_laws::lemma_find;
use crate::classify_model::find;
use crate::policy::Preset;
use crate::policy_model::{folded, folded_char, link_allowed, preset_policy, scheme_byte, uri_byte};
use crate::utf8_laws::{lemma_textual_exactly, lemma_textual_utf8, within_scalar};

verus! {

/// What the presets keep: the default one styling and hyperlinks, the strict one
/// styling, the plain one nothing. Only the strict one forbids lone carriage
/// returns, and links may use `http`, `https` and `mailto`.
pub proof fn lemma_presets_exactly(preset: Preset, class: Class)
    ensures
        preset_policy(preset).allowed.contains(class) <==> {
            ||| class == Class::Sgr && preset != Preset::Plain
            ||| class == Class::Hyperlink && preset == Preset::Default
        },
        preset_policy(preset).allow_lone_cr <==> preset != Preset::Strict,
        preset_policy(preset).link_schemes.len() == 3,
        preset_policy(preset).link_schemes[0] == seq!['h', 't', 't', 'p'],
        preset_policy(preset).link_schemes[1] == seq!['h', 't', 't', 'p', 's'],
        preset_policy(preset).link_schemes[2] == seq!['m', 'a', 'i', 'l', 't', 'o'],
{
    reveal_strlit("http");
    reveal_strlit("https");
    reveal_strlit("mailto");
    assert("http"@ =~= seq!['h', 't', 't', 'p']);
    assert("https"@ =~= seq!['h', 't', 't', 'p', 's']);
    assert("mailto"@ =~= seq!['m', 'a', 'i', 'l', 't', 'o']);
}

/// Does the byte spell the character, in small or capital letters? Of a capital
/// letter it is the small one that counts.
pub open spec fn spells_char(b: u8, c: char) -> bool {
    if 0x41 <= b <= 0x5A {
        c as int == b + 0x20
    } else {
        c as int == b as int
    }
}

/// Is this a letter, a digit, `+`, `-` or `.`?
pub open spec fn scheme_letter(b: u8) -> bool {
    ||| 0x30 <= b <= 0x39
    ||| 0x41 <= b <= 0x5A
    ||| 0x61 <= b <= 0x7A
    ||| b == 0x2B || b == 0x2D || b == 0x2E
}

/// Does the URI start with this scheme and a colon?
pub open spec fn has_scheme(uri: Seq<u8>, scheme: Seq<char>) -> bool {
    &&& scheme.len() < uri.len()
    &&& uri[scheme.len() as int] == 0x3A
    &&& forall|j: int|
        0 <= j < scheme.len() ==> scheme_letter(#[trigger] uri[j]) && spells_char(uri[j], scheme[j])
}

/// Which links may survive: one to 2048 bytes, none of them a space or a control
/// byte, 7-bit or raw C1, that start with a scheme of the list and a colon. All
/// such links may, and no others.
pub proof fn lemma_links_exactly(schemes: Seq<Seq<char>>, uri: Seq<u8>)
    ensures
        link_allowed(schemes, uri) <==> {
            &&& 1 <= uri.len() <= 2048
            &&& forall|j: int| 0 <= j < uri.len() ==> #[trigger] uri[j] > 0x20 && uri[j] != 0x7F
            &&& forall|j: int|
                0 <= j < uri.len() && 0x80 <= #[trigger] uri[j] <= 0x9F ==> within_scalar(uri, j)
            &&& exists|i: int| 0 <= i < schemes.len() && has_scheme(uri, #[trigger] schemes[i])
        },
{
    lemma_textual_exactly(uri);
    if link_allowed(schemes, uri) {
        let k = find(uri, 0x3A);
        let front = uri.take(k);
        lemma_found_colon(uri);
        let i = choose|i: int| 0 <= i < schemes.len() && schemes[i] == folded(front);
        assert forall|j: int| 0 <= j < k implies scheme_letter(#[trigger] uri[j]) && spells_char(
            uri[j],
            schemes[i][j],
        ) by {
            assert(scheme_byte(front[j]));
            assert(folded(front)[j] == folded_char(front[j]));
        }
        assert(has_scheme(uri, schemes[i]));
        assert forall|j: int| 0 <= j < uri.len() implies #[trigger] uri[j] > 0x20 && uri[j]
            != 0x7F by {
            assert(uri_byte(uri[j]));
        }
    }
    if 1 <= uri.len() <= 2048 && (forall|j: int|
        0 <= j < uri.len() ==> #[trigger] uri[j] > 0x20 && uri[j] != 0x7F) && (forall|j: int|
        0 <= j < uri.len() && 0x80 <= #[trigger] uri[j] <= 0x9F ==> within_scalar(uri, j)) && (
    exists|i: int| 0 <= i < schemes.len() && has_scheme(uri, #[trigger] schemes[i])) {
        let i = choose|i: int| 0 <= i < schemes.len() && has_scheme(uri, #[trigger] schemes[i]);
        let k = schemes[i].len() as int;
        let front = uri.take(k);
        assert forall|j: int| 0 <= j < k implies uri[j] != 0x3A by {
            assert(scheme_letter(uri[j]));
        }
        lemma_find(uri, 0x3A, k);
        assert forall|j: int| 0 <= j < front.len() implies scheme_byte(#[trigger] front[j]) by {
            assert(scheme_letter(uri[j]));
        }
        assert forall|j: int| 0 <= j < uri.len() implies uri_byte(#[trigger] uri[j]) by {
            assert(uri[j] > 0x20);
        }
        assert(folded(front) =~= schemes[i]) by {
            assert forall|j: int| 0 <= j < k implies folded(front)[j] == schemes[i][j] by {
                assert(scheme_letter(uri[j]) && spells_char(uri[j], schemes[i][j]));
                assert(folded(front)[j] == folded_char(uri[j]));
            }
        }
        assert(schemes[i] == folded(front));
    }
}

proof fn lemma_found_colon(s: Seq<u8>)
    ensures
        0 <= find(s, 0x3A) <= s.len(),
        find(s, 0x3A) < s.len() ==> s[find(s, 0x3A)] == 0x3A,
    decreases s.len(),
{
    if s.len() > 0 && s[0] != 0x3A {
        lemma_found_colon(s.drop_first());
    }
}

/// Every URI in UTF-8 with a scheme of the list, without spaces and control
/// characters and not too long, may survive.
pub proof fn lemma_utf8_links_allowed(schemes: Seq<Seq<char>>, uri: Seq<u8>, i: int)
    requires
        0 <= i < schemes.len(),
        has_scheme(uri, schemes[i]),
        uri.len() <= 2048,
        valid_utf8(uri),
        forall|j: int| 0 <= j < uri.len() ==> #[trigger] uri[j] > 0x20 && uri[j] != 0x7F,
    ensures
        link_allowed(schemes, uri),
{
    assert forall|j: int| 0 <= j < uri.len() implies !control_byte(#[trigger] uri[j]) by {
        assert(uri[j] > 0x20);
    }
    lemma_textual_utf8(uri);
    lemma_textual_exactly(uri);
    lemma_links_exactly(schemes, uri);
}

/// Every printable ASCII byte but the space may stand after the colon of a link.
pub proof fn lemma_printable_links_allowed(schemes: Seq<Seq<char>>, uri: Seq<u8>, i: int)
    requires
        0 <= i < schemes.len(),
        has_scheme(uri, schemes[i]),
        uri.len() <= 2048,
        forall|j: int| 0 <= j < uri.len() ==> 0x21 <= #[trigger] uri[j] <= 0x7E,
    ensures
        link_allowed(schemes, uri),
{
    assert forall|j: int| 0 <= j < uri.len() implies #[trigger] uri[j] > 0x20 && uri[j]
        != 0x7F by {
        assert(0x21 <= uri[j] <= 0x7E);
    }
    assert forall|j: int| 0 <= j < uri.len() && 0x80 <= #[trigger] uri[j]
        <= 0x9F implies within_scalar(uri, j) by {
        assert(0x21 <= uri[j] <= 0x7E);
    }
    lemma_links_exactly(schemes, uri);
}

} // verus!
