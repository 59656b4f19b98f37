//! Policies as mathematics: what a preset keeps, what a refinement does to it,
//! and which links may survive.

use vstd::prelude::*;

use crate::classify::Class;
use crate::classify_model::find;
use crate::policy::{Preset, LINK_MAX};
use crate::utf8_model::textual;

verus! {

/// A policy as the set of classes it keeps, the URI schemes a kept hyperlink
/// may use, and whether a carriage return may stand alone.
#[verifier::ext_equal]
pub struct PolicyView {
    pub allowed: Set<Class>,
    pub link_schemes: Seq<Seq<char>>,
    pub allow_lone_cr: bool,
}

/// Why a refinement was refused.
#[verifier::ext_equal]
pub enum PolicyErrorView {
    UnknownClass(Seq<char>),
    MalformedNotAllowable,
}

/// The schemes that every preset starts with.
pub open spec fn preset_schemes() -> Seq<Seq<char>> {
    seq!["http"@, "https"@, "mailto"@]
}

/// The policy that a preset names.
pub open spec fn preset_policy(preset: Preset) -> PolicyView {
    match preset {
        Preset::Default => PolicyView {
            allowed: set![Class::Sgr, Class::Hyperlink],
            link_schemes: preset_schemes(),
            allow_lone_cr: true,
        },
        Preset::Strict => PolicyView {
            allowed: set![Class::Sgr],
            link_schemes: preset_schemes(),
            allow_lone_cr: false,
        },
        Preset::Plain => PolicyView {
            allowed: set![],
            link_schemes: preset_schemes(),
            allow_lone_cr: true,
        },
    }
}

/// The classes that a list of names stands for.
pub open spec fn named_classes(names: Seq<Seq<char>>) -> Set<Class> {
    Set::new(|c: Class| names.contains(c.title()))
}

/// The first name of an allow list that cannot be allowed, as the error it
/// gives.
pub open spec fn allow_error(names: Seq<Seq<char>>) -> Option<PolicyErrorView>
    decreases names.len(),
{
    if names.len() == 0 {
        None
    } else {
        match Class::named(names[0]) {
            None => Some(PolicyErrorView::UnknownClass(names[0])),
            Some(Class::Malformed) => Some(PolicyErrorView::MalformedNotAllowable),
            Some(_) => allow_error(names.drop_first()),
        }
    }
}

/// The first name of a deny list that names no class, as the error it gives.
pub open spec fn deny_error(names: Seq<Seq<char>>) -> Option<PolicyErrorView>
    decreases names.len(),
{
    if names.len() == 0 {
        None
    } else if Class::named(names[0]) is None {
        Some(PolicyErrorView::UnknownClass(names[0]))
    } else {
        deny_error(names.drop_first())
    }
}

/// Why a refinement is refused, if it is. The allow list is read first.
pub open spec fn refine_error(
    allow: Seq<Seq<char>>,
    deny: Seq<Seq<char>>,
) -> Option<PolicyErrorView> {
    match allow_error(allow) {
        Some(e) => Some(e),
        None => deny_error(deny),
    }
}

/// What a refinement makes of a policy: the allowed classes join it, and the
/// denied ones leave it.
pub open spec fn refined(
    p: PolicyView,
    allow: Seq<Seq<char>>,
    deny: Seq<Seq<char>>,
) -> PolicyView {
    PolicyView {
        allowed: p.allowed.union(named_classes(allow)).difference(named_classes(deny)),
        link_schemes: p.link_schemes,
        allow_lone_cr: p.allow_lone_cr,
    }
}

// --- links --------------------------------------------------------------------

/// A byte that a URI may hold: neither a 7-bit control byte nor a space.
pub open spec fn uri_byte(b: u8) -> bool {
    b > 0x20 && b != 0x7F
}

/// An ASCII capital letter.
pub open spec fn capital_byte(b: u8) -> bool {
    0x41 <= b <= 0x5A
}

/// A byte that a URI scheme may hold: a letter, a digit, `+`, `-` or `.`.
pub open spec fn scheme_byte(b: u8) -> bool {
    ||| 0x30 <= b <= 0x39
    ||| capital_byte(b)
    ||| 0x61 <= b <= 0x7A
    ||| b == 0x2B
    ||| b == 0x2D
    ||| b == 0x2E
}

/// Does `uri` hold only bytes that a URI may hold?
pub open spec fn all_uri(uri: Seq<u8>) -> bool {
    forall|i: int| 0 <= i < uri.len() ==> uri_byte(#[trigger] uri[i])
}

/// Does `scheme` hold only bytes that a URI scheme may hold?
pub open spec fn all_scheme(scheme: Seq<u8>) -> bool {
    forall|i: int| 0 <= i < scheme.len() ==> scheme_byte(#[trigger] scheme[i])
}

/// An ASCII byte as a character, with capital letters made small.
pub open spec fn folded_char(b: u8) -> char {
    if capital_byte(b) {
        (b + 0x20) as char
    } else {
        b as char
    }
}

/// ASCII bytes as characters, with capital letters made small.
pub open spec fn folded(s: Seq<u8>) -> Seq<char> {
    s.map_values(|b: u8| folded_char(b))
}

/// May a kept hyperlink point to `uri`? It must be non-empty and not too long,
/// hold no control byte of either kind and no space, and name one of the
/// schemes before its first colon, in small or capital letters.
pub open spec fn link_allowed(schemes: Seq<Seq<char>>, uri: Seq<u8>) -> bool {
    // `:`
    let scheme = uri.take(find(uri, 0x3A));
    &&& 0 < uri.len() <= LINK_MAX
    &&& all_uri(uri)
    &&& textual(uri)
    &&& find(uri, 0x3A) < uri.len()
    &&& all_scheme(scheme)
    &&& schemes.contains(folded(scheme))
}

} // verus!
