//! What holds of policies however they are built.

use vstd::prelude::*;

use crate::classify::Class;
use crate::classify_laws::lemma_class_named;
use crate::policy::{Policy, Preset};
use crate::policy_model::{allow_error, deny_error, refine_error, refined, PolicyView};
use crate::rescan_laws::policy_ok;

verus! {

/// Preset names round-trip.
pub proof fn lemma_preset_named(preset: Preset)
    ensures
        Preset::named(preset.title()) == Some(preset),
{
    reveal_strlit("default");
    reveal_strlit("strict");
    reveal_strlit("plain");
    assert("default"@[0] == 'd');
    assert("strict"@[0] == 's');
    assert("plain"@[0] == 'p');
}

/// No policy allows malformed sequences, whatever its table holds.
pub proof fn lemma_malformed_never_allowed(policy: Policy)
    ensures
        policy_ok(policy@),
{
}

/// Deny wins over allow: a denied class is stripped, an allowed one that is
/// not denied is kept, and every other class stays as it was. Schemes and the
/// treatment of lone carriage returns do not change.
pub proof fn lemma_deny_wins(
    p: PolicyView,
    allow: Seq<Seq<char>>,
    deny: Seq<Seq<char>>,
    class: Class,
)
    ensures
        refined(p, allow, deny).allowed.contains(class) == if deny.contains(class.title()) {
            false
        } else if allow.contains(class.title()) {
            true
        } else {
            p.allowed.contains(class)
        },
        refined(p, allow, deny).link_schemes == p.link_schemes,
        refined(p, allow, deny).allow_lone_cr == p.allow_lone_cr,
{
}

/// A list can be allowed if and only if each of its names names a class other
/// than `malformed`.
proof fn lemma_allow_error(names: Seq<Seq<char>>)
    ensures
        allow_error(names) is None <==> forall|i: int|
            0 <= i < names.len() ==> (#[trigger] Class::named(names[i]) matches Some(c) && c
                != Class::Malformed),
    decreases names.len(),
{
    if names.len() > 0 {
        let rest = names.drop_first();
        lemma_allow_error(rest);
        let first = Class::named(names[0]);
        if allow_error(names) is None {
            assert forall|i: int| 0 <= i < names.len() implies (#[trigger] Class::named(
                names[i],
            ) matches Some(c) && c != Class::Malformed) by {
                if i > 0 {
                    assert(names[i] == rest[i - 1]);
                }
            }
        } else if first matches Some(c) && c != Class::Malformed {
            let j = choose|j: int|
                0 <= j < rest.len() && !(#[trigger] Class::named(rest[j]) matches Some(c) && c
                    != Class::Malformed);
            assert(names[j + 1] == rest[j]);
        }
    }
}

/// A list can be denied if and only if each of its names names a class.
proof fn lemma_deny_error(names: Seq<Seq<char>>)
    ensures
        deny_error(names) is None <==> forall|i: int|
            0 <= i < names.len() ==> #[trigger] Class::named(names[i]) is Some,
    decreases names.len(),
{
    if names.len() > 0 {
        let rest = names.drop_first();
        lemma_deny_error(rest);
        if deny_error(names) is None {
            assert forall|i: int| 0 <= i < names.len() implies #[trigger] Class::named(
                names[i],
            ) is Some by {
                if i > 0 {
                    assert(names[i] == rest[i - 1]);
                }
            }
        } else if Class::named(names[0]) is Some {
            let j = choose|j: int| 0 <= j < rest.len() && !(#[trigger] Class::named(rest[j]) is Some);
            assert(names[j + 1] == rest[j]);
        }
    }
}

/// A refinement is accepted if and only if every name names a class and
/// `malformed` is not among the allowed ones; an accepted one keeps malformed
/// sequences out.
pub proof fn lemma_refinement_accepted(
    p: PolicyView,
    allow: Seq<Seq<char>>,
    deny: Seq<Seq<char>>,
)
    ensures
        refine_error(allow, deny) is None <==> {
            &&& forall|i: int|
                0 <= i < allow.len() ==> (#[trigger] Class::named(allow[i]) matches Some(c) && c
                    != Class::Malformed)
            &&& forall|i: int| 0 <= i < deny.len() ==> #[trigger] Class::named(deny[i]) is Some
        },
        refine_error(allow, deny) is None && policy_ok(p) ==> policy_ok(refined(p, allow, deny)),
{
    lemma_allow_error(allow);
    lemma_deny_error(deny);
    if refine_error(allow, deny) is None && allow.contains(Class::Malformed.title()) {
        let i = choose|i: int| 0 <= i < allow.len() && allow[i] == Class::Malformed.title();
        assert(Class::named(allow[i]) is Some);
        lemma_class_named(Class::Malformed);
    }
}

} // verus!
