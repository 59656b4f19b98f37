//! Allowlist policy: which classes survive, and under what conditions.
//!
//! A policy starts from a named preset and is refined with `--allow` /
//! `--deny` class lists. The design is allowlist-first: everything the
//! policy does not explicitly permit is stripped, so a new escape sequence
//! invented tomorrow is stripped by default, not waved through.

use vstd::prelude::*;
use vstd::slice::slice_subrange;
use vstd::string::StringExecFns;

use crate::bytes::find_byte;
use crate::classify::{lemma_place, Class, ALL_CLASSES};
use crate::classify_laws::lemma_class_named;
use crate::classify_model::find;
use crate::policy_model::{
    all_scheme, all_uri, allow_error, deny_error, folded, link_allowed, named_classes,
    preset_policy, preset_schemes, refine_error, refined, scheme_byte, uri_byte, PolicyErrorView,
    PolicyView,
};
use crate::text::{clone_strings, list_contains, str_eq, texts};
use crate::utf8::is_textual;

verus! {

/// Longest URI that a kept hyperlink may have.
pub const LINK_MAX: usize = 2048;

/// Named starting points for a policy.
#[derive(Debug, Clone, Copy, PartialEq, Eq, Structural)]
pub enum Preset {
    /// Keep colors/styling and safe-scheme hyperlinks. The sane default for
    /// piping build logs, LLM output and `curl`ed files through.
    Default,
    /// Keep colors/styling only; additionally drop lone carriage returns so
    /// nothing can rewrite the current line after you read it.
    Strict,
    /// Strip every escape sequence including styling: plain text out.
    Plain,
}

impl Preset {
    /// The preset's name.
    pub open spec fn title(self) -> Seq<char> {
        match self {
            Preset::Default => "default"@,
            Preset::Strict => "strict"@,
            Preset::Plain => "plain"@,
        }
    }

    /// The preset that bears a name, if one does.
    pub open spec fn named(name: Seq<char>) -> Option<Preset> {
        if name == "default"@ {
            Some(Preset::Default)
        } else if name == "strict"@ {
            Some(Preset::Strict)
        } else if name == "plain"@ {
            Some(Preset::Plain)
        } else {
            None
        }
    }

    pub fn from_name(name: &str) -> (preset: Option<Preset>)
        ensures
            preset == Preset::named(name@),
    {
        if str_eq(name, "default") {
            Some(Preset::Default)
        } else if str_eq(name, "strict") {
            Some(Preset::Strict)
        } else if str_eq(name, "plain") {
            Some(Preset::Plain)
        } else {
            None
        }
    }

    pub fn name(self) -> (name: &'static str)
        ensures
            name@ == self.title(),
    {
        match self {
            Preset::Default => "default",
            Preset::Strict => "strict",
            Preset::Plain => "plain",
        }
    }
}

/// Errors from building a policy out of CLI input.
#[derive(Debug, Clone, PartialEq, Eq)]
pub enum PolicyError {
    UnknownClass(String),
    /// `malformed` can never be allowed: there is nothing safe to re-emit.
    MalformedNotAllowable,
}

impl View for PolicyError {
    type V = PolicyErrorView;

    open spec fn view(&self) -> PolicyErrorView {
        match *self {
            PolicyError::UnknownClass(name) => PolicyErrorView::UnknownClass(name@),
            PolicyError::MalformedNotAllowable => PolicyErrorView::MalformedNotAllowable,
        }
    }
}

impl PolicyErrorView {
    /// The message for the user.
    pub open spec fn message(self) -> Seq<char> {
        match self {
            PolicyErrorView::UnknownClass(name) => "unknown class '"@ + name
                + "' (see `seqsafe classes`)"@,
            PolicyErrorView::MalformedNotAllowable => "class 'malformed' cannot be allowed"@,
        }
    }
}

impl PolicyError {
    /// The message for the user.
    pub fn to_string(&self) -> (message: String)
        ensures
            message@ == self@.message(),
    {
        match self {
            PolicyError::UnknownClass(name) => {
                let mut message = String::from_str("unknown class '");
                message.append(name.as_str());
                message.append("' (see `seqsafe classes`)");
                message
            },
            PolicyError::MalformedNotAllowable => String::from_str(
                "class 'malformed' cannot be allowed",
            ),
        }
    }
}

/// A set of classes, as a table with one entry per class.
#[derive(Debug, Clone, Copy)]
pub struct ClassSet {
    members: [bool; 16],
}

impl View for ClassSet {
    type V = Set<Class>;

    closed spec fn view(&self) -> Set<Class> {
        Set::new(|c: Class| self.members@[c.place()])
    }
}

impl ClassSet {
    /// The set without members.
    pub fn new() -> (s: ClassSet)
        ensures
            s@ == Set::<Class>::empty(),
    {
        let s = ClassSet { members: [false; 16] };
        proof {
            lemma_places();
        }
        assert(s@ =~= Set::<Class>::empty());
        s
    }

    /// Is `class` a member?
    pub fn contains(&self, class: Class) -> (member: bool)
        ensures
            member == self@.contains(class),
    {
        self.members[idx(class)]
    }

    /// Makes `class` a member.
    pub fn insert(&mut self, class: Class)
        ensures
            final(self)@ == old(self)@.insert(class),
    {
        self.members[idx(class)] = true;
        proof {
            lemma_places();
        }
        assert(self@ =~= old(self)@.insert(class));
    }

    /// Makes `class` no member.
    pub fn remove(&mut self, class: Class)
        ensures
            final(self)@ == old(self)@.remove(class),
    {
        self.members[idx(class)] = false;
        proof {
            lemma_places();
        }
        assert(self@ =~= old(self)@.remove(class));
    }
}

fn idx(class: Class) -> (i: usize)
    ensures
        i == class.place(),
        i < 16,
{
    proof {
        lemma_place(class);
    }
    let mut i: usize = 0;
    while ALL_CLASSES[i] != class
        invariant
            0 <= i <= class.place() < 16,
            ALL_CLASSES@[class.place()] == class,
        decreases 16 - i,
    {
        i += 1;
    }
    proof {
        lemma_place(ALL_CLASSES@[i as int]);
    }
    i
}

/// Every class has a place of its own in the table.
proof fn lemma_places()
    ensures
        forall|c: Class| 0 <= #[trigger] c.place() < 16,
        forall|c: Class, d: Class| #[trigger] c.place() == #[trigger] d.place() ==> c == d,
{
    assert forall|c: Class| 0 <= #[trigger] c.place() < 16 by {
        lemma_place(c);
    }
    assert forall|c: Class, d: Class| #[trigger] c.place() == #[trigger] d.place() implies c
        == d by {
        lemma_place(c);
        lemma_place(d);
    }
}

/// The compiled keep/strip decision table.
#[derive(Debug)]
pub struct Policy {
    /// Classes to keep. Malformed sequences are stripped even where the set
    /// holds their class.
    pub allowed: ClassSet,
    /// URI schemes a kept hyperlink may use (lowercase, no colon).
    pub link_schemes: Vec<String>,
    /// Keep a carriage return that is not part of a CRLF pair.
    pub allow_lone_cr: bool,
}

impl View for Policy {
    type V = PolicyView;

    open spec fn view(&self) -> PolicyView {
        PolicyView {
            allowed: self.allowed@.remove(Class::Malformed),
            link_schemes: texts(self.link_schemes@),
            allow_lone_cr: self.allow_lone_cr,
        }
    }
}

impl Clone for Policy {
    fn clone(&self) -> (copy: Self)
        ensures
            copy@ == self@,
    {
        Policy {
            allowed: self.allowed,
            link_schemes: clone_strings(&self.link_schemes),
            allow_lone_cr: self.allow_lone_cr,
        }
    }
}

impl Policy {
    /// Build the base policy for a preset.
    pub fn preset(preset: Preset) -> (policy: Policy)
        ensures
            policy@ == preset_policy(preset),
    {
        let mut allowed = ClassSet::new();
        match preset {
            Preset::Default => {
                allowed.insert(Class::Sgr);
                allowed.insert(Class::Hyperlink);
            },
            Preset::Strict => {
                allowed.insert(Class::Sgr);
            },
            Preset::Plain => {},
        }
        let link_schemes = vec![
            String::from_str("http"),
            String::from_str("https"),
            String::from_str("mailto"),
        ];
        let allow_lone_cr = match preset {
            Preset::Default => true,
            Preset::Strict => false,
            Preset::Plain => true,
        };
        assert(texts(link_schemes@) =~= preset_schemes());
        let policy = Policy { allowed, link_schemes, allow_lone_cr };
        assert(policy@.allowed =~= preset_policy(preset).allowed);
        policy
    }

    /// Apply `--allow` / `--deny` refinements. Deny wins over allow.
    pub fn refine(self, allow: &[String], deny: &[String]) -> (result: Result<Policy, PolicyError>)
        ensures
            match result {
                Ok(policy) => {
                    &&& refine_error(texts(allow@), texts(deny@)) is None
                    &&& policy@ == refined(self@, texts(allow@), texts(deny@))
                },
                Err(e) => refine_error(texts(allow@), texts(deny@)) == Some(e@),
            },
    {
        let mut policy = self;
        let ghost a = texts(allow@);
        let ghost d = texts(deny@);
        let ghost start = self.allowed@;
        let mut i: usize = 0;
        assert(a.skip(0) =~= a);
        assert(start =~= start.union(named_classes(a.take(0))));
        while i < allow.len()
            invariant
                i <= allow@.len(),
                a == texts(allow@),
                allow_error(a) == allow_error(a.skip(i as int)),
                !named_classes(a.take(i as int)).contains(Class::Malformed),
                policy.link_schemes == self.link_schemes,
                policy.allow_lone_cr == self.allow_lone_cr,
                policy.allowed@ == start.union(named_classes(a.take(i as int))),
            decreases allow@.len() - i,
        {
            let name = allow[i].as_str();
            assert(a.skip(i as int)[0] == name@);
            assert(a.skip(i as int).drop_first() =~= a.skip(i + 1));
            match Class::from_name(name) {
                None => {
                    return Err(PolicyError::UnknownClass(String::from_str(name)));
                },
                Some(class) => {
                    if class == Class::Malformed {
                        return Err(PolicyError::MalformedNotAllowable);
                    }
                    policy.allowed.insert(class);
                    proof {
                        lemma_one_more_name(a, i as int, class);
                        assert(policy.allowed@ =~= start.union(named_classes(a.take(i + 1))));
                    }
                },
            }
            i += 1;
        }
        assert(a.take(i as int) =~= a);
        let ghost middle = policy.allowed@;
        let mut j: usize = 0;
        assert(d.skip(0) =~= d);
        assert(middle =~= middle.difference(named_classes(d.take(0))));
        while j < deny.len()
            invariant
                j <= deny@.len(),
                d == texts(deny@),
                a == texts(allow@),
                allow_error(a) is None,
                deny_error(d) == deny_error(d.skip(j as int)),
                policy.link_schemes == self.link_schemes,
                policy.allow_lone_cr == self.allow_lone_cr,
                policy.allowed@ == middle.difference(named_classes(d.take(j as int))),
            decreases deny@.len() - j,
        {
            let name = deny[j].as_str();
            assert(d.skip(j as int)[0] == name@);
            assert(d.skip(j as int).drop_first() =~= d.skip(j + 1));
            match Class::from_name(name) {
                None => {
                    return Err(PolicyError::UnknownClass(String::from_str(name)));
                },
                Some(class) => {
                    policy.allowed.remove(class);
                    proof {
                        lemma_one_more_name(d, j as int, class);
                        assert(policy.allowed@ =~= middle.difference(
                            named_classes(d.take(j + 1)),
                        ));
                    }
                },
            }
            j += 1;
        }
        assert(d.take(j as int) =~= d);
        assert(policy@.allowed =~= refined(self@, a, d).allowed);
        Ok(policy)
    }

    /// Is this class kept by the policy? (Hyperlinks additionally pass
    /// through [`Policy::allows_link`]; malformed is never kept.)
    pub fn allows(&self, class: Class) -> (kept: bool)
        ensures
            kept == self@.allowed.contains(class),
    {
        class != Class::Malformed && self.allowed.contains(class)
    }

    /// Validate a hyperlink URI against the scheme allowlist. The URI must
    /// be non-empty, contain no control bytes, 7-bit or raw C1, no whitespace,
    /// and use an allowlisted scheme.
    pub fn allows_link(&self, uri: &[u8]) -> (allowed: bool)
        ensures
            allowed == link_allowed(self@.link_schemes, uri@),
    {
        if uri.len() == 0 || uri.len() > LINK_MAX {
            return false;
        }
        if !uri_clean(uri) || !is_textual(uri) {
            return false;
        }
        assert(uri@.skip(0) =~= uri@);
        // `:`
        let colon = find_byte(uri, 0, 0x3A);
        if colon == uri.len() {
            return false;
        }
        let scheme = slice_subrange(uri, 0, colon);
        assert(scheme@ =~= uri@.take(find(uri@, 0x3A)));
        if !scheme_clean(scheme) {
            return false;
        }
        let scheme = fold(scheme);
        list_contains(&self.link_schemes, scheme.as_str())
    }
}

/// One more name stands for one more class.
proof fn lemma_one_more_name(names: Seq<Seq<char>>, i: int, class: Class)
    requires
        0 <= i < names.len(),
        class.title() == names[i],
    ensures
        named_classes(names.take(i + 1)) == named_classes(names.take(i)).insert(class),
{
    let less = names.take(i);
    let more = names.take(i + 1);
    assert(more =~= less.push(names[i]));
    assert forall|c: Class| named_classes(more).contains(c) == named_classes(less).insert(
        class,
    ).contains(c) by {
        lemma_class_named(class);
        if less.contains(c.title()) {
            let j = choose|j: int| 0 <= j < less.len() && less[j] == c.title();
            assert(more[j] == c.title());
        }
        assert(more[i] == class.title());
    }
    assert(named_classes(more) =~= named_classes(less).insert(class));
}

fn uri_clean(uri: &[u8]) -> (clean: bool)
    ensures
        clean == all_uri(uri@),
{
    let mut i: usize = 0;
    while i < uri.len()
        invariant
            i <= uri@.len(),
            forall|j: int| 0 <= j < i ==> uri_byte(#[trigger] uri@[j]),
        decreases uri@.len() - i,
    {
        if uri[i] <= 0x20 || uri[i] == 0x7F {
            assert(!uri_byte(uri@[i as int]));
            return false;
        }
        i += 1;
    }
    true
}

fn scheme_clean(scheme: &[u8]) -> (clean: bool)
    ensures
        clean == all_scheme(scheme@),
{
    let mut i: usize = 0;
    while i < scheme.len()
        invariant
            i <= scheme@.len(),
            forall|j: int| 0 <= j < i ==> scheme_byte(#[trigger] scheme@[j]),
        decreases scheme@.len() - i,
    {
        let b = scheme[i];
        if !((0x30 <= b && b <= 0x39) || (0x41 <= b && b <= 0x5A) || (0x61 <= b && b <= 0x7A) || b
            == 0x2B || b == 0x2D || b == 0x2E) {
            assert(!scheme_byte(scheme@[i as int]));
            return false;
        }
        i += 1;
    }
    true
}

/// The scheme as a string, with capital letters made small.
fn fold(scheme: &[u8]) -> (s: String)
    ensures
        s@ == folded(scheme@),
{
    let mut s = String::new();
    let mut i: usize = 0;
    while i < scheme.len()
        invariant
            i <= scheme@.len(),
            s@ == folded(scheme@).take(i as int),
        decreases scheme@.len() - i,
    {
        let b = scheme[i];
        let c = if 0x41 <= b && b <= 0x5A {
            (b + 0x20) as char
        } else {
            b as char
        };
        assert(c == folded(scheme@)[i as int]);
        s.push(c);
        i += 1;
        assert(s@ =~= folded(scheme@).take(i as int));
    }
    assert(s@ =~= folded(scheme@));
    s
}

} // verus!
