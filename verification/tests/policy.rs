//! Policy unit tests: preset tables, allow/deny refinement precedence,
//! and the hyperlink scheme allowlist.

use seqsafe::classify::Class;
use seqsafe::policy::{Policy, PolicyError, Preset};

#[test]
fn default_preset_keeps_styling_and_links_only() {
    let p = Policy::preset(Preset::Default);
    assert!(p.allows(Class::Sgr));
    assert!(p.allows(Class::Hyperlink));
    for c in [
        Class::Clipboard,
        Class::Title,
        Class::Query,
        Class::Dcs,
        Class::Cursor,
        Class::Charset,
        Class::Mode,
        Class::C1,
        Class::Unknown,
    ] {
        assert!(!p.allows(c), "{c:?} must be stripped by default");
    }
    assert!(p.allow_lone_cr);
}

#[test]
fn strict_preset_drops_hyperlinks_and_lone_cr() {
    let p = Policy::preset(Preset::Strict);
    assert!(p.allows(Class::Sgr));
    assert!(!p.allows(Class::Hyperlink));
    assert!(!p.allow_lone_cr);
}

#[test]
fn plain_preset_strips_even_sgr() {
    let p = Policy::preset(Preset::Plain);
    assert!(!p.allows(Class::Sgr));
    assert!(!p.allows(Class::Hyperlink));
}

#[test]
fn allow_widens_and_deny_narrows() {
    let p = Policy::preset(Preset::Default)
        .refine(&["cursor".into(), "screen".into()], &["hyperlink".into()])
        .unwrap();
    assert!(p.allows(Class::Cursor));
    assert!(p.allows(Class::Screen));
    assert!(!p.allows(Class::Hyperlink));
}

#[test]
fn deny_wins_over_allow_for_the_same_class() {
    let p = Policy::preset(Preset::Default)
        .refine(&["title".into()], &["title".into()])
        .unwrap();
    assert!(!p.allows(Class::Title));
}

#[test]
fn unknown_class_name_is_an_error() {
    let err = Policy::preset(Preset::Default)
        .refine(&["colours".into()], &[])
        .unwrap_err();
    assert!(matches!(err, PolicyError::UnknownClass(_)));
}

#[test]
fn malformed_can_never_be_allowed() {
    let err = Policy::preset(Preset::Default)
        .refine(&["malformed".into()], &[])
        .unwrap_err();
    assert_eq!(err, PolicyError::MalformedNotAllowable);
    // ...and even a hand-patched table refuses at query time.
    let p = Policy::preset(Preset::Default);
    assert!(!p.allows(Class::Malformed));
}

#[test]
fn link_scheme_allowlist() {
    let p = Policy::preset(Preset::Default);
    assert!(p.allows_link(b"https://example.test/path?q=1"));
    assert!(p.allows_link(b"HTTP://example.test")); // scheme case-folded
    assert!(p.allows_link(b"mailto:user@example.test"));
    assert!(!p.allows_link(b"file:///etc/passwd"));
    assert!(!p.allows_link(b"javascript:alert(1)"));
    assert!(!p.allows_link(b"ftp://example.test"));
}

#[test]
fn link_rejects_control_bytes_whitespace_and_schemeless() {
    let p = Policy::preset(Preset::Default);
    assert!(!p.allows_link(b""));
    assert!(!p.allows_link(b"no-scheme-here"));
    assert!(!p.allows_link(b"https://example.test/\x07bel"));
    assert!(!p.allows_link(b"https://example.test/a b"));
    let long = [b'a'; 3000];
    let mut uri = b"https://".to_vec();
    uri.extend_from_slice(&long);
    assert!(!p.allows_link(&uri));
}

#[test]
fn custom_link_schemes_are_respected() {
    let mut p = Policy::preset(Preset::Default);
    p.link_schemes = vec!["ftp".into()];
    assert!(p.allows_link(b"ftp://example.test"));
    assert!(!p.allows_link(b"https://example.test"));
}
