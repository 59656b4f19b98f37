//! Edge cases of tokenizing, classification, policies and reports.

use seqsafe::classify::{classify, hyperlink_uri, split_osc, Class, Severity, ALL_CLASSES};
use seqsafe::parser::{
    tokenize, MalformedReason, Parser, StrKind, Token, CSI_MAX, ESC_INTERM_MAX, STR_MAX,
};
use seqsafe::policy::{ClassSet, Policy, PolicyError, Preset, LINK_MAX};
use seqsafe::report::{
    finding_line, render_classes, render_explain, render_human, render_json, render_summary,
};
use seqsafe::sanitize::{sanitize_bytes, Action, Summary};

fn label(input: &[u8]) -> (Class, Severity, &'static str) {
    let toks = tokenize(input);
    assert_eq!(toks.len(), 1, "{toks:?}");
    let v = classify(&toks[0]);
    (v.class, v.severity, v.label)
}

#[test]
fn caps_are_inclusive() {
    let mut csi = b"\x1b[".to_vec();
    csi.extend(vec![b'1'; CSI_MAX - 3]);
    csi.push(b'm');
    assert_eq!(csi.len(), CSI_MAX);
    assert!(matches!(&tokenize(&csi)[..], [Token::Csi { .. }]));
    csi.insert(2, b'1');
    assert!(matches!(
        &tokenize(&csi)[..],
        [Token::Malformed { reason: MalformedReason::Oversized, .. }]
    ));

    let mut osc = b"\x1b]".to_vec();
    osc.extend(vec![b'a'; STR_MAX]);
    osc.extend(b"\x1b\\");
    match &tokenize(&osc)[..] {
        [Token::Str { payload, raw, len, overlong, .. }] => {
            assert_eq!(payload.len(), STR_MAX);
            assert_eq!(raw.len(), STR_MAX + 4);
            assert_eq!(*len, osc.len());
            assert!(!overlong);
        }
        other => panic!("unexpected {other:?}"),
    }

    let mut esc = vec![0x1B];
    esc.extend(vec![b'('; ESC_INTERM_MAX]);
    esc.push(b'0');
    assert!(matches!(&tokenize(&esc)[..], [Token::Esc { .. }]));
    esc.insert(1, b'(');
    assert_eq!(
        tokenize(&esc),
        vec![
            Token::Malformed {
                raw: b"\x1b(((((".to_vec(),
                len: 6,
                reason: MalformedReason::Oversized
            },
            Token::Text(b"0".to_vec()),
        ]
    );
}

#[test]
fn held_escape_counts_at_the_end_of_input() {
    let mut p = Parser::default();
    let mut toks = Vec::new();
    p.feed(b"\x1bPxy", &mut toks);
    p.feed(b"\x1b", &mut toks);
    assert!(toks.is_empty());
    p.finish(&mut toks);
    assert_eq!(
        toks,
        vec![Token::Malformed {
            raw: b"\x1bPxy".to_vec(),
            len: 5,
            reason: MalformedReason::Truncated
        }]
    );
}

#[test]
fn payload_past_the_cap_is_counted_and_not_retained() {
    let mut osc = b"\x1b]".to_vec();
    osc.extend(vec![b'a'; STR_MAX + 3]);
    osc.push(0x07);
    match &tokenize(&osc)[..] {
        [Token::Str { payload, raw, len, overlong, .. }] => {
            assert_eq!(payload.len(), STR_MAX);
            assert_eq!(raw[..], osc[..STR_MAX + 2]);
            assert_eq!(*len, osc.len());
            assert!(overlong);
        }
        other => panic!("unexpected {other:?}"),
    }
    // Given up, it keeps to the same bytes, and the control byte is read.
    osc.pop();
    osc.push(0x0A);
    match &tokenize(&osc)[..] {
        [Token::Malformed { raw, len, reason }, Token::Control(0x0A)] => {
            assert_eq!(raw[..], osc[..STR_MAX + 2]);
            assert_eq!(*len, osc.len() - 1);
            assert_eq!(*reason, MalformedReason::AbortedByControl);
        }
        other => panic!("unexpected {other:?}"),
    }
}

#[test]
fn bytes_that_start_no_character_hide_no_introducer() {
    // Overlong leads, bare continuation bytes and what lies beyond Unicode.
    for lead in [0xC0u8, 0xC1, 0xF5, 0xF7, 0xF8, 0xFF, 0xA0, 0xBF] {
        assert_eq!(
            tokenize(&[lead, 0x9B, 0x32, 0x4A]),
            vec![
                Token::Text(vec![lead]),
                Token::Csi {
                    params: b"2".to_vec(),
                    intermediates: Vec::new(),
                    final_byte: b'J',
                    raw: b"\x9b2J".to_vec(),
                },
            ],
            "{lead:#x}"
        );
    }
}

#[test]
fn characters_that_do_not_complete_are_read_again() {
    // The last byte completes no character, so 0x9B opens a control sequence.
    for input in [
        &b"\xe2\x9b1m"[..],
        b"\xf0\xa0\x9b1m",
        b"\xe0\x9b1m",
        b"\xf4\x9b1m",
        b"\xe2\x80\x1b[1m",
    ] {
        let toks = tokenize(input);
        assert!(matches!(toks.last(), Some(Token::Csi { final_byte: b'm', .. })), "{toks:?}");
        assert_eq!(toks.iter().map(|t| t.byte_len()).sum::<usize>(), input.len());
    }
    assert_eq!(
        tokenize(b"\xe2\x85x"),
        vec![Token::Text(vec![0xE2]), Token::C1(0x85), Token::Text(b"x".to_vec())]
    );
    assert_eq!(tokenize(b"\xe2\xa0x"), vec![Token::Text(b"\xe2\xa0x".to_vec())]);
    // At the end of input too.
    assert_eq!(tokenize(b"\xe2\x85"), vec![Token::Text(vec![0xE2]), Token::C1(0x85)]);
    // Surrogates and what lies beyond Unicode are no characters.
    assert_eq!(
        tokenize(b"\xed\xa0\x85"),
        vec![Token::Text(vec![0xED, 0xA0]), Token::C1(0x85)]
    );
    match &tokenize(b"\xf4\x90\x85\x9c")[..] {
        [Token::Text(text), Token::Str { kind, payload, .. }] => {
            assert_eq!(text[..], [0xF4]);
            assert_eq!(*kind, StrKind::Dcs);
            assert_eq!(payload[..], [0x85]);
        }
        other => panic!("unexpected {other:?}"),
    }
    // Complete ones are text, whatever their bytes.
    for text in ["\u{85}\u{9b}2J", "\u{1F6DF}", "\u{d7ff}\u{e000}", "\u{10ffff}", "\u{800}"] {
        assert_eq!(tokenize(text.as_bytes()), vec![Token::Text(text.as_bytes().to_vec())]);
    }
}

#[test]
fn control_and_high_bytes_break_a_control_sequence() {
    for (input, reason) in [
        (&b"\x1b[1\x18"[..], MalformedReason::AbortedByControl),
        (b"\x1b[1\x7f", MalformedReason::AbortedByControl),
        (b"\x1b[1\xc3", MalformedReason::BadByte),
        (b"\x1b[1\x85", MalformedReason::BadByte),
        (b"\x1b\xc3", MalformedReason::BadByte),
        (b"\x1b\xa0", MalformedReason::BadByte),
        (b"\x1b\x85", MalformedReason::AbortedByControl),
        (b"\x1b(\x85", MalformedReason::AbortedByControl),
        (b"\x1b(\x18", MalformedReason::AbortedByControl),
    ] {
        match &tokenize(input)[..] {
            [Token::Malformed { raw, reason: found, .. }, after] => {
                assert_eq!(*found, reason, "{input:?}");
                assert_eq!(raw[..], input[..input.len() - 1]);
                assert_eq!(after.byte_len(), 1);
            }
            other => panic!("unexpected {other:?}"),
        }
    }
}

#[test]
fn bel_ends_only_operating_system_commands() {
    assert_eq!(
        tokenize(b"\x1bPa\x07b\x1b\\"),
        vec![
            Token::Malformed {
                raw: b"\x1bPa".to_vec(),
                len: 3,
                reason: MalformedReason::AbortedByControl
            },
            Token::Control(0x07),
            Token::Text(b"b".to_vec()),
            Token::Esc {
                intermediates: Vec::new(),
                final_byte: b'\\',
                raw: b"\x1b\\".to_vec()
            },
        ]
    );
    for intro in [&b"\x1b_"[..], b"\x1b^", b"\x1bX", b"\x90", b"\x98"] {
        let mut input = intro.to_vec();
        input.extend(b"a\x07");
        assert!(matches!(
            &tokenize(&input)[..],
            [
                Token::Malformed { reason: MalformedReason::AbortedByControl, .. },
                Token::Control(0x07)
            ]
        ));
    }
    assert!(matches!(&tokenize(b"\x1b]a\x07")[..], [Token::Str { kind: StrKind::Osc, .. }]));
}

#[test]
fn control_bytes_break_a_full_control_sequence() {
    for b in [b'\n', b'\t', 0x07, 0x7F] {
        let mut input = b"\x1b[".to_vec();
        input.extend(vec![b'1'; CSI_MAX - 2]);
        input.push(b);
        match &tokenize(&input)[..] {
            [Token::Malformed { raw, reason, .. }, Token::Control(c)] => {
                assert_eq!(raw[..], input[..CSI_MAX]);
                assert_eq!(*reason, MalformedReason::AbortedByControl);
                assert_eq!(*c, b);
            }
            other => panic!("unexpected {other:?}"),
        }
    }
}

#[test]
fn hyperlinks_hold_no_raw_control_bytes() {
    let policy = Policy::preset(Preset::Default);
    assert!(!policy.allows_link(b"https://example.test/\x9b2J"));
    assert!(!policy.allows_link(b"https://example.test/\xe2\x9b"));
    assert!(policy.allows_link("https://example.test/\u{26F0}".as_bytes()));
    for input in [
        &b"\x1b]8;;https://example.test/\x9b2J\x07"[..],
        b"\x1b]8;id=\x85;https://example.test/\x07",
        b"\x1b]8;\x9b2J;\x07",
    ] {
        let (out, findings, _) = sanitize_bytes(input, &policy);
        assert!(out.is_empty(), "{input:?}");
        assert_eq!(findings.len(), 1);
        assert_eq!(findings[0].label, "unsafe-link");
        assert_eq!(findings[0].severity, Severity::Medium);
        assert_eq!(findings[0].class, Class::Hyperlink);
    }
    let kept = "\x1b]8;id=\u{9b};https://example.test/\u{26F0}\x1b\\".as_bytes();
    assert_eq!(sanitize_bytes(kept, &policy).0, kept);
}

#[test]
fn classification_table() {
    assert_eq!(label(b"\x1b[ q"), (Class::Mode, Severity::Medium, "cursor-style"));
    assert_eq!(label(b"\x1bH"), (Class::Screen, Severity::Medium, "tab-set"));
    assert_eq!(label(b"\x1b#8"), (Class::Screen, Severity::Medium, "dec-screen-test"));
    assert_eq!(label(b"\x1b%G"), (Class::Charset, Severity::High, "charset-select"));
    assert_eq!(label(b"\x1b\\"), (Class::Unknown, Severity::Low, "stray-terminator"));
    assert_eq!(label(b"\x1b[?47l"), (Class::Mode, Severity::High, "alt-screen"));
    assert_eq!(label(b"\x1b[?25h"), (Class::Mode, Severity::High, "cursor-visibility"));
    assert_eq!(label(b"\x1b[?2026h"), (Class::Mode, Severity::High, "sync-update"));
    assert_eq!(label(b"\x1b[?7h"), (Class::Mode, Severity::High, "private-mode-set"));
    assert_eq!(label(b"\x1b[?l"), (Class::Mode, Severity::High, "private-mode-reset"));
    assert_eq!(label(b"\x1b[4h"), (Class::Mode, Severity::Medium, "ansi-mode"));
    assert_eq!(label(b"\x1b[8t"), (Class::Query, Severity::High, "window-op"));
    assert_eq!(label(b"\x1b[5q"), (Class::Unknown, Severity::Medium, "csi-unknown"));
    assert_eq!(label(b"\x1b[1 p"), (Class::Unknown, Severity::Medium, "csi-unknown"));
    assert_eq!(label(b"\x1b]4;1;red\x07"), (Class::Palette, Severity::Medium, "palette-set"));
    assert_eq!(label(b"\x1b]104\x07"), (Class::Palette, Severity::Medium, "palette-reset"));
    assert_eq!(label(b"\x1b]119\x07"), (Class::Palette, Severity::Medium, "default-colors-reset"));
    assert_eq!(label(b"\x1b]7;x\x07"), (Class::Unknown, Severity::Low, "cwd-report"));
    assert_eq!(label(b"\x1b]777;x\x07"), (Class::Unknown, Severity::Medium, "desktop-notification"));
    assert_eq!(label(b"\x1b]133;A\x07"), (Class::Unknown, Severity::Low, "semantic-prompt"));
    assert_eq!(label(b"\x1b]22;x\x07"), (Class::Unknown, Severity::Low, "pointer-shape"));
    assert_eq!(label(b"\x1b]000000008;;\x07"), (Class::Unknown, Severity::Medium, "osc-unknown"));
    assert_eq!(label(b"\x1b]00000008;;\x07"), (Class::Hyperlink, Severity::Benign, "hyperlink"));
    assert_eq!(label(b"\x1b]\x07"), (Class::Unknown, Severity::Medium, "osc-unknown"));
    assert_eq!(label(b"\x1bP1;1q\x1b\\"), (Class::Dcs, Severity::Medium, "sixel"));
    assert_eq!(label(b"\x1bP12345678q\x1b\\"), (Class::Dcs, Severity::High, "dcs"));
    assert_eq!(label(b"\x1b_G\x1b\\"), (Class::Dcs, Severity::High, "apc"));
    assert_eq!(label(b"\x85"), (Class::C1, Severity::High, "c1-control"));
    assert_eq!(label(b"\x00"), (Class::Control, Severity::Low, "c0-control"));
    assert_eq!(label(b"\x1b["), (Class::Malformed, Severity::Medium, "truncated-sequence"));
    let mut osc = b"\x1b]0;".to_vec();
    osc.extend(vec![b'a'; STR_MAX]);
    osc.push(0x07);
    assert_eq!(label(&osc), (Class::Malformed, Severity::High, "oversized-string"));
}

#[test]
fn selectors_and_uris_split_at_the_first_separators() {
    assert_eq!(split_osc(b"52;c;x"), (Some(52), &b"c;x"[..]));
    assert_eq!(split_osc(b"104"), (Some(104), &b""[..]));
    assert_eq!(split_osc(b"99999999;"), (Some(99_999_999), &b""[..]));
    assert_eq!(split_osc(b"100000000;a"), (None, &b"a"[..]));
    assert_eq!(split_osc(b";a;b"), (None, &b"a;b"[..]));
    assert_eq!(split_osc(b"1a;b"), (None, &b"b"[..]));
    assert_eq!(hyperlink_uri(b"8;;"), Some(&b""[..]));
    assert_eq!(hyperlink_uri(b"8;a=b;;c"), Some(&b";c"[..]));
    assert_eq!(hyperlink_uri(b"8;"), None);
    assert_eq!(hyperlink_uri(b"08;;x"), None);
}

#[test]
fn hyperlinks_without_a_second_separator_are_reported() {
    let (out, findings, _) = sanitize_bytes(b"\x1b]8;x\x07", &Policy::preset(Preset::Default));
    assert!(out.is_empty());
    assert_eq!(findings[0].label, "malformed-hyperlink");
    assert_eq!(findings[0].severity, Severity::Medium);
    assert_eq!(findings[0].class, Class::Hyperlink);
    // Where hyperlinks are not kept, removing one is harmless.
    let (out, findings, summary) = sanitize_bytes(b"\x1b]8;x\x07", &Policy::preset(Preset::Plain));
    assert!(out.is_empty() && findings.is_empty());
    assert_eq!(summary.stripped, 1);
}

#[test]
fn link_length_and_scheme_limits() {
    let p = Policy::preset(Preset::Default);
    let mut uri = b"https:".to_vec();
    uri.extend(vec![b'a'; LINK_MAX - 6]);
    assert!(p.allows_link(&uri));
    uri.push(b'a');
    assert!(!p.allows_link(&uri));
    assert!(p.allows_link(b"http:"));
    assert!(!p.allows_link(b":http"));
    assert!(!p.allows_link(b"ht/tp:x"));
    assert!(!p.allows_link(b"https\x7f:x"));
    assert!(p.allows_link(b"hTTps:\xc3\xa9"));
    let mut custom = Policy::preset(Preset::Default);
    custom.link_schemes = vec!["git+ssh".to_string(), "".to_string(), "FTP".to_string()];
    assert!(custom.allows_link(b"GIT+SSH:x"));
    assert!(custom.allows_link(b":x"));
    assert!(!custom.allows_link(b"ftp:x"));
}

#[test]
fn a_table_that_holds_malformed_still_strips_it() {
    let mut p = Policy::preset(Preset::Default);
    p.allowed.insert(Class::Malformed);
    assert!(!p.allows(Class::Malformed));
    let mut none = ClassSet::new();
    for c in ALL_CLASSES {
        assert!(!none.contains(c));
        none.insert(c);
        assert!(none.contains(c));
        none.remove(c);
        assert!(!none.contains(c));
    }
}

#[test]
fn refinement_errors_come_in_order() {
    let list = |names: &[&str]| -> Vec<String> { names.iter().map(|s| s.to_string()).collect() };
    let refine = |allow: &[&str], deny: &[&str]| {
        Policy::preset(Preset::Plain).refine(&list(allow), &list(deny))
    };
    assert_eq!(
        refine(&["sgr", "nope", "malformed"], &["bad"]).unwrap_err(),
        PolicyError::UnknownClass("nope".to_string())
    );
    assert_eq!(
        refine(&["malformed", "nope"], &[]).unwrap_err(),
        PolicyError::MalformedNotAllowable
    );
    assert_eq!(
        refine(&["sgr"], &["bad"]).unwrap_err().to_string(),
        "unknown class 'bad' (see `seqsafe classes`)"
    );
    assert_eq!(
        PolicyError::MalformedNotAllowable.to_string(),
        "class 'malformed' cannot be allowed"
    );
    assert!(refine(&["sgr"], &["malformed"]).unwrap().allows(Class::Sgr));
}

#[test]
fn reports_are_exact() {
    let (_, findings, summary) =
        sanitize_bytes(b"ok\n\x1b]0;t\x07\x1b[1m", &Policy::preset(Preset::Default));
    assert_eq!(
        finding_line(&findings[0]),
        "L2 @3 [high] title (title-set) stripped  \u{27E8}ESC\u{27E9}]0;t\u{27E8}BEL\u{27E9}"
    );
    let tail = "1 finding(s): 0 critical, 1 high, 0 medium, 0 low; \
                1 sequence(s) kept, 1 stripped; 13 bytes in, 7 bytes out\n";
    assert_eq!(render_summary(&summary), tail);
    assert_eq!(
        render_human(&findings, &summary),
        format!("{}\n{}", finding_line(&findings[0]), tail)
    );
    assert_eq!(
        render_explain(&findings, &summary),
        format!(
            "{}\n    why: window titles persist after the output and are spoofing bait for humans and prompts\n{}",
            finding_line(&findings[0]),
            tail
        )
    );
    assert_eq!(
        render_json(&findings, &summary),
        "{\n  \"version\": \"0.1.0\",\n  \"max_severity\": \"high\",\n  \"summary\": \
         {\"bytes_in\": 13, \"bytes_out\": 7, \"kept\": 1, \"stripped\": 1, \"findings\": 1, \
         \"suppressed\": 0, \"by_severity\": {\"low\": 0, \"medium\": 0, \"high\": 1, \
         \"critical\": 0}},\n  \"findings\": [\n    {\"offset\": 3, \"line\": 2, \"class\": \
         \"title\", \"severity\": \"high\", \"label\": \"title-set\", \"action\": \"stripped\", \
         \"excerpt\": \"\u{27E8}ESC\u{27E9}]0;t\u{27E8}BEL\u{27E9}\"}\n  ]\n}\n"
    );
}

#[test]
fn reports_mention_suppressed_findings_and_escape_excerpts() {
    let mut summary = Summary::default();
    summary.suppressed = 1203;
    summary.by_severity = [10, 0, 0, 2];
    let human = render_human(&[], &summary);
    assert!(human.starts_with("... and 1203 more finding(s) not shown\n0 finding(s): 2 critical"));
    let explain = render_explain(&[], &summary);
    assert!(explain.starts_with("no findings: input is clean under this policy\n... and 1203"));
    let (_, findings, summary) = sanitize_bytes(b"\x1b]0;\"\\\x07\x08", &Policy::preset(Preset::Default));
    let json = render_json(&findings, &summary);
    assert!(json.contains("]0;\\\"\\\\\u{27E8}BEL"));
    assert!(json.contains("},\n    {\"offset\": 7"));
}

#[test]
fn class_table_is_exact() {
    let table = render_classes(&Policy::preset(Preset::Default));
    let lines: Vec<&str> = table.lines().collect();
    assert_eq!(lines.len(), 18);
    assert_eq!(lines[0], "CLASS      ACTION   DESCRIPTION");
    assert_eq!(lines[1], format!("{:-<10} {:-<8} {:-<60}", "", "", ""));
    for (line, class) in lines[2..].iter().zip(ALL_CLASSES) {
        let action = if class == Class::Sgr || class == Class::Hyperlink { "keep" } else { "strip" };
        assert_eq!(*line, format!("{:<10} {:<8} {}", class.name(), action, class.describe()));
    }
}

#[test]
fn excerpts_are_cut_at_their_cap() {
    let mut input = b"\x1b]0;".to_vec();
    input.extend(vec![b'a'; 60]);
    input.push(0x07);
    let (_, findings, _) = sanitize_bytes(&input, &Policy::preset(Preset::Default));
    let expected = format!("\u{27E8}ESC\u{27E9}]0;{}\u{2026}", "a".repeat(44));
    assert_eq!(findings[0].excerpt, expected);
    assert_eq!(findings[0].action.name(), "stripped");
    assert_eq!(Action::Marked.name(), "marked");
}

#[test]
fn kept_sequences_are_written_in_seven_bit_form() {
    let names: Vec<String> = ["c1", "dcs", "title", "control", "charset"]
        .iter()
        .map(|s| s.to_string())
        .collect();
    let p = Policy::preset(Preset::Default).refine(&names, &[]).unwrap();
    let keep = |input: &[u8]| sanitize_bytes(input, &p).0;
    assert_eq!(keep(b"\x90a\x9c"), b"\x1bPa\x1b\\");
    assert_eq!(keep(b"\x98a\x9c"), b"\x1bXa\x1b\\");
    assert_eq!(keep(b"\x9ea\x9c"), b"\x1b^a\x1b\\");
    assert_eq!(keep(b"\x9fa\x9c"), b"\x1b_a\x1b\\");
    assert_eq!(keep(b"\x9d0;a\x9c"), b"\x1b]0;a\x1b\\");
    assert_eq!(keep(b"\x9d0;a\x07"), b"\x1b]0;a\x07");
    assert_eq!(keep(b"\x85\x08\x1b(0"), b"\x85\x08\x1b(0");
}

#[test]
fn a_c1_byte_after_escape_splices() {
    let (out, findings, _) = sanitize_bytes(b"\x1b\x85", &Policy::preset(Preset::Default));
    assert!(out.is_empty());
    assert_eq!(findings[0].label, "spliced-sequence");
    assert_eq!(findings[1].label, "c1-control");
    let (_, findings, _) = sanitize_bytes(b"\x1b\xc3", &Policy::preset(Preset::Default));
    assert_eq!(findings[0].label, "corrupt-sequence");
}

#[test]
fn kept_payloads_hold_no_raw_c1_bytes() {
    let list = |names: &[&str]| -> Vec<String> { names.iter().map(|s| s.to_string()).collect() };
    let titles = Policy::preset(Preset::Default)
        .refine(&list(&["title", "dcs", "unknown"]), &[])
        .unwrap();
    for input in [&b"\x1b]0;a\x9bb\x07"[..], b"\x1bPa\x85\x1b\\", b"\x9d7;\xe2\x9b\x07"] {
        let (out, findings, summary) = sanitize_bytes(input, &titles);
        assert!(out.is_empty(), "{input:?}");
        assert_eq!(findings.len(), 1);
        assert_eq!(findings[0].class, Class::C1);
        assert_eq!(findings[0].severity, Severity::High);
        assert_eq!(findings[0].label, "c1-control");
        assert_eq!((summary.kept, summary.stripped), (0, 1));
    }
    // Characters that happen to have such bytes are text.
    let text = "\x1b]0;\u{26F0}\u{85}\x07".as_bytes();
    assert_eq!(sanitize_bytes(text, &titles).0, text);
    // Where raw C1 bytes are allowed, so are payloads that hold them.
    let raw = titles.refine(&list(&["c1"]), &[]).unwrap();
    assert_eq!(sanitize_bytes(b"\x9d0;a\x9bb\x07", &raw).0, b"\x1b]0;a\x9bb\x07");
}
