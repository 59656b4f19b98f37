//! The laws of the library on concrete inputs.

use seqsafe::classify::{classify, Class, Severity, ALL_CLASSES};
use seqsafe::parser::{tokenize, Token, CSI_MAX, STR_MAX};
use seqsafe::policy::{Policy, Preset};
use seqsafe::report::{finding_line, json_escape, render_json, render_summary};
use seqsafe::sanitize::{sanitize_bytes, visible, Action, Sanitizer};

/// Attacks, styling, text and malformed bytes of every kind.
fn corpus() -> Vec<Vec<u8>> {
    let mut all: Vec<Vec<u8>> = vec![
        b"\x1b[1mB\x1b]52;c;x\x07\x1b(0\x1b[5n\x05text\x7f\n".to_vec(),
        b"a\r\nb\rc\r\r\n\rd\r".to_vec(),
        b"\x9b31mred\x9b0m \x9d0;t\x9c\x90$qm\x9c\x98s\x9c\x9ep\x9c\x9fa\x9c\x85".to_vec(),
        b"\x1b]8;;https://example.test\x07x\x1b]8;;\x07\x1b]8;;file:///x\x1b\\y\x1b]8;\x07".to_vec(),
        b"\xe2\x1b[31m\x85\xa5\xe2\x1b]0;t\x07\x9b1m\xc3".to_vec(),
        b"\x1b\x1b[1m\x1b[!1p\x1b[12\n\x1b]0;x\x1b[2J\x1b%%%%%G\x1b#8\x1bH\x1b\\".to_vec(),
        "日本語テキスト🎉 émoji\n".as_bytes().to_vec(),
        b"tail\x1b]52;c;never".to_vec(),
        b"tail\x1b[3".to_vec(),
        b"\xc0\x9b2J\xe2\x9b1m\xf0\x9f\x85\xed\xa0\x85\xe2\x1b]0;t\x07\xa0\x85\xe2".to_vec(),
        b"\x1bPa\x07b\x1b\\\x1b\xc3\x1b]8;;https://example.test/\x9b\x07\x9d8;;\x07".to_vec(),
    ];
    let mut long = b"\x1b]0;".to_vec();
    long.extend(vec![b'A'; STR_MAX + 10]);
    long.extend(b"\x07after");
    all.push(long);
    let mut wide = b"\x1b[".to_vec();
    wide.extend(vec![b'1'; CSI_MAX]);
    wide.extend(b"m\nafter\x07");
    all.push(wide);
    all
}

/// The presets, and policies that keep much more.
fn policies() -> Vec<Policy> {
    let names: Vec<String> = ALL_CLASSES
        .iter()
        .filter(|c| **c != Class::Malformed)
        .map(|c| c.name().to_string())
        .collect();
    let mut all = Vec::new();
    for preset in [Preset::Default, Preset::Strict, Preset::Plain] {
        all.push(Policy::preset(preset));
        all.push(Policy::preset(preset).refine(&names, &[]).unwrap());
    }
    all
}

fn marked(input: &[u8], policy: &Policy) -> Vec<u8> {
    let mut s = Sanitizer::new(policy.clone()).with_mark(true);
    let mut out = Vec::new();
    s.feed(input, &mut out);
    s.finish(&mut out);
    out
}

#[test]
fn output_rescans_clean_and_sanitizing_repeats() {
    for input in corpus() {
        for policy in policies() {
            for once in [sanitize_bytes(&input, &policy).0, marked(&input, &policy)] {
                let (twice, findings, summary) = sanitize_bytes(&once, &policy);
                assert_eq!(once, twice, "{input:?}");
                assert!(findings.is_empty(), "{input:?}");
                assert_eq!(summary.stripped, 0, "{input:?}");
            }
        }
    }
}

#[test]
fn the_cap_does_not_depend_on_the_introducer() {
    let policy = Policy::preset(Preset::Default);
    for intro in [&b"\x1b["[..], b"\x9b"] {
        let mut input = intro.to_vec();
        input.extend(vec![b'1'; CSI_MAX - 3]);
        input.push(b'm');
        let (once, findings, _) = sanitize_bytes(&input, &policy);
        assert!(findings.is_empty());
        assert_eq!(once.len(), CSI_MAX);
        assert_eq!(sanitize_bytes(&once, &policy).0, once);
        // One more is too much for either.
        input.insert(intro.len(), b'1');
        let (out, findings, _) = sanitize_bytes(&input, &policy);
        assert!(out.is_empty());
        assert_eq!(findings[0].label, "oversized-sequence");
    }
}

#[test]
fn a_bel_is_preserved_up_to_the_cap() {
    let policy = Policy::preset(Preset::Default)
        .refine(&["title".to_string()], &[])
        .unwrap();
    for intro in [&b"\x1b]0;"[..], b"\x9d0;"] {
        for spare in 0..6 {
            let mut input = intro.to_vec();
            input.extend(vec![b'A'; STR_MAX - 2 - spare]);
            input.push(0x07);
            let (once, findings, _) = sanitize_bytes(&input, &policy);
            assert!(findings.is_empty());
            assert_eq!(once.last(), Some(&0x07));
            assert_eq!(sanitize_bytes(&once, &policy).0, once);
        }
    }
}

/// Does the byte at `i` continue a well-formed character?
fn in_character(bytes: &[u8], i: usize) -> bool {
    (1..=3).any(|back| {
        i >= back
            && (2..=4).any(|len| {
                back < len
                    && i - back + len <= bytes.len()
                    && matches!(
                        std::str::from_utf8(&bytes[i - back..i - back + len]),
                        Ok(s) if s.chars().count() == 1
                    )
            })
    })
}

#[test]
fn no_raw_c1_byte_is_written_unless_allowed() {
    let mut inputs = corpus();
    inputs.push((0x80..=0xFF).collect());
    inputs.push((0x80..=0xFF).flat_map(|b| [0xE2u8, b, 0xC3]).collect());
    inputs.push(b"\x1b]8;;https://example.test/\x9b\x07\x1b]8;\x85;\x9c\xc0\x9b2J".to_vec());
    let c1: Vec<String> = vec!["c1".to_string()];
    let mut checked = 0;
    for input in inputs {
        for policy in policies() {
            // Presets never allow them, and any policy can be made to strip them.
            let policy = policy.refine(&[], &c1).unwrap();
            for out in [sanitize_bytes(&input, &policy).0, marked(&input, &policy)] {
                for (i, b) in out.iter().enumerate() {
                    if (0x80..=0x9F).contains(b) {
                        assert!(in_character(&out, i), "{input:?}");
                        checked += 1;
                    }
                }
            }
        }
    }
    assert!(checked > 0);
}

#[test]
fn line_feeds_and_tabs_all_survive() {
    let mut inputs = corpus();
    inputs.push(b"\x1b[1\n\x1b]0;\t\x1b\t\x1bP\n\xe2\n\x9b\t\x1b(\n\t".to_vec());
    let mut full = b"\x1b[".to_vec();
    full.extend(vec![b'1'; CSI_MAX - 2]);
    full.extend(b"\n\t");
    inputs.push(full);
    for input in inputs {
        for policy in policies() {
            for out in [sanitize_bytes(&input, &policy).0, marked(&input, &policy)] {
                for b in [b'\n', b'\t'] {
                    let count = |s: &[u8]| s.iter().filter(|x| **x == b).count();
                    assert_eq!(count(&out), count(&input), "{input:?}");
                }
            }
        }
    }
}

#[test]
fn retained_bytes_stand_at_the_front_of_their_input() {
    for input in corpus() {
        let mut from = 0;
        let mut text_before = false;
        for t in tokenize(&input) {
            let segment = &input[from..from + t.byte_len()];
            match &t {
                Token::Text(raw) => assert_eq!(raw[..], *segment),
                Token::Control(b) | Token::C1(b) => assert_eq!([*b][..], *segment),
                Token::Csi { raw, .. } | Token::Esc { raw, .. } => assert_eq!(raw[..], *segment),
                Token::Str { raw, overlong, .. } => {
                    assert!(segment.starts_with(raw));
                    assert_eq!(*overlong, raw.len() < segment.len());
                }
                Token::Malformed { raw, .. } => {
                    assert!(segment.starts_with(raw));
                    let tail = &segment[raw.len()..];
                    assert!(tail.is_empty() || tail == b"\x1b" || raw.len() > STR_MAX);
                }
            }
            // No two text tokens are adjacent.
            let text = matches!(t, Token::Text(_));
            assert!(!(text && text_before));
            text_before = text;
            from += t.byte_len();
        }
        assert_eq!(from, input.len());
    }
}

#[test]
fn findings_are_ordered_and_not_allowed() {
    for input in corpus() {
        for policy in policies() {
            let (_, findings, _) = sanitize_bytes(&input, &policy);
            for pair in findings.windows(2) {
                assert!(pair[0].offset < pair[1].offset);
            }
            for f in &findings {
                assert!(
                    !policy.allows(f.class)
                        || f.class == Class::Hyperlink
                        || (!policy.allow_lone_cr && f.label == "lone-cr"),
                    "{}",
                    finding_line(f)
                );
            }
            if !policy.allow_lone_cr {
                for (i, b) in input.iter().enumerate() {
                    if *b == b'\r' && input.get(i + 1) != Some(&b'\n') {
                        let here: Vec<_> = findings.iter().filter(|f| f.offset == i).collect();
                        assert_eq!(here.len(), 1);
                        assert_eq!(here[0].label, "lone-cr");
                    }
                }
            }
        }
    }
}

#[test]
fn the_highest_severity_never_decreases() {
    for input in corpus() {
        if input.len() > 200 {
            continue;
        }
        for policy in policies() {
            let mut s = Sanitizer::new(policy.clone());
            let mut out = Vec::new();
            let mut highest = s.max_severity();
            for b in &input {
                s.feed(&[*b], &mut out);
                assert!(s.max_severity() >= highest);
                highest = s.max_severity();
            }
            s.finish(&mut out);
            assert!(s.max_severity() >= highest);
        }
    }
}

#[test]
fn every_cut_gives_the_same_output_and_findings() {
    for input in corpus() {
        if input.len() > 200 {
            continue;
        }
        for policy in policies() {
            let (reference, found, summary) = sanitize_bytes(&input, &policy);
            for cut in 0..=input.len() {
                let mut s = Sanitizer::new(policy.clone());
                let mut out = Vec::new();
                s.feed(&input[..cut], &mut out);
                s.feed(&[], &mut out);
                s.feed(&input[cut..], &mut out);
                s.finish(&mut out);
                assert_eq!(out, reference, "cut at {cut}");
                assert_eq!(s.findings().len(), found.len());
                for (a, b) in s.findings().iter().zip(&found) {
                    assert_eq!(finding_line(a), finding_line(b));
                }
                assert_eq!(render_summary(s.summary()), render_summary(&summary));
            }
        }
    }
}

#[test]
fn marking_can_start_in_the_middle_of_a_stream() {
    let mut s = Sanitizer::new(Policy::preset(Preset::Default));
    let mut out = Vec::new();
    s.feed(b"\x07a\x1b]0;", &mut out);
    let mut s = s.with_mark(true);
    s.feed(b"t\x07b", &mut out);
    s.finish(&mut out);
    assert_eq!(out, "a\u{27E8}stripped:title-set\u{27E9}b".as_bytes());
    assert_eq!(s.findings()[0].action, Action::Stripped);
    assert_eq!(s.findings()[1].action, Action::Marked);
}

#[test]
fn tokens_account_for_every_byte_of_the_corpus() {
    for input in corpus() {
        let total: usize = tokenize(&input).iter().map(|t| t.byte_len()).sum();
        assert_eq!(total, input.len());
    }
}

#[test]
fn findings_name_offset_and_input_line() {
    let (_, findings, _) = sanitize_bytes(b"\x07\n\x07\n\n\x08", &Policy::preset(Preset::Default));
    let places: Vec<(usize, usize)> = findings.iter().map(|f| (f.offset, f.line)).collect();
    assert_eq!(places, vec![(0, 1), (2, 2), (5, 4)]);
    // A line feed that breaks off a full control sequence ends its line.
    let mut input = b"\x1b[".to_vec();
    input.extend(vec![b'1'; CSI_MAX - 2]);
    input.extend(b"\n\x07");
    let (out, findings, _) = sanitize_bytes(&input, &Policy::preset(Preset::Default));
    assert_eq!(out, b"\n");
    assert_eq!(findings.len(), 2);
    assert_eq!((findings[0].offset, findings[0].line), (0, 1));
    assert_eq!(findings[0].label, "spliced-sequence");
    assert_eq!((findings[1].offset, findings[1].line), (CSI_MAX + 1, 2));
}

#[test]
fn statistics_add_up_on_the_corpus() {
    for input in corpus() {
        for policy in policies() {
            let mut s = Sanitizer::new(policy.clone());
            let mut out = Vec::new();
            s.feed(&input, &mut out);
            assert_eq!(s.summary().findings, 0);
            s.finish(&mut out);
            let sum = s.summary();
            assert_eq!(sum.bytes_in, input.len());
            assert_eq!(sum.bytes_out, out.len());
            assert_eq!(sum.findings, sum.by_severity.iter().sum::<usize>());
            assert_eq!(sum.findings, s.findings().len() + sum.suppressed);
            assert!(sum.findings <= sum.stripped);
            let worst = s.findings().iter().map(|f| f.severity).max();
            assert_eq!(s.max_severity(), worst.unwrap_or(Severity::Benign));
            assert!(render_json(s.findings(), sum)
                .contains(&format!("\"max_severity\": \"{}\"", s.max_severity().name())));
        }
    }
}

#[test]
fn only_allowed_classes_survive() {
    for input in corpus() {
        for policy in policies() {
            let out = sanitize_bytes(&input, &policy).0;
            for t in tokenize(&out) {
                match &t {
                    Token::Text(_) => {}
                    Token::Control(b'\n') | Token::Control(b'\t') | Token::Control(b'\r') => {}
                    _ => assert!(policy.allows(classify(&t).class), "{t:?}"),
                }
                match &t {
                    Token::Csi { raw, .. } | Token::Str { raw, .. } => assert_eq!(raw[0], 0x1B),
                    _ => {}
                }
            }
        }
    }
}

#[test]
fn strict_output_pairs_every_carriage_return() {
    for input in corpus() {
        let out = sanitize_bytes(&input, &Policy::preset(Preset::Strict)).0;
        for (i, b) in out.iter().enumerate() {
            if *b == b'\r' {
                assert_eq!(out.get(i + 1), Some(&b'\n'));
            }
        }
    }
    let (out, findings, _) = sanitize_bytes(b"a\r\r\nb\r", &Policy::preset(Preset::Strict));
    assert_eq!(out, b"a\r\nb");
    let offsets: Vec<usize> = findings.iter().map(|f| f.offset).collect();
    assert_eq!(offsets, vec![1, 5]);
}

#[test]
fn eight_bit_introducers_rule_like_seven_bit_ones() {
    for policy in policies() {
        for (short, long) in [
            (&b"\x9b2J"[..], &b"\x1b[2J"[..]),
            (b"\x9b1;31m", b"\x1b[1;31m"),
            (b"\x9d8;;https://example.test\x07", b"\x1b]8;;https://example.test\x07"),
            (b"\x90+q544e\x9c", b"\x1bP+q544e\x9c"),
            (b"\x98x\x1b\\", b"\x1bXx\x1b\\"),
        ] {
            assert_eq!(sanitize_bytes(short, &policy).0, sanitize_bytes(long, &policy).0);
        }
    }
}

#[test]
fn plain_text_passes_under_every_policy() {
    let text = "tab\there, naïve café, 漢字\u{85}\u{9b}31m 🎉\r\nend".as_bytes();
    for policy in policies() {
        let (out, findings, summary) = sanitize_bytes(text, &policy);
        assert_eq!(out, text);
        assert!(findings.is_empty());
        assert_eq!((summary.kept, summary.stripped), (0, 0));
    }
}

#[test]
fn renderings_hold_printable_characters_only() {
    let all: Vec<u8> = (0..=255).collect();
    let shown = visible(&all, 300);
    for c in shown.chars() {
        assert!((' '..='~').contains(&c) || c == '\u{27E8}' || c == '\u{27E9}');
    }
    assert!(shown.starts_with("\u{27E8}0x00\u{27E9}\u{27E8}0x01\u{27E9}"));
    assert!(shown.ends_with("\u{27E8}0xFE\u{27E9}\u{27E8}0xFF\u{27E9}"));
    assert_eq!(visible(b"abc", 3), "abc");
    assert_eq!(visible(b"abc", 2), "ab\u{2026}");
    assert_eq!(visible(b"abc", 0), "\u{2026}");
    assert_eq!(visible(b"", 0), "");
}

#[test]
fn escapes_cover_controls_and_keep_the_rest() {
    assert_eq!(json_escape("\r\u{0}\u{1f}\u{7f}"), "\\r\\u0000\\u001f\u{7f}");
    assert_eq!(json_escape("\u{b}\u{10}é漢"), "\\u000b\\u0010é漢");
    assert_eq!(json_escape(""), "");
}

#[test]
fn names_round_trip() {
    for preset in [Preset::Default, Preset::Strict, Preset::Plain] {
        assert_eq!(Preset::from_name(preset.name()), Some(preset));
    }
    assert_eq!(Preset::from_name("Default"), None);
    for severity in [Severity::Low, Severity::Medium, Severity::High, Severity::Critical] {
        assert_eq!(Severity::from_name(severity.name()), Some(severity));
    }
    assert_eq!(Severity::Benign.name(), "none");
    assert_eq!(Severity::from_name("none"), None);
}

#[test]
fn introducers_are_seen_after_any_text() {
    for before in [&b""[..], b"plain", b"\xc3\xa9", b"\xc0", b"\xf5\xa0", b"\xe2\xa0", b"\xc3\xa9\xbf"] {
        for (short, long) in [(&b"\x9b2J"[..], &b"\x1b[2J"[..]), (b"\x9d0;t\x07", b"\x1b]0;t\x07")] {
            let eight: Vec<u8> = [before, short].concat();
            let seven: Vec<u8> = [before, long].concat();
            if before == b"\xe2\xa0" {
                // Two bytes of three: the next one completes a character.
                assert!(matches!(&tokenize(&eight)[0], Token::Text(t) if t.starts_with(&eight[..3])));
                continue;
            }
            let a = tokenize(&eight);
            let b = tokenize(&seven);
            assert_eq!(a.len(), b.len());
            assert_eq!(a[..a.len() - 1], b[..b.len() - 1]);
            assert_eq!(classify(&a[a.len() - 1]), classify(&b[b.len() - 1]));
        }
    }
}

#[test]
fn overlong_strings_are_ruled_on_alike() {
    for policy in policies() {
        for extra in [0, 1, 7] {
            let mut body = b"0;".to_vec();
            body.extend(vec![b'A'; STR_MAX - 2 + extra]);
            body.push(0x07);
            let short = [&b"\x9d"[..], &body].concat();
            let long = [&b"\x1b]"[..], &body].concat();
            let (a, b) = (tokenize(&short), tokenize(&long));
            assert_eq!((a.len(), b.len()), (1, 1));
            assert_eq!(classify(&a[0]), classify(&b[0]));
            assert_eq!(sanitize_bytes(&short, &policy).0, sanitize_bytes(&long, &policy).0);
            match (&a[0], &b[0]) {
                (
                    Token::Str { payload: x, overlong: o, .. },
                    Token::Str { payload: y, overlong: q, .. },
                ) => {
                    assert_eq!(x, y);
                    assert_eq!((*o, *q), (extra > 0, extra > 0));
                }
                other => panic!("unexpected {other:?}"),
            }
        }
    }
}

#[test]
fn plain_output_is_the_text_and_whitespace() {
    for input in corpus() {
        let (out, _, summary) = sanitize_bytes(&input, &Policy::preset(Preset::Plain));
        let mut joined = Vec::new();
        for t in tokenize(&input) {
            match t {
                Token::Text(text) => joined.extend(text),
                Token::Control(b) if b == b'\n' || b == b'\t' || b == b'\r' => joined.push(b),
                _ => {}
            }
        }
        assert_eq!(out, joined);
        assert_eq!(summary.kept, 0);
        assert!(out.iter().all(|b| (*b >= 0x20 && *b != 0x7F) || b"\n\t\r".contains(b)));
    }
}

#[test]
fn carriage_returns_survive_as_allowed() {
    let count = |s: &[u8]| s.iter().filter(|b| **b == b'\r').count();
    let pairs = |s: &[u8]| s.windows(2).filter(|w| *w == b"\r\n").count();
    for input in corpus() {
        for policy in policies() {
            let out = sanitize_bytes(&input, &policy).0;
            if policy.allow_lone_cr {
                assert_eq!(count(&out), count(&input));
            } else {
                assert_eq!(count(&out), pairs(&input));
                assert_eq!(pairs(&out), pairs(&input));
            }
        }
    }
}

#[test]
fn renderings_tell_bytes_apart() {
    let mut seen: Vec<String> = (0..=255u8).map(|b| visible(&[b], 1)).collect();
    for pair in [&b"<ESC>"[..], b"\x1b", b"0x1B", b"\x00\x01", b"\x001", "\u{27E8}ESC\u{27E9}".as_bytes()] {
        if pair.len() > 1 {
            seen.push(visible(pair, pair.len()));
        }
    }
    let total = seen.len();
    seen.sort();
    seen.dedup();
    assert_eq!(seen.len(), total);
}

#[test]
fn escaping_goes_piece_by_piece() {
    for (a, b) in [("", ""), ("a\"", "\\n"), ("\n", "\u{1}"), ("é\\", "\"漢\t")] {
        assert_eq!(json_escape(&format!("{a}{b}")), format!("{}{}", json_escape(a), json_escape(b)));
    }
}
