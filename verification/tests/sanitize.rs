//! Sanitizer unit tests: the end-to-end keep/strip behavior each preset
//! promises, chunk-boundary stability, marking, and CR discipline.

use seqsafe::classify::{Class, Severity};
use seqsafe::policy::{Policy, Preset};
use seqsafe::sanitize::{sanitize_bytes, visible, Action, Sanitizer, MAX_FINDINGS};

fn clean(input: &[u8]) -> Vec<u8> {
    sanitize_bytes(input, &Policy::preset(Preset::Default)).0
}

#[test]
fn colors_survive_the_default_policy() {
    let input = b"\x1b[1;32mPASS\x1b[0m done\n";
    assert_eq!(clean(input), input.to_vec());
}

#[test]
fn clipboard_write_is_stripped_with_a_critical_finding() {
    let (out, findings, _) = sanitize_bytes(
        b"before\x1b]52;c;ZXZpbA==\x07after",
        &Policy::preset(Preset::Default),
    );
    assert_eq!(out, b"beforeafter");
    assert_eq!(findings.len(), 1);
    assert_eq!(findings[0].class, Class::Clipboard);
    assert_eq!(findings[0].severity, Severity::Critical);
    assert_eq!(findings[0].offset, 6);
}

#[test]
fn titles_cursor_moves_and_erase_are_stripped_but_text_kept() {
    assert_eq!(clean(b"a\x1b]0;pwned\x1b\\b"), b"ab");
    assert_eq!(clean(b"x\x1b[2A\x1b[2Ky"), b"xy");
}

#[test]
fn raw_c1_csi_attack_is_stripped_too() {
    // 0x9B 2 J = erase display via 8-bit CSI; naive ESC-only filters miss it.
    assert_eq!(clean(b"x\x9b2Jy"), b"xy");
}

#[test]
fn kept_c1_introduced_sgr_is_normalized_to_seven_bit() {
    let out = clean(b"\x9b31mred");
    assert_eq!(out, b"\x1b[31mred");
}

#[test]
fn safe_hyperlink_is_kept_and_terminator_style_preserved() {
    let st = b"\x1b]8;;https://example.test\x1b\\click\x1b]8;;\x1b\\";
    assert_eq!(clean(st), st.to_vec());
    let bel = b"\x1b]8;;https://example.test\x07x\x1b]8;;\x07";
    assert_eq!(clean(bel), bel.to_vec());
}

#[test]
fn file_scheme_hyperlink_is_stripped_as_unsafe() {
    let (out, findings, _) = sanitize_bytes(
        b"\x1b]8;;file:///etc/passwd\x1b\\x\x1b]8;;\x1b\\",
        &Policy::preset(Preset::Default),
    );
    // The open is stripped; the close (empty URI) is a harmless no-op.
    assert_eq!(out, b"x\x1b]8;;\x1b\\");
    assert_eq!(findings[0].label, "unsafe-link");
}

#[test]
fn plain_policy_strips_sgr_without_findings() {
    let (out, findings, summary) =
        sanitize_bytes(b"\x1b[31mred\x1b[0m", &Policy::preset(Preset::Plain));
    assert_eq!(out, b"red");
    assert!(findings.is_empty(), "benign styling is not a finding");
    assert_eq!(summary.stripped, 2);
}

#[test]
fn strict_policy_drops_lone_cr_but_keeps_crlf() {
    let (out, findings, _) =
        sanitize_bytes(b"total 100%\rdone\r\nnext", &Policy::preset(Preset::Strict));
    assert_eq!(out, b"total 100%done\r\nnext");
    assert_eq!(findings.len(), 1);
    assert_eq!(findings[0].label, "lone-cr");
    // A CR at EOF has no LF after it: also lone.
    let (out, findings, _) = sanitize_bytes(b"tail\r", &Policy::preset(Preset::Strict));
    assert_eq!(out, b"tail");
    assert_eq!(findings[0].label, "lone-cr");
}

#[test]
fn default_policy_keeps_lone_cr_for_progress_bars() {
    assert_eq!(clean(b"50%\r100%\n"), b"50%\r100%\n");
}

#[test]
fn mark_mode_leaves_a_visible_placeholder() {
    let policy = Policy::preset(Preset::Default);
    let mut s = Sanitizer::new(policy).with_mark(true);
    let mut out = Vec::new();
    s.feed(b"a\x1b]52;c;xx\x07b", &mut out);
    s.finish(&mut out);
    assert_eq!(
        String::from_utf8(out).unwrap(),
        "a\u{27E8}stripped:clipboard-write\u{27E9}b"
    );
    assert_eq!(s.findings()[0].action, Action::Marked);
}

#[test]
fn allowing_cursor_class_keeps_cursor_sequences() {
    let policy = Policy::preset(Preset::Default)
        .refine(&["cursor".into(), "screen".into()], &[])
        .unwrap();
    let (out, _, _) = sanitize_bytes(b"\x1b[2A\x1b[2K.", &policy);
    assert_eq!(out, b"\x1b[2A\x1b[2K.");
}

#[test]
fn output_is_identical_across_all_chunkings() {
    let input =
        b"log \x1b[32mok\x1b[0m\x1b]0;t\x07 \x9b1mB\x1b]8;;https://example.test\x1b\\L\r\n";
    let reference = clean(input);
    for cut in 1..input.len() {
        let mut s = Sanitizer::new(Policy::preset(Preset::Default));
        let mut out = Vec::new();
        s.feed(&input[..cut], &mut out);
        s.feed(&input[cut..], &mut out);
        s.finish(&mut out);
        assert_eq!(out, reference, "cut at {cut}");
    }
}

#[test]
fn sanitizing_is_idempotent() {
    let input = b"\x1b[1mB\x1b]52;c;x\x07\x1b(0\x1b[5n\x05text\x7f\n";
    let once = clean(input);
    let twice = clean(&once);
    assert_eq!(once, twice);
    let (_, findings, _) = sanitize_bytes(&once, &Policy::preset(Preset::Default));
    assert!(findings.is_empty(), "clean output re-scans clean");
}

#[test]
fn line_numbers_and_offsets_are_reported() {
    let (_, findings, _) = sanitize_bytes(
        b"line one\nline two \x1b]2;t\x07\n",
        &Policy::preset(Preset::Default),
    );
    assert_eq!(findings[0].line, 2);
    assert_eq!(findings[0].offset, 18);
}

#[test]
fn summary_counts_add_up() {
    let (out, _, summary) = sanitize_bytes(
        b"\x1b[1mx\x1b[0m\x1b]0;t\x07\x1b[c",
        &Policy::preset(Preset::Default),
    );
    assert_eq!(summary.kept, 2);
    assert_eq!(summary.stripped, 2);
    assert_eq!(summary.findings, 2);
    assert_eq!(summary.by_severity, [0, 0, 2, 0]);
    assert_eq!(summary.bytes_out, out.len());
}

#[test]
fn findings_beyond_the_cap_are_counted_not_stored() {
    let mut input = Vec::new();
    for _ in 0..(MAX_FINDINGS + 25) {
        input.extend_from_slice(b"\x1b]2;t\x07");
    }
    let (_, findings, summary) = sanitize_bytes(&input, &Policy::preset(Preset::Default));
    assert_eq!(findings.len(), MAX_FINDINGS);
    assert_eq!(summary.suppressed, 25);
    assert_eq!(summary.findings, MAX_FINDINGS + 25);
}

#[test]
fn truncated_sequence_at_eof_is_removed() {
    // A dangling OSC would make a lenient terminal eat following bytes.
    let (out, findings, _) = sanitize_bytes(
        b"safe\x1b]52;c;never-terminated",
        &Policy::preset(Preset::Default),
    );
    assert_eq!(out, b"safe");
    assert_eq!(findings[0].class, Class::Malformed);
}

#[test]
fn utf8_text_passes_byte_identical() {
    let input = "日本語テキスト🎉 émoji\n".as_bytes();
    assert_eq!(clean(input), input.to_vec());
}

#[test]
fn visible_rendering_escapes_all_controls() {
    assert_eq!(
        visible(b"\x1b]52;c;\x07", 48),
        "\u{27E8}ESC\u{27E9}]52;c;\u{27E8}BEL\u{27E9}"
    );
    assert_eq!(visible(&[0x9B], 48), "\u{27E8}0x9B\u{27E9}");
    let long = visible(&[b'a'; 100], 10);
    assert!(long.ends_with('\u{2026}'));
    assert_eq!(long.chars().count(), 11);
}
