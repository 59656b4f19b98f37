//! Report unit tests: JSON escaping correctness and stable human output.

use seqsafe::classify::ALL_CLASSES;
use seqsafe::policy::{Policy, Preset};
use seqsafe::report::{json_escape, render_classes, render_explain, render_human, render_json};
use seqsafe::sanitize::{sanitize_bytes, Finding, Summary};

fn scan(input: &[u8]) -> (Vec<Finding>, Summary) {
    let (_, f, s) = sanitize_bytes(input, &Policy::preset(Preset::Default));
    (f, s)
}

#[test]
fn json_escape_handles_quotes_backslashes_and_controls() {
    assert_eq!(json_escape("a\"b"), "a\\\"b");
    assert_eq!(json_escape("a\\b"), "a\\\\b");
    assert_eq!(json_escape("a\nb\tc"), "a\\nb\\tc");
    assert_eq!(json_escape("\u{1}"), "\\u0001");
    assert_eq!(json_escape("plain"), "plain");
}

#[test]
fn json_report_contains_finding_fields() {
    let (f, s) = scan(b"\x1b]52;c;eHg=\x07");
    let json = render_json(&f, &s);
    assert!(json.contains("\"class\": \"clipboard\""));
    assert!(json.contains("\"severity\": \"critical\""));
    assert!(json.contains("\"label\": \"clipboard-write\""));
    assert!(json.contains("\"max_severity\": \"critical\""));
    assert!(json.contains("\"bytes_in\": 12"));
}

#[test]
fn json_report_for_clean_input_has_empty_findings_array() {
    let (f, s) = scan(b"nothing to see\n");
    let json = render_json(&f, &s);
    assert!(json.contains("\"findings\": []"));
    assert!(json.contains("\"max_severity\": \"none\""));
}

#[test]
fn human_report_shows_line_offset_and_excerpt() {
    let (f, s) = scan(b"ok\n\x1b]0;t\x07");
    let human = render_human(&f, &s);
    assert!(human.contains("L2 @3 [high] title (title-set) stripped"));
    assert!(human.contains("\u{27E8}ESC\u{27E9}]0;t\u{27E8}BEL\u{27E9}"));
    assert!(human.contains("1 finding(s): 0 critical, 1 high"));
}

#[test]
fn explain_includes_class_rationale() {
    let (f, s) = scan(b"\x1b]52;c;eHg=\x07");
    let text = render_explain(&f, &s);
    assert!(text.contains("why: OSC 52 writes"));
}

#[test]
fn explain_says_clean_when_clean() {
    let (f, s) = scan(b"fine\n");
    assert!(render_explain(&f, &s).starts_with("no findings"));
}

#[test]
fn classes_table_lists_all_classes_with_policy_action() {
    let table = render_classes(&Policy::preset(Preset::Default));
    for class in ALL_CLASSES {
        assert!(table.contains(class.name()), "missing {}", class.name());
    }
    assert!(table.contains("sgr        keep"));
    assert!(table.contains("clipboard  strip"));
}
