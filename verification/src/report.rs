//! Rendering of findings and summaries: human-readable text and JSON.
//!
//! The JSON escaper covers the full JSON string grammar including control
//! characters, so excerpts can never break the document.

use vstd::prelude::*;
use vstd::string::StringExecFns;

use crate::classify::{Severity, ALL_CLASSES};
use crate::policy::Policy;
use crate::report_model::{
    class_table, counted_severity, escaped, escaped_char, explain_report, explained_lines,
    finding_json, finding_lines, finding_text, findings_json, human_report, json_report,
    nothing_found, small_hex_char, summary_json, summary_text, suppressed_text, table_head,
    table_row, table_rows,
};
use crate::sanitize::{finding_views, Finding, Summary};
use crate::text::{push_decimal, push_padded};
use crate::VERSION;

verus! {

/// The hexadecimal digit `d` in small letters.
fn small_hex_digit(d: u8) -> (c: char)
    requires
        d < 16,
    ensures
        c == small_hex_char(d as int),
{
    if d < 10 {
        (0x30 + d) as char
    } else {
        (0x57 + d) as char
    }
}

/// Append one character, escaped for a JSON string.
fn push_escaped(out: &mut String, c: char)
    ensures
        final(out)@ == old(out)@ + escaped_char(c),
{
    let u: u32 = c as u32;
    if c == '"' {
        out.push('\\');
        out.push('"');
    } else if c == '\\' {
        out.push('\\');
        out.push('\\');
    } else if c == '\n' {
        out.push('\\');
        out.push('n');
    } else if c == '\r' {
        out.push('\\');
        out.push('r');
    } else if c == '\t' {
        out.push('\\');
        out.push('t');
    } else if u < 0x20 {
        let b: u8 = u as u8;
        out.push('\\');
        out.push('u');
        out.push('0');
        out.push('0');
        out.push(small_hex_digit(b / 16));
        out.push(small_hex_digit(b % 16));
    } else {
        out.push(c);
    }
    assert(out@ =~= old(out)@ + escaped_char(c));
}

/// Escape a string for embedding in a JSON document.
pub fn json_escape(s: &str) -> (out: String)
    ensures
        out@ == escaped(s@),
{
    let mut out = String::new();
    assert(s@.take(0) =~= seq![]);
    for c in it: s.chars()
        invariant
            it.seq() == s@,
            out@ == escaped(s@.take(it.index() as int)),
    {
        push_escaped(&mut out, c);
        let ghost i = it.index() as int;
        assert(s@.take(i + 1).drop_last() =~= s@.take(i));
        assert(s@.take(i + 1).last() == c);
    }
    assert(s@.take(s@.len() as int) =~= s@);
    out
}

/// The highest severity that the summary counts.
fn severity_of(summary: &Summary) -> (severity: Severity)
    ensures
        severity == counted_severity(summary@),
{
    if summary.by_severity[3] > 0 {
        Severity::Critical
    } else if summary.by_severity[2] > 0 {
        Severity::High
    } else if summary.by_severity[1] > 0 {
        Severity::Medium
    } else if summary.by_severity[0] > 0 {
        Severity::Low
    } else {
        Severity::Benign
    }
}

/// One human-readable line per finding, e.g.
/// `L2 @18 [critical] clipboard (clipboard-write) stripped  ⟨ESC⟩]52;c;...`
pub fn finding_line(f: &Finding) -> (line: String)
    ensures
        line@ == finding_text(f@),
{
    let mut line = String::from_str("L");
    push_decimal(&mut line, f.line);
    line.append(" @");
    push_decimal(&mut line, f.offset);
    line.append(" [");
    line.append(f.severity.name());
    line.append("] ");
    line.append(f.class.name());
    line.append(" (");
    line.append(f.label);
    line.append(") ");
    line.append(f.action.name());
    line.append("  ");
    line.append(f.excerpt.as_str());
    line
}

/// Append the note on findings that were not stored.
fn push_suppressed(out: &mut String, summary: &Summary)
    ensures
        final(out)@ == old(out)@ + suppressed_text(summary@),
{
    if summary.suppressed > 0 {
        out.append("... and ");
        push_decimal(out, summary.suppressed);
        out.append(" more finding(s) not shown\n");
    }
    assert(out@ =~= old(out)@ + suppressed_text(summary@));
}

/// Full human report for `seqsafe scan`.
pub fn render_human(findings: &[Finding], summary: &Summary) -> (out: String)
    ensures
        out@ == human_report(finding_views(findings@), summary@),
{
    let mut out = String::new();
    let ghost all = finding_views(findings@);
    let mut i: usize = 0;
    assert(all.take(0) =~= seq![]);
    while i < findings.len()
        invariant
            i <= findings@.len(),
            all == finding_views(findings@),
            out@ == finding_lines(all.take(i as int)),
        decreases findings@.len() - i,
    {
        let ghost before = out@;
        out.append(finding_line(&findings[i]).as_str());
        out.append("\n");
        assert(all.take(i + 1).drop_last() =~= all.take(i as int));
        assert(out@ =~= before + finding_text(all[i as int]) + "\n"@);
        i += 1;
    }
    assert(all.take(i as int) =~= all);
    push_suppressed(&mut out, summary);
    out.append(render_summary(summary).as_str());
    out
}

/// The trailing summary block shared by `scan` and `clean --summary`.
pub fn render_summary(summary: &Summary) -> (out: String)
    ensures
        out@ == summary_text(summary@),
{
    let mut out = String::new();
    push_decimal(&mut out, summary.findings);
    out.append(" finding(s): ");
    push_decimal(&mut out, summary.by_severity[3]);
    out.append(" critical, ");
    push_decimal(&mut out, summary.by_severity[2]);
    out.append(" high, ");
    push_decimal(&mut out, summary.by_severity[1]);
    out.append(" medium, ");
    push_decimal(&mut out, summary.by_severity[0]);
    out.append(" low; ");
    push_decimal(&mut out, summary.kept);
    out.append(" sequence(s) kept, ");
    push_decimal(&mut out, summary.stripped);
    out.append(" stripped; ");
    push_decimal(&mut out, summary.bytes_in);
    out.append(" bytes in, ");
    push_decimal(&mut out, summary.bytes_out);
    out.append(" bytes out\n");
    assert(out@ =~= summary_text(summary@));
    out
}

/// Verbose per-finding report for `seqsafe explain`: each finding plus the
/// one-line rationale for its class.
pub fn render_explain(findings: &[Finding], summary: &Summary) -> (out: String)
    ensures
        out@ == explain_report(finding_views(findings@), summary@),
{
    let mut out = String::new();
    let ghost all = finding_views(findings@);
    if findings.len() == 0 {
        out.append("no findings: input is clean under this policy\n");
    }
    let mut i: usize = 0;
    assert(all.take(0) =~= seq![]);
    assert(out@ =~= nothing_found(all) + explained_lines(all.take(0)));
    while i < findings.len()
        invariant
            i <= findings@.len(),
            all == finding_views(findings@),
            out@ == nothing_found(all) + explained_lines(all.take(i as int)),
        decreases findings@.len() - i,
    {
        let ghost before = out@;
        out.append(finding_line(&findings[i]).as_str());
        out.append("\n    why: ");
        out.append(findings[i].class.describe());
        out.append("\n");
        assert(all.take(i + 1).drop_last() =~= all.take(i as int));
        assert(out@ =~= nothing_found(all) + explained_lines(all.take(i + 1)));
        i += 1;
    }
    assert(all.take(i as int) =~= all);
    push_suppressed(&mut out, summary);
    out.append(render_summary(summary).as_str());
    out
}

/// Append one finding as a JSON object.
fn push_finding_json(out: &mut String, f: &Finding)
    ensures
        final(out)@ == old(out)@ + finding_json(f@),
{
    let mut json = String::from_str("\n    {\"offset\": ");
    push_decimal(&mut json, f.offset);
    json.append(", \"line\": ");
    push_decimal(&mut json, f.line);
    json.append(", \"class\": \"");
    json.append(f.class.name());
    json.append("\", \"severity\": \"");
    json.append(f.severity.name());
    json.append("\", \"label\": \"");
    json.append(f.label);
    json.append("\", \"action\": \"");
    json.append(f.action.name());
    json.append("\", \"excerpt\": \"");
    json.append(json_escape(f.excerpt.as_str()).as_str());
    json.append("\"}");
    out.append(json.as_str());
}

/// Append the statistics as a JSON object.
fn push_summary_json(out: &mut String, summary: &Summary)
    ensures
        final(out)@ == old(out)@ + summary_json(summary@),
{
    let mut json = String::from_str("{\"bytes_in\": ");
    push_decimal(&mut json, summary.bytes_in);
    json.append(", \"bytes_out\": ");
    push_decimal(&mut json, summary.bytes_out);
    json.append(", \"kept\": ");
    push_decimal(&mut json, summary.kept);
    json.append(", \"stripped\": ");
    push_decimal(&mut json, summary.stripped);
    json.append(", \"findings\": ");
    push_decimal(&mut json, summary.findings);
    json.append(", \"suppressed\": ");
    push_decimal(&mut json, summary.suppressed);
    json.append(", \"by_severity\": {\"low\": ");
    push_decimal(&mut json, summary.by_severity[0]);
    json.append(", \"medium\": ");
    push_decimal(&mut json, summary.by_severity[1]);
    json.append(", \"high\": ");
    push_decimal(&mut json, summary.by_severity[2]);
    json.append(", \"critical\": ");
    push_decimal(&mut json, summary.by_severity[3]);
    json.append("}}");
    out.append(json.as_str());
}

/// Machine-readable report for `seqsafe scan --json`.
pub fn render_json(findings: &[Finding], summary: &Summary) -> (out: String)
    ensures
        out@ == json_report(finding_views(findings@), summary@),
{
    let ghost all = finding_views(findings@);
    let mut out = String::from_str("{\n  \"version\": \"");
    out.append(VERSION);
    out.append("\",\n  \"max_severity\": \"");
    out.append(severity_of(summary).name());
    out.append("\",\n  \"summary\": ");
    push_summary_json(&mut out, summary);
    out.append(",\n  \"findings\": [");
    let ghost head = out@;
    let mut i: usize = 0;
    assert(all.take(0) =~= seq![]);
    assert(out@ =~= head + findings_json(all.take(0)));
    while i < findings.len()
        invariant
            i <= findings@.len(),
            all == finding_views(findings@),
            out@ == head + findings_json(all.take(i as int)),
        decreases findings@.len() - i,
    {
        if i > 0 {
            out.append(",");
        }
        push_finding_json(&mut out, &findings[i]);
        assert(all.take(i + 1).drop_last() =~= all.take(i as int));
        assert(out@ =~= head + findings_json(all.take(i + 1)));
        i += 1;
    }
    assert(all.take(i as int) =~= all);
    if findings.len() == 0 {
        out.append("]\n}\n");
    } else {
        out.append("\n  ]\n}\n");
    }
    assert(out@ =~= json_report(all, summary@));
    out
}

/// Reference table for `seqsafe classes`: every class, whether the given
/// policy keeps it, and what it means.
pub fn render_classes(policy: &Policy) -> (out: String)
    ensures
        out@ == class_table(policy@),
{
    let mut out = String::from_str(
        "CLASS      ACTION   DESCRIPTION\n---------- -------- ------------------------------------------------------------\n",
    );
    let mut i: usize = 0;
    assert(out@ =~= table_head() + table_rows(policy@, 0));
    while i < 16
        invariant
            i <= 16,
            out@ == table_head() + table_rows(policy@, i as int),
        decreases 16 - i,
    {
        let class = ALL_CLASSES[i];
        let action = if policy.allows(class) {
            "keep"
        } else {
            "strip"
        };
        let ghost before = out@;
        push_padded(&mut out, class.name(), 10);
        out.append(" ");
        push_padded(&mut out, action, 8);
        out.append(" ");
        out.append(class.describe());
        out.append("\n");
        assert(out@ =~= before + table_row(policy@, class));
        assert(out@ =~= table_head() + table_rows(policy@, i + 1));
        i += 1;
    }
    out
}

} // verus!
