//! Reports as character sequences.

use vstd::prelude::*;

use crate::classify::{Class, Severity, ALL_CLASSES};
use crate::policy_model::PolicyView;
use crate::sanitize_model::{FindingView, SummaryView};
use crate::text::{decimal, padded};
use crate::VERSION;

verus! {

// --- JSON strings ---------------------------------------------------------------

/// The hexadecimal digit `d` in small letters.
pub open spec fn small_hex_char(d: int) -> char {
    if d < 10 {
        (0x30 + d) as char
    } else {
        (0x57 + d) as char
    }
}

/// A character inside a JSON string.
pub open spec fn escaped_char(c: char) -> Seq<char> {
    if c == '"' {
        seq!['\\', '"']
    } else if c == '\\' {
        seq!['\\', '\\']
    } else if c == '\n' {
        seq!['\\', 'n']
    } else if c == '\r' {
        seq!['\\', 'r']
    } else if c == '\t' {
        seq!['\\', 't']
    } else if (c as int) < 0x20 {
        seq!['\\', 'u', '0', '0', small_hex_char(c as int / 16), small_hex_char(c as int % 16)]
    } else {
        seq![c]
    }
}

/// A text inside a JSON string.
pub open spec fn escaped(s: Seq<char>) -> Seq<char>
    decreases s.len(),
{
    if s.len() == 0 {
        seq![]
    } else {
        escaped(s.drop_last()) + escaped_char(s.last())
    }
}

// --- text reports ---------------------------------------------------------------

/// The highest severity that the statistics count.
pub open spec fn counted_severity(s: SummaryView) -> Severity {
    if s.critical > 0 {
        Severity::Critical
    } else if s.high > 0 {
        Severity::High
    } else if s.medium > 0 {
        Severity::Medium
    } else if s.low > 0 {
        Severity::Low
    } else {
        Severity::Benign
    }
}

/// One line on a finding.
pub open spec fn finding_text(f: FindingView) -> Seq<char> {
    "L"@ + decimal(f.line) + " @"@ + decimal(f.offset) + " ["@ + f.severity.title() + "] "@
        + f.class.title() + " ("@ + f.label + ") "@ + f.action.title() + "  "@ + f.excerpt
}

/// The summary line.
pub open spec fn summary_text(s: SummaryView) -> Seq<char> {
    decimal(s.findings) + " finding(s): "@ + decimal(s.critical) + " critical, "@ + decimal(s.high)
        + " high, "@ + decimal(s.medium) + " medium, "@ + decimal(s.low) + " low; "@ + decimal(s.kept)
        + " sequence(s) kept, "@ + decimal(s.stripped) + " stripped; "@ + decimal(s.bytes_in)
        + " bytes in, "@ + decimal(s.bytes_out) + " bytes out\n"@
}

/// The note on findings that were not stored.
pub open spec fn suppressed_text(s: SummaryView) -> Seq<char> {
    if s.suppressed > 0 {
        "... and "@ + decimal(s.suppressed) + " more finding(s) not shown\n"@
    } else {
        seq![]
    }
}

/// A line for each finding.
pub open spec fn finding_lines(findings: Seq<FindingView>) -> Seq<char>
    decreases findings.len(),
{
    if findings.len() == 0 {
        seq![]
    } else {
        finding_lines(findings.drop_last()) + finding_text(findings.last()) + "\n"@
    }
}

/// The report of a scan.
pub open spec fn human_report(findings: Seq<FindingView>, s: SummaryView) -> Seq<char> {
    finding_lines(findings) + suppressed_text(s) + summary_text(s)
}

/// A line for each finding, with why its class matters.
pub open spec fn explained_lines(findings: Seq<FindingView>) -> Seq<char>
    decreases findings.len(),
{
    if findings.len() == 0 {
        seq![]
    } else {
        explained_lines(findings.drop_last()) + finding_text(findings.last()) + "\n    why: "@
            + findings.last().class.description() + "\n"@
    }
}

/// The note that there is nothing to explain.
pub open spec fn nothing_found(findings: Seq<FindingView>) -> Seq<char> {
    if findings.len() == 0 {
        "no findings: input is clean under this policy\n"@
    } else {
        seq![]
    }
}

/// The report that explains a scan.
pub open spec fn explain_report(findings: Seq<FindingView>, s: SummaryView) -> Seq<char> {
    nothing_found(findings) + explained_lines(findings) + suppressed_text(s) + summary_text(s)
}

// --- JSON report ----------------------------------------------------------------

/// One finding as a JSON object.
pub open spec fn finding_json(f: FindingView) -> Seq<char> {
    "\n    {\"offset\": "@ + decimal(f.offset) + ", \"line\": "@ + decimal(f.line)
        + ", \"class\": \""@ + f.class.title() + "\", \"severity\": \""@ + f.severity.title()
        + "\", \"label\": \""@ + f.label + "\", \"action\": \""@ + f.action.title()
        + "\", \"excerpt\": \""@ + escaped(f.excerpt) + "\"}"@
}

/// The findings as the elements of a JSON array.
pub open spec fn findings_json(findings: Seq<FindingView>) -> Seq<char>
    decreases findings.len(),
{
    if findings.len() == 0 {
        seq![]
    } else {
        findings_json(findings.drop_last()) + (if findings.len() > 1 {
            ","@
        } else {
            seq![]
        }) + finding_json(findings.last())
    }
}

/// The statistics as a JSON object.
pub open spec fn summary_json(s: SummaryView) -> Seq<char> {
    "{\"bytes_in\": "@ + decimal(s.bytes_in) + ", \"bytes_out\": "@ + decimal(s.bytes_out)
        + ", \"kept\": "@ + decimal(s.kept) + ", \"stripped\": "@ + decimal(s.stripped)
        + ", \"findings\": "@ + decimal(s.findings) + ", \"suppressed\": "@ + decimal(s.suppressed)
        + ", \"by_severity\": {\"low\": "@ + decimal(s.low) + ", \"medium\": "@ + decimal(s.medium)
        + ", \"high\": "@ + decimal(s.high) + ", \"critical\": "@ + decimal(s.critical) + "}}"@
}

/// The machine-readable report.
pub open spec fn json_report(findings: Seq<FindingView>, s: SummaryView) -> Seq<char> {
    "{\n  \"version\": \""@ + VERSION@ + "\",\n  \"max_severity\": \""@ + counted_severity(
        s,
    ).title() + "\",\n  \"summary\": "@ + summary_json(s) + ",\n  \"findings\": ["@ + findings_json(
        findings,
    ) + (if findings.len() == 0 {
        "]\n}\n"@
    } else {
        "\n  ]\n}\n"@
    })
}

// --- class table ----------------------------------------------------------------

/// The heading of the class table.
pub open spec fn table_head() -> Seq<char> {
    "CLASS      ACTION   DESCRIPTION\n---------- -------- ------------------------------------------------------------\n"@
}

/// One row of the class table.
pub open spec fn table_row(p: PolicyView, class: Class) -> Seq<char> {
    padded(class.title(), 10) + " "@ + padded(
        if p.allowed.contains(class) {
            "keep"@
        } else {
            "strip"@
        },
        8,
    ) + " "@ + class.description() + "\n"@
}

/// The rows of the first `n` classes.
pub open spec fn table_rows(p: PolicyView, n: int) -> Seq<char>
    decreases n,
{
    if n <= 0 {
        seq![]
    } else {
        table_rows(p, n - 1) + table_row(p, ALL_CLASSES@[n - 1])
    }
}

/// The class table.
pub open spec fn class_table(p: PolicyView) -> Seq<char> {
    table_head() + table_rows(p, 16)
}

} // verus!
