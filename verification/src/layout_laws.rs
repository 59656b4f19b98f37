//! How reports are laid out: one line for each finding, in order, and what the
//! lines and their parts say.

use vstd::prelude::*;

use crate::classify::{Class, Severity, ALL_CLASSES};
use crate::policy::Preset;
use crate::policy_model::PolicyView;
use crate::report_model::{
    class_table, counted_severity, escaped, escaped_char, explain_report, explained_lines,
    finding_json, finding_lines, finding_text, findings_json, human_report, json_report,
    nothing_found, summary_json, summary_text, suppressed_text, table_head, table_row, table_rows,
};
use crate::sanitize::Action;
use crate::sanitize_model::{hex_char, shown, shown_all, shown_byte, FindingView, SummaryView};
use crate::text::{decimal, padded};

verus! {

// --- numerals -------------------------------------------------------------------

/// The number that decimal digits spell.
pub open spec fn digits_read(s: Seq<char>) -> int
    decreases s.len(),
{
    if s.len() == 0 {
        0
    } else {
        digits_read(s.drop_last()) * 10 + (s.last() as int - 0x30)
    }
}

/// A numeral is made of decimal digits, spells its number and has no leading
/// zero.
pub proof fn lemma_numerals_read_back(n: nat)
    ensures
        digits_read(decimal(n)) == n,
        decimal(n).len() > 0,
        forall|i: int|
            0 <= i < decimal(n).len() ==> 0x30 <= #[trigger] decimal(n)[i] as int && decimal(
                n,
            )[i] as int <= 0x39,
        n > 0 ==> decimal(n)[0] != '0',
        n == 0 ==> decimal(n).len() == 1,
    decreases n,
{
    let s = decimal(n);
    if n < 10 {
        reveal_with_fuel(digits_read, 2);
        assert(s.drop_last() =~= seq![]);
    } else {
        lemma_numerals_read_back(n / 10);
        let front = decimal(n / 10);
        assert(s.drop_last() =~= front);
        assert forall|i: int| 0 <= i < s.len() implies 0x30 <= #[trigger] s[i] as int
            && s[i] as int <= 0x39 by {
            if i < front.len() {
                assert(s[i] == front[i]);
            }
        }
        assert(s[0] == front[0]);
    }
}

/// Padding puts spaces behind a text until it has the width, and leaves a text
/// that has it alone.
pub proof fn lemma_padding(s: Seq<char>, width: nat)
    ensures
        padded(s, width).take(s.len() as int) == s,
        padded(s, width).len() == if s.len() < width {
            width
        } else {
            s.len()
        },
        forall|i: int|
            s.len() <= i < padded(s, width).len() ==> #[trigger] padded(s, width)[i] == ' ',
{
    assert(padded(s, width).take(s.len() as int) =~= s);
}

// --- lines ----------------------------------------------------------------------

/// The lines of findings, one finding more: its own line and a line feed are
/// added at the end. No findings have no lines.
pub proof fn lemma_one_line_each(findings: Seq<FindingView>, f: FindingView)
    ensures
        finding_lines(seq![]) == Seq::<char>::empty(),
        finding_lines(findings.push(f)) == finding_lines(findings) + finding_text(f) + seq!['\n'],
{
    reveal_strlit("\n");
    assert("\n"@ =~= seq!['\n']);
    assert(findings.push(f).drop_last() =~= findings);
}

/// The lines of the first findings and of one more of them.
pub proof fn lemma_lines_in_order(findings: Seq<FindingView>, i: int)
    requires
        0 <= i < findings.len(),
    ensures
        finding_lines(findings.take(i + 1)) == finding_lines(findings.take(i)) + finding_text(
            findings[i],
        ) + seq!['\n'],
{
    lemma_one_line_each(findings.take(i), findings[i]);
    assert(findings.take(i + 1) =~= findings.take(i).push(findings[i]));
}

/// The line of a finding: its line and offset as numerals, its severity, class,
/// label and action by name, and its excerpt.
pub proof fn lemma_line_parts(f: FindingView)
    ensures
        finding_text(f) == seq!['L'] + decimal(f.line) + seq![' ', '@'] + decimal(f.offset)
            + seq![' ', '['] + f.severity.title() + seq![']', ' '] + f.class.title() + seq![
            ' ',
            '(',
        ] + f.label + seq![')', ' '] + f.action.title() + seq![' ', ' '] + f.excerpt,
{
    reveal_strlit("L");
    reveal_strlit(" @");
    reveal_strlit(" [");
    reveal_strlit("] ");
    reveal_strlit(" (");
    reveal_strlit(") ");
    reveal_strlit("  ");
    assert("L"@ =~= seq!['L']);
    assert(" @"@ =~= seq![' ', '@']);
    assert(" ["@ =~= seq![' ', '[']);
    assert("] "@ =~= seq![']', ' ']);
    assert(" ("@ =~= seq![' ', '(']);
    assert(") "@ =~= seq![')', ' ']);
    assert("  "@ =~= seq![' ', ' ']);
}

/// The report of a scan is the lines of its findings and then the notes, which
/// do not depend on them.
pub proof fn lemma_report_is_lines_and_notes(findings: Seq<FindingView>, s: SummaryView)
    ensures
        human_report(findings, s) == finding_lines(findings) + human_report(seq![], s),
{
    let notes = suppressed_text(s) + summary_text(s);
    assert(human_report(seq![], s) =~= notes);
    assert(human_report(findings, s) =~= finding_lines(findings) + notes);
}

/// A report on one finding more differs by its line, which stands before the
/// notes.
pub proof fn lemma_report_grows(findings: Seq<FindingView>, f: FindingView, s: SummaryView)
    ensures
        human_report(findings.push(f), s) == finding_lines(findings) + finding_text(f) + seq!['\n']
            + human_report(seq![], s),
{
    lemma_report_is_lines_and_notes(findings.push(f), s);
    lemma_one_line_each(findings, f);
}

/// The notes: how many findings are not shown, if any, and the statistics, each
/// number beside its word.
pub proof fn lemma_notes(s: SummaryView)
    ensures
        human_report(seq![], s) == (if s.suppressed > 0 {
            "... and "@ + decimal(s.suppressed) + " more finding(s) not shown\n"@
        } else {
            seq![]
        }) + summary_text(s),
        summary_text(s) == decimal(s.findings) + " finding(s): "@ + decimal(s.critical)
            + " critical, "@ + decimal(s.high) + " high, "@ + decimal(s.medium) + " medium, "@
            + decimal(s.low) + " low; "@ + decimal(s.kept) + " sequence(s) kept, "@ + decimal(
            s.stripped,
        ) + " stripped; "@ + decimal(s.bytes_in) + " bytes in, "@ + decimal(s.bytes_out)
            + " bytes out\n"@,
{
    assert(finding_lines(seq![]) + suppressed_text(s) =~= suppressed_text(s));
}

/// How many line feeds a text holds.
pub open spec fn line_feeds(s: Seq<char>) -> nat
    decreases s.len(),
{
    if s.len() == 0 {
        0
    } else {
        line_feeds(s.drop_last()) + if s.last() == '\n' {
            1nat
        } else {
            0nat
        }
    }
}

/// Is there no line feed in the text?
pub open spec fn one_line(s: Seq<char>) -> bool {
    forall|i: int| 0 <= i < s.len() ==> #[trigger] s[i] != '\n'
}

proof fn lemma_feeds_concat(a: Seq<char>, b: Seq<char>)
    ensures
        line_feeds(a + b) == line_feeds(a) + line_feeds(b),
    decreases b.len(),
{
    if b.len() == 0 {
        assert(a + b =~= a);
    } else {
        assert((a + b).drop_last() =~= a + b.drop_last());
        lemma_feeds_concat(a, b.drop_last());
    }
}

proof fn lemma_no_feeds(s: Seq<char>)
    requires
        one_line(s),
    ensures
        line_feeds(s) == 0,
    decreases s.len(),
{
    if s.len() > 0 {
        assert forall|i: int| 0 <= i < s.drop_last().len() implies #[trigger] s.drop_last()[i]
            != '\n' by {
            assert(s.drop_last()[i] == s[i]);
        }
        lemma_no_feeds(s.drop_last());
    }
}

/// The names that lines are made of hold no line feed.
proof fn lemma_names_one_line(severity: Severity, class: Class, action: Action)
    ensures
        one_line(severity.title()),
        one_line(class.title()),
        one_line(action.title()),
{
    reveal_strlit("none");
    reveal_strlit("low");
    reveal_strlit("medium");
    reveal_strlit("high");
    reveal_strlit("critical");
    reveal_strlit("marked");
    reveal_strlit("stripped");
    reveal_strlit("sgr");
    reveal_strlit("hyperlink");
    reveal_strlit("cursor");
    reveal_strlit("screen");
    reveal_strlit("mode");
    reveal_strlit("title");
    reveal_strlit("clipboard");
    reveal_strlit("palette");
    reveal_strlit("query");
    reveal_strlit("dcs");
    reveal_strlit("charset");
    reveal_strlit("reset");
    reveal_strlit("control");
    reveal_strlit("c1");
    reveal_strlit("unknown");
    reveal_strlit("malformed");
}

/// The line of a finding is one line.
proof fn lemma_line_is_one(f: FindingView)
    requires
        one_line(f.label),
        one_line(f.excerpt),
    ensures
        one_line(finding_text(f)),
{
    lemma_line_parts(f);
    lemma_names_one_line(f.severity, f.class, f.action);
    lemma_numerals_read_back(f.line);
    lemma_numerals_read_back(f.offset);
    let a = seq!['L'] + decimal(f.line) + seq![' ', '@'] + decimal(f.offset) + seq![' ', '['];
    assert(one_line(a));
    let b = a + f.severity.title() + seq![']', ' '] + f.class.title() + seq![' ', '('];
    assert(one_line(b));
    let c = b + f.label + seq![')', ' '] + f.action.title() + seq![' ', ' '];
    assert(one_line(c));
    assert(finding_text(f) =~= c + f.excerpt);
}

/// A report has as many lines as it has findings, and one or two more for the
/// notes.
pub proof fn lemma_lines_counted(findings: Seq<FindingView>, s: SummaryView)
    requires
        forall|i: int|
            0 <= i < findings.len() ==> one_line((#[trigger] findings[i]).label) && one_line(
                findings[i].excerpt,
            ),
    ensures
        line_feeds(finding_lines(findings)) == findings.len(),
        line_feeds(human_report(findings, s)) == findings.len() + if s.suppressed > 0 {
            2nat
        } else {
            1nat
        },
    decreases findings.len(),
{
    lemma_report_is_lines_and_notes(findings, s);
    lemma_feeds_concat(finding_lines(findings), human_report(seq![], s));
    lemma_notes_counted(s);
    if findings.len() > 0 {
        let front = findings.drop_last();
        let f = findings.last();
        assert forall|i: int| 0 <= i < front.len() implies one_line((#[trigger] front[i]).label)
            && one_line(front[i].excerpt) by {
            assert(front[i] == findings[i]);
        }
        lemma_lines_counted(front, s);
        lemma_one_line_each(front, f);
        assert(findings =~= front.push(f));
        lemma_line_is_one(f);
        lemma_no_feeds(finding_text(f));
        lemma_feeds_concat(finding_lines(front), finding_text(f));
        lemma_feeds_concat(finding_lines(front) + finding_text(f), seq!['\n']);
        reveal_with_fuel(line_feeds, 2);
        assert(seq!['\n'].drop_last() =~= seq![]);
    }
}

/// Numbers and words without a line feed, and then one.
proof fn lemma_feed_last(a: Seq<char>, b: Seq<char>)
    requires
        one_line(a),
        b.len() > 0,
        one_line(b.drop_last()),
        b.last() == '\n',
    ensures
        line_feeds(a + b) == 1,
{
    lemma_feeds_concat(a, b);
    lemma_no_feeds(a);
    lemma_no_feeds(b.drop_last());
}

proof fn lemma_notes_counted(s: SummaryView)
    ensures
        line_feeds(human_report(seq![], s)) == if s.suppressed > 0 {
            2nat
        } else {
            1nat
        },
{
    lemma_notes(s);
    lemma_numerals_read_back(s.suppressed);
    lemma_numerals_read_back(s.findings);
    lemma_numerals_read_back(s.critical);
    lemma_numerals_read_back(s.high);
    lemma_numerals_read_back(s.medium);
    lemma_numerals_read_back(s.low);
    lemma_numerals_read_back(s.kept);
    lemma_numerals_read_back(s.stripped);
    lemma_numerals_read_back(s.bytes_in);
    lemma_numerals_read_back(s.bytes_out);
    reveal_strlit("... and ");
    reveal_strlit(" more finding(s) not shown\n");
    reveal_strlit(" finding(s): ");
    reveal_strlit(" critical, ");
    reveal_strlit(" high, ");
    reveal_strlit(" medium, ");
    reveal_strlit(" low; ");
    reveal_strlit(" sequence(s) kept, ");
    reveal_strlit(" stripped; ");
    reveal_strlit(" bytes in, ");
    reveal_strlit(" bytes out\n");
    let a = decimal(s.findings) + " finding(s): "@ + decimal(s.critical) + " critical, "@;
    assert(one_line(a));
    let b = a + decimal(s.high) + " high, "@ + decimal(s.medium) + " medium, "@;
    assert(one_line(b));
    let c = b + decimal(s.low) + " low; "@ + decimal(s.kept) + " sequence(s) kept, "@;
    assert(one_line(c));
    let d = c + decimal(s.stripped) + " stripped; "@ + decimal(s.bytes_in) + " bytes in, "@
        + decimal(s.bytes_out);
    assert(one_line(d));
    lemma_feed_last(d, " bytes out\n"@);
    let e = "... and "@ + decimal(s.suppressed);
    assert(one_line(e));
    lemma_feed_last(e, " more finding(s) not shown\n"@);
    lemma_feeds_concat(suppressed_text(s), summary_text(s));
    if s.suppressed == 0 {
        assert(human_report(seq![], s) =~= summary_text(s));
    }
}

// --- explanations -----------------------------------------------------------------

/// An explanation has for each finding, in order, its line and then why its class
/// matters; without findings it says that there are none. The notes of the report
/// end it.
pub proof fn lemma_explanation(findings: Seq<FindingView>, f: FindingView, s: SummaryView)
    ensures
        explained_lines(seq![]) == Seq::<char>::empty(),
        explained_lines(findings.push(f)) == explained_lines(findings) + finding_text(f)
            + "\n    why: "@ + f.class.description() + seq!['\n'],
        explain_report(seq![], s) == "no findings: input is clean under this policy\n"@
            + human_report(seq![], s),
        explain_report(findings.push(f), s) == explained_lines(findings.push(f)) + human_report(
            seq![],
            s,
        ),
{
    reveal_strlit("\n");
    assert("\n"@ =~= seq!['\n']);
    assert(findings.push(f).drop_last() =~= findings);
    let notes = suppressed_text(s) + summary_text(s);
    assert(human_report(seq![], s) =~= notes);
    let empty = Seq::<FindingView>::empty();
    assert(explain_report(empty, s) =~= nothing_found(empty) + explained_lines(empty) + notes);
    assert(nothing_found(empty) + explained_lines(empty) =~= nothing_found(empty));
    let more = findings.push(f);
    assert(explain_report(more, s) =~= explained_lines(more) + notes);
}

// --- JSON -------------------------------------------------------------------------

/// The elements of the JSON array, one finding more: a comma stands between
/// neighbours and nowhere else.
pub proof fn lemma_one_element_each(findings: Seq<FindingView>, f: FindingView)
    ensures
        findings_json(seq![]) == Seq::<char>::empty(),
        findings_json(findings.push(f)) == findings_json(findings) + (if findings.len() == 0 {
            seq![]
        } else {
            seq![',']
        }) + finding_json(f),
{
    reveal_strlit(",");
    assert(","@ =~= seq![',']);
    assert(findings.push(f).drop_last() =~= findings);
}

/// One element: every field of the finding under its key, the excerpt as a JSON
/// string.
pub proof fn lemma_element_fields(f: FindingView)
    ensures
        finding_json(f) == "\n    {\"offset\": "@ + decimal(f.offset) + ", \"line\": "@ + decimal(
            f.line,
        ) + ", \"class\": \""@ + f.class.title() + "\", \"severity\": \""@ + f.severity.title()
            + "\", \"label\": \""@ + f.label + "\", \"action\": \""@ + f.action.title()
            + "\", \"excerpt\": \""@ + escaped(f.excerpt) + "\"}"@,
{
}

/// The JSON report: version, highest severity, statistics under their keys, and
/// the elements.
pub proof fn lemma_json_layout(findings: Seq<FindingView>, s: SummaryView)
    ensures
        json_report(findings, s) == "{\n  \"version\": \""@ + "0.1.0"@
            + "\",\n  \"max_severity\": \""@ + counted_severity(s).title()
            + "\",\n  \"summary\": "@ + summary_json(s) + ",\n  \"findings\": ["@ + findings_json(
            findings,
        ) + (if findings.len() == 0 {
            "]\n}\n"@
        } else {
            "\n  ]\n}\n"@
        }),
        summary_json(s) == "{\"bytes_in\": "@ + decimal(s.bytes_in) + ", \"bytes_out\": "@
            + decimal(s.bytes_out) + ", \"kept\": "@ + decimal(s.kept) + ", \"stripped\": "@
            + decimal(s.stripped) + ", \"findings\": "@ + decimal(s.findings)
            + ", \"suppressed\": "@ + decimal(s.suppressed) + ", \"by_severity\": {\"low\": "@
            + decimal(s.low) + ", \"medium\": "@ + decimal(s.medium) + ", \"high\": "@ + decimal(
            s.high,
        ) + ", \"critical\": "@ + decimal(s.critical) + "}}"@,
{
}

/// The highest severity in the statistics is counted there, and none above it is.
pub proof fn lemma_counted_severity(s: SummaryView)
    ensures
        ({
            let top = counted_severity(s);
            &&& top is Critical <==> s.critical > 0
            &&& top is High <==> s.critical == 0 && s.high > 0
            &&& top is Medium <==> s.critical == 0 && s.high == 0 && s.medium > 0
            &&& top is Low <==> s.critical == 0 && s.high == 0 && s.medium == 0 && s.low > 0
            &&& top is Benign <==> s.critical == 0 && s.high == 0 && s.medium == 0 && s.low == 0
        }),
{
}

/// Inside a JSON string only the quote, the backslash and control characters are
/// written with a backslash.
pub proof fn lemma_escaped_exactly(c: char)
    ensures
        c != '"' && c != '\\' && c as int >= 0x20 ==> escaped_char(c) == seq![c],
        escaped_char('"') == seq!['\\', '"'],
        escaped_char('\\') == seq!['\\', '\\'],
        escaped_char('\n') == seq!['\\', 'n'],
        escaped_char('\r') == seq!['\\', 'r'],
        escaped_char('\t') == seq!['\\', 't'],
        (c as int) < 0x20 && c != '\n' && c != '\r' && c != '\t' ==> {
            let e = escaped_char(c);
            &&& e.len() == 6
            &&& e[0] == '\\' && e[1] == 'u' && e[2] == '0' && e[3] == '0'
            &&& e[4] == if (c as int) < 0x10 {
                '0'
            } else {
                '1'
            }
        },
{
}

// --- excerpts ---------------------------------------------------------------------

/// Excerpts show bytes one by one.
pub proof fn lemma_shown_one_by_one(bytes: Seq<u8>, b: u8)
    ensures
        shown_all(seq![]) == Seq::<char>::empty(),
        shown_all(bytes.push(b)) == shown_all(bytes) + shown_byte(b),
{
    assert(bytes.push(b).drop_last() =~= bytes);
}

/// The hexadecimal digit of a capital letter or a decimal digit.
pub open spec fn hex_value(c: char) -> int {
    if c as int <= 0x39 {
        c as int - 0x30
    } else {
        c as int - 0x37
    }
}

/// A printable byte is shown as its character, and every other byte between angle
/// brackets: the escape and bell characters by name, the others by their two
/// hexadecimal digits.
pub proof fn lemma_shown_exactly(b: u8)
    ensures
        0x20 <= b <= 0x7E ==> shown_byte(b) == seq![b as char],
        b == 0x1B ==> shown_byte(b) == seq!['\u{27E8}', 'E', 'S', 'C', '\u{27E9}'],
        b == 0x07 ==> shown_byte(b) == seq!['\u{27E8}', 'B', 'E', 'L', '\u{27E9}'],
        !(0x20 <= b <= 0x7E) && b != 0x1B && b != 0x07 ==> {
            let s = shown_byte(b);
            &&& s.len() == 6
            &&& s[0] == '\u{27E8}' && s[1] == '0' && s[2] == 'x' && s[5] == '\u{27E9}'
            &&& hex_value(s[3]) * 16 + hex_value(s[4]) == b
            &&& '0' <= s[3] <= '9' || 'A' <= s[3] <= 'F'
            &&& '0' <= s[4] <= '9' || 'A' <= s[4] <= 'F'
        },
{
    reveal_strlit("\u{27E8}ESC\u{27E9}");
    reveal_strlit("\u{27E8}BEL\u{27E9}");
    reveal_strlit("\u{27E8}0x");
    reveal_strlit("\u{27E9}");
    assert("\u{27E8}ESC\u{27E9}"@ =~= seq!['\u{27E8}', 'E', 'S', 'C', '\u{27E9}']);
    assert("\u{27E8}BEL\u{27E9}"@ =~= seq!['\u{27E8}', 'B', 'E', 'L', '\u{27E9}']);
    let hi = b as int / 16;
    let lo = b as int % 16;
    assert(0 <= hi < 16 && 0 <= lo < 16);
    assert(hex_value(hex_char(hi)) == hi);
    assert(hex_value(hex_char(lo)) == lo);
}

/// An excerpt shows all bytes up to the cap, and an ellipsis where more follow.
pub proof fn lemma_shown_to_the_cap(bytes: Seq<u8>, more: Seq<u8>)
    requires
        more.len() > 0,
    ensures
        shown(bytes, bytes.len()) == shown_all(bytes),
        shown(bytes + more, bytes.len()) == shown_all(bytes) + seq!['\u{2026}'],
{
    assert((bytes + more).take(bytes.len() as int) =~= bytes);
    assert(shown_all(bytes).push('\u{2026}') =~= shown_all(bytes) + seq!['\u{2026}']);
}

// --- the class table ----------------------------------------------------------------

/// A row of the table: the class by name, what the policy does with it, and what it
/// is, in columns.
pub proof fn lemma_row_parts(p: PolicyView, class: Class)
    ensures
        table_row(p, class) == padded(class.title(), 10) + seq![' '] + (if p.allowed.contains(
            class,
        ) {
            "keep    "@
        } else {
            "strip   "@
        }) + seq![' '] + class.description() + seq!['\n'],
{
    reveal_strlit(" ");
    reveal_strlit("\n");
    reveal_strlit("keep");
    reveal_strlit("strip");
    reveal_strlit("keep    ");
    reveal_strlit("strip   ");
    assert(" "@ =~= seq![' ']);
    assert("\n"@ =~= seq!['\n']);
    assert(padded("keep"@, 8) =~= "keep    "@);
    assert(padded("strip"@, 8) =~= "strip   "@);
}

/// The table has a row for each class, in this order, below its heading.
pub proof fn lemma_table_rows(p: PolicyView)
    ensures
        class_table(p) == table_head() + table_row(p, Class::Sgr) + table_row(p, Class::Hyperlink)
            + table_row(p, Class::Cursor) + table_row(p, Class::Screen) + table_row(p, Class::Mode)
            + table_row(p, Class::Title) + table_row(p, Class::Clipboard) + table_row(
            p,
            Class::Palette,
        ) + table_row(p, Class::Query) + table_row(p, Class::Dcs) + table_row(p, Class::Charset)
            + table_row(p, Class::Reset) + table_row(p, Class::Control) + table_row(p, Class::C1)
            + table_row(p, Class::Unknown) + table_row(p, Class::Malformed),
        table_head()
            == "CLASS      ACTION   DESCRIPTION\n---------- -------- ------------------------------------------------------------\n"@,
{
    let all = ALL_CLASSES@;
    assert(all[0] == Class::Sgr && all[1] == Class::Hyperlink && all[2] == Class::Cursor);
    assert(all[3] == Class::Screen && all[4] == Class::Mode && all[5] == Class::Title);
    assert(all[6] == Class::Clipboard && all[7] == Class::Palette && all[8] == Class::Query);
    assert(all[9] == Class::Dcs && all[10] == Class::Charset && all[11] == Class::Reset);
    assert(all[12] == Class::Control && all[13] == Class::C1 && all[14] == Class::Unknown);
    assert(all[15] == Class::Malformed);
    let head = table_head();
    lemma_rows(p, head, 1);
    lemma_rows(p, head, 2);
    lemma_rows(p, head, 3);
    lemma_rows(p, head, 4);
    lemma_rows(p, head, 5);
    lemma_rows(p, head, 6);
    lemma_rows(p, head, 7);
    lemma_rows(p, head, 8);
    lemma_rows(p, head, 9);
    lemma_rows(p, head, 10);
    lemma_rows(p, head, 11);
    lemma_rows(p, head, 12);
    lemma_rows(p, head, 13);
    lemma_rows(p, head, 14);
    lemma_rows(p, head, 15);
    lemma_rows(p, head, 16);
    assert(head + table_rows(p, 0) =~= head);
}

proof fn lemma_rows(p: PolicyView, head: Seq<char>, n: int)
    requires
        n > 0,
    ensures
        head + table_rows(p, n) == head + table_rows(p, n - 1) + table_row(p, ALL_CLASSES@[n - 1]),
{
    assert(head + (table_rows(p, n - 1) + table_row(p, ALL_CLASSES@[n - 1])) =~= head + table_rows(
        p,
        n - 1,
    ) + table_row(p, ALL_CLASSES@[n - 1]));
}

// --- names --------------------------------------------------------------------------

/// The names of classes.
pub proof fn lemma_class_names()
    ensures
        Class::Sgr.title() == "sgr"@,
        Class::Hyperlink.title() == "hyperlink"@,
        Class::Cursor.title() == "cursor"@,
        Class::Screen.title() == "screen"@,
        Class::Mode.title() == "mode"@,
        Class::Title.title() == "title"@,
        Class::Clipboard.title() == "clipboard"@,
        Class::Palette.title() == "palette"@,
        Class::Query.title() == "query"@,
        Class::Dcs.title() == "dcs"@,
        Class::Charset.title() == "charset"@,
        Class::Reset.title() == "reset"@,
        Class::Control.title() == "control"@,
        Class::C1.title() == "c1"@,
        Class::Unknown.title() == "unknown"@,
        Class::Malformed.title() == "malformed"@,
{
}

/// What is said of classes.
pub proof fn lemma_class_descriptions()
    ensures
        Class::Sgr.description() == "colors and text styling (CSI ... m); the thing worth keeping"@,
        Class::Cursor.description() == "cursor movement lets output overwrite earlier, already-trusted lines"@,
        Class::Screen.description() == "erase/scroll/insert can hide evidence or displace what you just read"@,
        Class::Mode.description() == "alt screen, mouse tracking and bracketed-paste switches change how the terminal behaves after the output ends"@,
        Class::Title.description() == "window titles persist after the output and are spoofing bait for humans and prompts"@,
        Class::Clipboard.description() == "OSC 52 writes (or reads) your clipboard; the classic paste-a-command attack"@,
        Class::Palette.description() == "palette changes can render later text invisible (foreground = background)"@,
        Class::Hyperlink.description() == "OSC 8 hyperlinks; safe schemes are kept, anything else is stripped"@,
        Class::Query.description() == "device queries make the terminal type an answer into stdin, which the foreground program reads as input"@,
        Class::Dcs.description() == "DCS/APC/PM/SOS payload channels: DECRQSS, XTGETTCAP, graphics, tmux passthrough — high-bandwidth and terminal-specific"@,
        Class::Charset.description() == "charset designation remaps glyphs so the bytes you audit are not the glyphs you see"@,
        Class::Reset.description() == "full/soft resets wipe terminal state including your scrollback settings"@,
        Class::Control.description() == "bare control bytes: BEL rings, BS overwrites, VT/FF move vertically"@,
        Class::C1.description() == "raw 8-bit C1 controls; legitimate UTF-8 output never contains them standalone"@,
        Class::Unknown.description() == "well-formed sequences seqsafe does not recognize; stripped on principle"@,
        Class::Malformed.description() == "truncated/spliced/oversized sequences; always stripped, cannot be allowed"@,
{
}

/// The names of severities, actions and presets.
pub proof fn lemma_other_names()
    ensures
        Severity::Benign.title() == "none"@,
        Severity::Low.title() == "low"@,
        Severity::Medium.title() == "medium"@,
        Severity::High.title() == "high"@,
        Severity::Critical.title() == "critical"@,
        Action::Marked.title() == "marked"@,
        Action::Stripped.title() == "stripped"@,
        Preset::Default.title() == "default"@,
        Preset::Strict.title() == "strict"@,
        Preset::Plain.title() == "plain"@,
{
}

} // verus!
