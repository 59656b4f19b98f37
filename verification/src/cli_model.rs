//! Command lines as mathematics: what each one means, and what is said of the
//! ones that mean nothing.

use vstd::prelude::*;

use crate::classify::Severity;
use crate::cli::USAGE;
use crate::policy::Preset;
use crate::policy_model::{preset_policy, refine_error, refined, PolicyView};
use crate::report_model::{class_table, explain_report, human_report, json_report, summary_text};
use crate::sanitize_model::{fresh, stored, worst, SanitizerView};
use crate::VERSION;

verus! {

// --- lists --------------------------------------------------------------------

/// A white space character of Unicode.
pub open spec fn space_char(c: char) -> bool {
    ||| '\u{9}' <= c && c <= '\u{D}'
    ||| c == ' '
    ||| c == '\u{85}'
    ||| c == '\u{A0}'
    ||| c == '\u{1680}'
    ||| '\u{2000}' <= c && c <= '\u{200A}'
    ||| c == '\u{2028}'
    ||| c == '\u{2029}'
    ||| c == '\u{202F}'
    ||| c == '\u{205F}'
    ||| c == '\u{3000}'
}

/// `s` without white space at its front.
pub open spec fn trimmed_front(s: Seq<char>) -> Seq<char>
    decreases s.len(),
{
    if s.len() > 0 && space_char(s[0]) {
        trimmed_front(s.skip(1))
    } else {
        s
    }
}

/// `s` without white space at its back.
pub open spec fn trimmed_back(s: Seq<char>) -> Seq<char>
    decreases s.len(),
{
    if s.len() > 0 && space_char(s.last()) {
        trimmed_back(s.drop_last())
    } else {
        s
    }
}

/// `s` without white space at either end.
pub open spec fn trimmed(s: Seq<char>) -> Seq<char> {
    trimmed_back(trimmed_front(s))
}

/// The first index at which a comma stands in `s`, or the length of `s`.
pub open spec fn comma(s: Seq<char>) -> int
    decreases s.len(),
{
    if s.len() == 0 || s[0] == ',' {
        0
    } else {
        1 + comma(s.skip(1))
    }
}

/// A list of one item, or of none if the item is empty.
pub open spec fn nonempty(item: Seq<char>) -> Seq<Seq<char>> {
    if item.len() == 0 {
        seq![]
    } else {
        seq![item]
    }
}

/// The items of a comma-separated list: trimmed, without the empty ones.
pub open spec fn listed(s: Seq<char>) -> Seq<Seq<char>>
    decreases s.len(),
{
    let i = comma(s);
    let first = nonempty(trimmed(s.take(i)));
    if 0 <= i < s.len() {
        first + listed(s.skip(i + 1))
    } else {
        first
    }
}

// --- commands -----------------------------------------------------------------

/// Options that all commands share.
#[verifier::ext_equal]
pub struct CommonView {
    pub file: Option<Seq<char>>,
    pub preset: Preset,
    pub allow: Seq<Seq<char>>,
    pub deny: Seq<Seq<char>>,
    pub link_schemes: Option<Seq<Seq<char>>>,
}

/// A command.
#[verifier::ext_equal]
pub enum CmdView {
    Clean { common: CommonView, mark: bool, summary: bool, output: Option<Seq<char>> },
    Scan { common: CommonView, json: bool, fail_on: Severity },
    Explain { common: CommonView },
    Classes { common: CommonView },
    Help,
    Version,
}

/// An option that belongs to some commands only.
#[verifier::ext_equal]
pub struct FlagView {
    pub name: Seq<char>,
    pub value: Option<Seq<char>>,
}

/// Options read so far.
#[verifier::ext_equal]
pub struct OptionsView {
    pub common: CommonView,
    pub extra: Seq<FlagView>,
}

/// No option given.
pub open spec fn no_common() -> CommonView {
    CommonView {
        file: None,
        preset: Preset::Default,
        allow: seq![],
        deny: seq![],
        link_schemes: None,
    }
}

/// Does `s` begin with a dash?
pub open spec fn dashed(s: Seq<char>) -> bool {
    s.len() > 0 && s[0] == '-'
}

/// Is the word after this option its value?
pub open spec fn takes_value(arg: Seq<char>) -> bool {
    ||| arg == "--policy"@
    ||| arg == "--allow"@
    ||| arg == "--deny"@
    ||| arg == "--link-schemes"@
    ||| arg == "--fail-on"@
    ||| arg == "-o"@
    ||| arg == "--output"@
}

/// Does this option stand alone?
pub open spec fn stands_alone(arg: Seq<char>) -> bool {
    arg == "--mark"@ || arg == "--summary"@ || arg == "--json"@
}

/// What an option with a value adds.
pub open spec fn with_value(
    o: OptionsView,
    arg: Seq<char>,
    value: Seq<char>,
) -> Result<OptionsView, Seq<char>> {
    if arg == "--policy"@ {
        match Preset::named(value) {
            Some(preset) => Ok(
                OptionsView { common: CommonView { preset, ..o.common }, ..o },
            ),
            None => Err("unknown policy '"@ + value + "' (default|strict|plain)"@),
        }
    } else if arg == "--allow"@ {
        Ok(OptionsView { common: CommonView { allow: o.common.allow + listed(value), ..o.common }, ..o })
    } else if arg == "--deny"@ {
        Ok(OptionsView { common: CommonView { deny: o.common.deny + listed(value), ..o.common }, ..o })
    } else if arg == "--link-schemes"@ {
        Ok(
            OptionsView {
                common: CommonView { link_schemes: Some(listed(value)), ..o.common },
                ..o
            },
        )
    } else {
        Ok(OptionsView { extra: o.extra.push(FlagView { name: arg, value: Some(value) }), ..o })
    }
}

/// What a word without a value adds.
pub open spec fn with_word(o: OptionsView, arg: Seq<char>) -> Result<OptionsView, Seq<char>> {
    if stands_alone(arg) {
        Ok(OptionsView { extra: o.extra.push(FlagView { name: arg, value: None }), ..o })
    } else if dashed(arg) && arg != "-"@ {
        Err("unknown option '"@ + arg + "'"@)
    } else if o.common.file is Some {
        Err("more than one input file given"@)
    } else {
        Ok(OptionsView { common: CommonView { file: Some(arg), ..o.common }, ..o })
    }
}

/// The options that the words give after those read so far.
pub open spec fn options(
    args: Seq<Seq<char>>,
    o: OptionsView,
) -> Result<OptionsView, Seq<char>>
    decreases args.len(),
{
    if args.len() == 0 {
        Ok(o)
    } else if takes_value(args[0]) {
        if args.len() == 1 {
            Err(args[0] + " requires a value"@)
        } else {
            match with_value(o, args[0], args[1]) {
                Ok(next) => options(args.skip(2), next),
                Err(e) => Err(e),
            }
        }
    } else {
        match with_word(o, args[0]) {
            Ok(next) => options(args.skip(1), next),
            Err(e) => Err(e),
        }
    }
}

/// The options that the words give.
pub open spec fn all_options(args: Seq<Seq<char>>) -> Result<OptionsView, Seq<char>> {
    options(args, OptionsView { common: no_common(), extra: seq![] })
}

/// The options of `clean` itself.
#[verifier::ext_equal]
pub struct CleanView {
    pub mark: bool,
    pub summary: bool,
    pub output: Option<Seq<char>>,
}

/// What the flags mean to `clean`.
pub open spec fn clean_flags(extra: Seq<FlagView>) -> Result<CleanView, Seq<char>>
    decreases extra.len(),
{
    if extra.len() == 0 {
        Ok(CleanView { mark: false, summary: false, output: None })
    } else {
        match clean_flags(extra.drop_last()) {
            Err(e) => Err(e),
            Ok(c) => {
                let flag = extra.last();
                if flag.name == "--mark"@ {
                    Ok(CleanView { mark: true, ..c })
                } else if flag.name == "--summary"@ {
                    Ok(CleanView { summary: true, ..c })
                } else if flag.name == "-o"@ || flag.name == "--output"@ {
                    Ok(CleanView { output: flag.value, ..c })
                } else {
                    Err("option '"@ + flag.name + "' is not valid for clean"@)
                }
            },
        }
    }
}

/// The options of `scan` itself.
#[verifier::ext_equal]
pub struct ScanView {
    pub json: bool,
    pub fail_on: Severity,
}

/// What the flags mean to `scan`.
pub open spec fn scan_flags(extra: Seq<FlagView>) -> Result<ScanView, Seq<char>>
    decreases extra.len(),
{
    if extra.len() == 0 {
        Ok(ScanView { json: false, fail_on: Severity::Critical })
    } else {
        match scan_flags(extra.drop_last()) {
            Err(e) => Err(e),
            Ok(s) => {
                let flag = extra.last();
                if flag.name == "--json"@ {
                    Ok(ScanView { json: true, ..s })
                } else if flag.name == "--fail-on"@ {
                    match Severity::named(flag.value->0) {
                        Some(fail_on) => Ok(ScanView { fail_on, ..s }),
                        None => Err("unknown --fail-on level '"@ + flag.value->0 + "'"@),
                    }
                } else {
                    Err("option '"@ + flag.name + "' is not valid for scan"@)
                }
            },
        }
    }
}

/// `clean` with these words after it.
pub open spec fn clean_cmd(args: Seq<Seq<char>>) -> Result<CmdView, Seq<char>> {
    match all_options(args) {
        Err(e) => Err(e),
        Ok(o) => match clean_flags(o.extra) {
            Err(e) => Err(e),
            Ok(c) => Ok(
                CmdView::Clean {
                    common: o.common,
                    mark: c.mark,
                    summary: c.summary,
                    output: c.output,
                },
            ),
        },
    }
}

/// `scan` with these words after it.
pub open spec fn scan_cmd(args: Seq<Seq<char>>) -> Result<CmdView, Seq<char>> {
    match all_options(args) {
        Err(e) => Err(e),
        Ok(o) => match scan_flags(o.extra) {
            Err(e) => Err(e),
            Ok(s) => Ok(CmdView::Scan { common: o.common, json: s.json, fail_on: s.fail_on }),
        },
    }
}

/// The shared options alone, for a command that has none of its own.
pub open spec fn common_only(args: Seq<Seq<char>>) -> Result<CommonView, Seq<char>> {
    match all_options(args) {
        Err(e) => Err(e),
        Ok(o) => if o.extra.len() > 0 {
            Err("option '"@ + o.extra[0].name + "' is not valid for this command"@)
        } else {
            Ok(o.common)
        },
    }
}

/// `explain` with these words after it.
pub open spec fn explain_cmd(args: Seq<Seq<char>>) -> Result<CmdView, Seq<char>> {
    match common_only(args) {
        Err(e) => Err(e),
        Ok(common) => Ok(CmdView::Explain { common }),
    }
}

/// `classes` with these words after it.
pub open spec fn classes_cmd(args: Seq<Seq<char>>) -> Result<CmdView, Seq<char>> {
    match common_only(args) {
        Err(e) => Err(e),
        Ok(common) => if common.file is Some {
            Err("classes takes no input file"@)
        } else {
            Ok(CmdView::Classes { common })
        },
    }
}

/// Does this first word ask for help?
pub open spec fn asks_help(arg: Seq<char>) -> bool {
    arg == "--help"@ || arg == "-h"@ || arg == "help"@
}

/// Does this first word ask for the version?
pub open spec fn asks_version(arg: Seq<char>) -> bool {
    arg == "--version"@ || arg == "-V"@
}

/// What a command line means. Without words it is help on a terminal and
/// `clean` in a pipeline; a leading option, or a dash for standard input,
/// implies `clean`.
pub open spec fn parsed(args: Seq<Seq<char>>, stdin_is_tty: bool) -> Result<CmdView, Seq<char>> {
    if args.len() == 0 {
        if stdin_is_tty {
            Ok(CmdView::Help)
        } else {
            clean_cmd(seq![])
        }
    } else if asks_help(args[0]) {
        Ok(CmdView::Help)
    } else if asks_version(args[0]) {
        Ok(CmdView::Version)
    } else if dashed(args[0]) {
        clean_cmd(args)
    } else if args[0] == "clean"@ {
        clean_cmd(args.skip(1))
    } else if args[0] == "scan"@ {
        scan_cmd(args.skip(1))
    } else if args[0] == "explain"@ {
        explain_cmd(args.skip(1))
    } else if args[0] == "classes"@ {
        classes_cmd(args.skip(1))
    } else {
        Err("unknown command '"@ + args[0] + "' (try `seqsafe help`)"@)
    }
}

// --- policies and conclusions ---------------------------------------------------

/// The policy that the shared options describe, where their class names are
/// accepted.
pub open spec fn built_policy(common: CommonView) -> PolicyView {
    let p = refined(preset_policy(common.preset), common.allow, common.deny);
    match common.link_schemes {
        Some(link_schemes) => PolicyView { link_schemes, ..p },
        None => p,
    }
}

/// What a command does first: print a text and be done, or feed the input to a
/// sanitizer.
#[verifier::ext_equal]
pub enum StepView {
    Print(Seq<char>),
    Read(SanitizerView),
}

/// A first step under a policy, or the message on a class name that is not
/// accepted.
pub open spec fn under_policy(common: CommonView, step: StepView) -> Result<StepView, Seq<char>> {
    match refine_error(common.allow, common.deny) {
        None => Ok(step),
        Some(e) => Err(e.message()),
    }
}

/// The first step of a command.
pub open spec fn prepared(cmd: CmdView) -> Result<StepView, Seq<char>> {
    match cmd {
        CmdView::Help => Ok(StepView::Print(USAGE@)),
        CmdView::Version => Ok(StepView::Print("seqsafe "@ + VERSION@ + "\n"@)),
        CmdView::Classes { common } => under_policy(
            common,
            StepView::Print(class_table(built_policy(common))),
        ),
        CmdView::Clean { common, mark, .. } => under_policy(
            common,
            StepView::Read(fresh(built_policy(common), mark)),
        ),
        CmdView::Scan { common, .. } => under_policy(
            common,
            StepView::Read(fresh(built_policy(common), false)),
        ),
        CmdView::Explain { common } => under_policy(
            common,
            StepView::Read(fresh(built_policy(common), false)),
        ),
    }
}

/// Does a command read its input from standard input?
pub open spec fn from_stdin(file: Option<Seq<char>>) -> bool {
    match file {
        None => true,
        Some(path) => path == "-"@,
    }
}

/// What a command prints after its input, and its exit code.
#[verifier::ext_equal]
pub struct ConclusionView {
    pub stdout: Seq<char>,
    pub stderr: Seq<char>,
    pub code: int,
}

/// What a command that reads input comes to.
pub open spec fn concluded(cmd: CmdView, v: SanitizerView) -> ConclusionView {
    let findings = stored(v.log().findings);
    match cmd {
        CmdView::Clean { summary, .. } => ConclusionView {
            stdout: seq![],
            stderr: if summary {
                summary_text(v.summary())
            } else {
                seq![]
            },
            code: 0,
        },
        CmdView::Scan { json, fail_on, .. } => ConclusionView {
            stdout: if json {
                json_report(findings, v.summary())
            } else {
                human_report(findings, v.summary())
            },
            stderr: seq![],
            code: if worst(v.log().findings).rank() >= fail_on.rank() {
                1
            } else {
                0
            },
        },
        CmdView::Explain { .. } => ConclusionView {
            stdout: explain_report(findings, v.summary()),
            stderr: seq![],
            code: 0,
        },
        _ => ConclusionView { stdout: seq![], stderr: seq![], code: 0 },
    }
}

} // verus!
