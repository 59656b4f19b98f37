//! Command-line interface: argument parsing and what the subcommands come to.
//!
//! Parsing is a pure function from argv to a [`Cmd`] so it can be unit
//! tested without a process; I/O is left to the program around the library.

use vstd::prelude::*;
use vstd::slice::slice_subrange;
use vstd::string::StringExecFns;

use crate::classify::Severity;
use crate::cli_model::{
    all_options, built_policy, classes_cmd, clean_cmd, clean_flags, comma, common_only, concluded,
    dashed, explain_cmd, from_stdin, listed, no_common, nonempty, options, parsed, prepared,
    scan_cmd, scan_flags, space_char, takes_value, trimmed, trimmed_back, trimmed_front, with_value,
    with_word, CleanView, CmdView, CommonView, ConclusionView, FlagView, OptionsView, ScanView,
    StepView,
};
use crate::policy::{Policy, Preset};
use crate::policy_model::refine_error;
use crate::report;
use crate::report_model::class_table;
use crate::sanitize::Sanitizer;
use crate::sanitize_model::fresh;
use crate::text::{chars_of, clone_strings, opt_text, str_eq, string_of, texts};
use crate::VERSION;

verus! {

/// The help text.
pub const USAGE: &'static str = "seqsafe — sanitize untrusted terminal output (keep colors, strip attacks)

USAGE:
    seqsafe <COMMAND> [OPTIONS] [FILE]
    ... | seqsafe [OPTIONS]  (no command: same as `seqsafe clean`)

COMMANDS:
    clean      Sanitize input to stdout (the filter; default when piped)
    scan       Report what would be stripped; gate with --fail-on
    explain    Like scan, with a rationale for every finding
    classes    List sequence classes and what the policy does with them
    help       Show this help

OPTIONS (clean/scan/explain/classes):
    --policy <default|strict|plain>   Base policy preset [default: default]
    --allow <class,...>               Additionally keep these classes
    --deny <class,...>                Strip these classes even if preset keeps them
    --link-schemes <s,...>            Allowed hyperlink URI schemes [http,https,mailto]

OPTIONS (clean):
    --mark                            Replace stripped sequences with visible markers
    --summary                         Print a summary line to stderr
    -o, --output <FILE>               Write to FILE instead of stdout

OPTIONS (scan):
    --json                            Machine-readable JSON report
    --fail-on <low|medium|high|critical|any>
                                      Exit 1 at/above this severity [default: critical]

FILE defaults to stdin ('-' also means stdin). Exit codes: 0 ok,
1 scan gate tripped, 2 usage or I/O error.
";

/// A fully parsed invocation.
#[derive(Debug, PartialEq, Eq)]
pub enum Cmd {
    Clean { common: Common, mark: bool, summary: bool, output: Option<String> },
    Scan { common: Common, json: bool, fail_on: Severity },
    Explain { common: Common },
    Classes { common: Common },
    Help,
    Version,
}

impl View for Cmd {
    type V = CmdView;

    open spec fn view(&self) -> CmdView {
        match *self {
            Cmd::Clean { common, mark, summary, output } => CmdView::Clean {
                common: common@,
                mark,
                summary,
                output: opt_text(output),
            },
            Cmd::Scan { common, json, fail_on } => CmdView::Scan { common: common@, json, fail_on },
            Cmd::Explain { common } => CmdView::Explain { common: common@ },
            Cmd::Classes { common } => CmdView::Classes { common: common@ },
            Cmd::Help => CmdView::Help,
            Cmd::Version => CmdView::Version,
        }
    }
}

/// Options shared by clean/scan/explain/classes.
#[derive(Debug, PartialEq, Eq)]
pub struct Common {
    pub file: Option<String>,
    pub preset: Preset,
    pub allow: Vec<String>,
    pub deny: Vec<String>,
    pub link_schemes: Option<Vec<String>>,
}

impl View for Common {
    type V = CommonView;

    open spec fn view(&self) -> CommonView {
        CommonView {
            file: opt_text(self.file),
            preset: self.preset,
            allow: texts(self.allow@),
            deny: texts(self.deny@),
            link_schemes: match self.link_schemes {
                Some(schemes) => Some(texts(schemes@)),
                None => None,
            },
        }
    }
}

impl Default for Common {
    fn default() -> (common: Self)
        ensures
            common@ == no_common(),
    {
        let common = Common {
            file: None,
            preset: Preset::Default,
            allow: Vec::new(),
            deny: Vec::new(),
            link_schemes: None,
        };
        assert(common@ =~= no_common());
        common
    }
}

impl Common {
    /// The policy that the options describe, or the message on a class name
    /// that is not accepted.
    pub fn build_policy(&self) -> (result: Result<Policy, String>)
        ensures
            match result {
                Ok(policy) => {
                    &&& refine_error(self@.allow, self@.deny) is None
                    &&& policy@ == built_policy(self@)
                },
                Err(message) => {
                    &&& refine_error(self@.allow, self@.deny) matches Some(e) && message@
                        == e.message()
                },
            },
    {
        match Policy::preset(self.preset).refine(self.allow.as_slice(), self.deny.as_slice()) {
            Err(e) => Err(e.to_string()),
            Ok(policy) => {
                let mut policy = policy;
                if let Some(schemes) = &self.link_schemes {
                    policy.link_schemes = clone_strings(schemes);
                }
                Ok(policy)
            },
        }
    }
}

/// An option that belongs to some commands only, with its value if it has one.
struct Flag {
    name: String,
    value: Option<String>,
}

impl View for Flag {
    type V = FlagView;

    closed spec fn view(&self) -> FlagView {
        FlagView { name: self.name@, value: opt_text(self.value) }
    }
}

/// The models of a sequence of flags.
spec fn flag_views(flags: Seq<Flag>) -> Seq<FlagView> {
    flags.map_values(|f: Flag| f@)
}

/// A flag that takes a value has one.
spec fn flags_ok(flags: Seq<Flag>) -> bool {
    forall|i: int|
        0 <= i < flags.len() && takes_value((#[trigger] flags[i])@.name) ==> flags[i].value is Some
}

/// The shared options of a command line, and what is left for the command.
struct Options {
    common: Common,
    extra: Vec<Flag>,
}

impl View for Options {
    type V = OptionsView;

    closed spec fn view(&self) -> OptionsView {
        OptionsView { common: self.common@, extra: flag_views(self.extra@) }
    }
}

// --- lists ----------------------------------------------------------------------

/// Is this a white space character of Unicode?
fn is_space(c: char) -> (space: bool)
    ensures
        space == space_char(c),
{
    ('\u{9}' <= c && c <= '\u{D}') || c == ' ' || c == '\u{85}' || c == '\u{A0}' || c == '\u{1680}' || (
    '\u{2000}' <= c && c <= '\u{200A}') || c == '\u{2028}' || c == '\u{2029}' || c == '\u{202F}' || c
        == '\u{205F}' || c == '\u{3000}'
}

/// The item between two places of a list, without white space around it.
fn trimmed_item(chars: &Vec<char>, from: usize, to: usize) -> (item: String)
    requires
        from <= to <= chars@.len(),
    ensures
        item@ == trimmed(chars@.subrange(from as int, to as int)),
{
    let ghost all = chars@.subrange(from as int, to as int);
    let mut a: usize = from;
    while a < to && is_space(chars[a])
        invariant
            from <= a <= to <= chars@.len(),
            trimmed_front(all) == trimmed_front(chars@.subrange(a as int, to as int)),
        decreases to - a,
    {
        assert(chars@.subrange(a as int, to as int).skip(1) =~= chars@.subrange(
            a + 1,
            to as int,
        ));
        a += 1;
    }
    let ghost front = chars@.subrange(a as int, to as int);
    assert(trimmed_front(all) == front);
    let mut b: usize = to;
    while b > a && is_space(chars[b - 1])
        invariant
            a <= b <= to <= chars@.len(),
            trimmed_back(front) == trimmed_back(chars@.subrange(a as int, b as int)),
        decreases b,
    {
        assert(chars@.subrange(a as int, b as int).drop_last() =~= chars@.subrange(
            a as int,
            b - 1,
        ));
        b -= 1;
    }
    string_of(chars, a, b)
}

/// The items of a comma-separated list: trimmed, without the empty ones.
fn split_list(value: &str) -> (items: Vec<String>)
    ensures
        texts(items@) == listed(value@),
{
    let chars = chars_of(value);
    let mut items: Vec<String> = Vec::new();
    let mut start: usize = 0;
    assert(chars@.skip(0) =~= chars@);
    assert(texts(items@) + listed(chars@.skip(0)) =~= listed(chars@));
    loop
        invariant
            start <= chars@.len(),
            texts(items@) + listed(chars@.skip(start as int)) == listed(chars@),
            chars@ == value@,
        decreases chars@.len() - start,
    {
        let ghost tail = chars@.skip(start as int);
        let mut i: usize = start;
        assert(tail.skip(0) =~= tail);
        while i < chars.len() && chars[i] != ','
            invariant
                start <= i <= chars@.len(),
                tail == chars@.skip(start as int),
                comma(tail) == i - start + comma(tail.skip(i - start)),
            decreases chars@.len() - i,
        {
            assert(tail.skip(i - start).skip(1) =~= tail.skip(i + 1 - start));
            i += 1;
        }
        assert(comma(tail) == i - start);
        let item = trimmed_item(&chars, start, i);
        assert(chars@.subrange(start as int, i as int) =~= tail.take(i - start));
        let ghost before = items@;
        if item.unicode_len() > 0 {
            items.push(item);
            assert(texts(items@) =~= texts(before).push(item@));
        }
        assert(texts(items@) =~= texts(before) + nonempty(item@));
        if i == chars.len() {
            assert(texts(items@) =~= listed(chars@));
            return items;
        }
        assert(tail.skip(i - start + 1) =~= chars@.skip(i + 1));
        assert(texts(items@) + listed(chars@.skip(i + 1)) =~= texts(before) + listed(tail));
        start = i + 1;
    }
}

/// Append the items of a list.
fn push_list(list: &mut Vec<String>, value: &str)
    ensures
        texts(final(list)@) == texts(old(list)@) + listed(value@),
{
    let mut items = split_list(value);
    let ghost more = items@;
    list.append(&mut items);
    assert(texts(list@) =~= texts(old(list)@) + texts(more));
}

// --- options --------------------------------------------------------------------

/// Three texts in a row.
fn sentence(a: &str, b: &str, c: &str) -> (s: String)
    ensures
        s@ == a@ + b@ + c@,
{
    let mut s = String::from_str(a);
    s.append(b);
    s.append(c);
    s
}

/// Does the word begin with a dash?
fn is_dashed(arg: &str) -> (dash: bool)
    ensures
        dash == dashed(arg@),
{
    arg.unicode_len() > 0 && arg.get_char(0) == '-'
}

/// Is the word after this option its value?
fn wants_value(arg: &str) -> (wants: bool)
    ensures
        wants == takes_value(arg@),
{
    str_eq(arg, "--policy") || str_eq(arg, "--allow") || str_eq(arg, "--deny") || str_eq(
        arg,
        "--link-schemes",
    ) || str_eq(arg, "--fail-on") || str_eq(arg, "-o") || str_eq(arg, "--output")
}

impl Options {
    /// Leave a flag to the command.
    fn push_flag(&mut self, name: &str, value: Option<String>)
        requires
            flags_ok(old(self).extra@),
            takes_value(name@) ==> value is Some,
        ensures
            flags_ok(final(self).extra@),
            final(self)@ == (OptionsView {
                extra: old(self)@.extra.push(FlagView { name: name@, value: opt_text(value) }),
                ..old(self)@
            }),
    {
        self.extra.push(Flag { name: String::from_str(name), value });
        assert(self@.extra =~= old(self)@.extra.push(
            FlagView { name: name@, value: opt_text(value) },
        ));
    }

    /// Take in an option with its value.
    fn add_value(&mut self, arg: &str, value: &str) -> (result: Result<(), String>)
        requires
            takes_value(arg@),
            flags_ok(old(self).extra@),
        ensures
            flags_ok(final(self).extra@),
            match result {
                Ok(_) => with_value(old(self)@, arg@, value@) == Ok::<OptionsView, Seq<char>>(
                    final(self)@,
                ),
                Err(e) => with_value(old(self)@, arg@, value@) == Err::<OptionsView, Seq<char>>(
                    e@,
                ),
            },
    {
        if str_eq(arg, "--policy") {
            match Preset::from_name(value) {
                Some(preset) => {
                    self.common.preset = preset;
                },
                None => {
                    return Err(sentence("unknown policy '", value, "' (default|strict|plain)"));
                },
            }
        } else if str_eq(arg, "--allow") {
            push_list(&mut self.common.allow, value);
        } else if str_eq(arg, "--deny") {
            push_list(&mut self.common.deny, value);
        } else if str_eq(arg, "--link-schemes") {
            self.common.link_schemes = Some(split_list(value));
        } else {
            self.push_flag(arg, Some(String::from_str(value)));
        }
        Ok(())
    }

    /// Take in a word that has no value after it.
    fn add_word(&mut self, arg: &str) -> (result: Result<(), String>)
        requires
            !takes_value(arg@),
            flags_ok(old(self).extra@),
        ensures
            flags_ok(final(self).extra@),
            match result {
                Ok(_) => with_word(old(self)@, arg@) == Ok::<OptionsView, Seq<char>>(final(self)@),
                Err(e) => with_word(old(self)@, arg@) == Err::<OptionsView, Seq<char>>(e@),
            },
    {
        if str_eq(arg, "--mark") || str_eq(arg, "--summary") || str_eq(arg, "--json") {
            self.push_flag(arg, None);
        } else if is_dashed(arg) && !str_eq(arg, "-") {
            return Err(sentence("unknown option '", arg, "'"));
        } else if self.common.file.is_some() {
            return Err(String::from_str("more than one input file given"));
        } else {
            self.common.file = Some(String::from_str(arg));
        }
        Ok(())
    }
}

/// Extract common options; returns leftover flags for the subcommand.
fn parse_common(args: &[String]) -> (result: Result<Options, String>)
    ensures
        match result {
            Ok(o) => all_options(texts(args@)) == Ok::<OptionsView, Seq<char>>(o@) && flags_ok(
                o.extra@,
            ),
            Err(e) => all_options(texts(args@)) == Err::<OptionsView, Seq<char>>(e@),
        },
{
    let mut o = Options { common: Common::default(), extra: Vec::new() };
    let ghost all = texts(args@);
    let mut i: usize = 0;
    assert(all.skip(0) =~= all);
    assert(o@.extra =~= seq![]);
    while i < args.len()
        invariant
            i <= args@.len(),
            all == texts(args@),
            flags_ok(o.extra@),
            all_options(all) == options(all.skip(i as int), o@),
        decreases args@.len() - i,
    {
        let arg = args[i].as_str();
        let ghost rest = all.skip(i as int);
        assert(rest[0] == arg@);
        if wants_value(arg) {
            if args.len() - i == 1 {
                let mut message = String::from_str(arg);
                message.append(" requires a value");
                return Err(message);
            }
            let value = args[i + 1].as_str();
            assert(rest[1] == value@);
            assert(rest.skip(2) =~= all.skip(i + 2));
            match o.add_value(arg, value) {
                Ok(_) => {},
                Err(e) => {
                    return Err(e);
                },
            }
            i += 2;
        } else {
            assert(rest.skip(1) =~= all.skip(i + 1));
            match o.add_word(arg) {
                Ok(_) => {},
                Err(e) => {
                    return Err(e);
                },
            }
            i += 1;
        }
    }
    assert(all.skip(i as int) =~= seq![]);
    Ok(o)
}

/// Extract the common options of a command that has none of its own.
fn reject_extra(o: Options) -> (result: Result<Common, String>)
    ensures
        match result {
            Ok(common) => o@.extra.len() == 0 && common@ == o@.common,
            Err(e) => o@.extra.len() > 0 && e@ == "option '"@ + o@.extra[0].name
                + "' is not valid for this command"@,
        },
{
    if o.extra.len() > 0 {
        return Err(
            sentence("option '", o.extra[0].name.as_str(), "' is not valid for this command"),
        );
    }
    Ok(o.common)
}

// --- commands -------------------------------------------------------------------

fn parse_clean(args: &[String]) -> (result: Result<Cmd, String>)
    ensures
        match result {
            Ok(cmd) => clean_cmd(texts(args@)) == Ok::<CmdView, Seq<char>>(cmd@),
            Err(e) => clean_cmd(texts(args@)) == Err::<CmdView, Seq<char>>(e@),
        },
{
    let o = match parse_common(args) {
        Ok(o) => o,
        Err(e) => {
            return Err(e);
        },
    };
    let mut mark = false;
    let mut summary = false;
    let mut output: Option<String> = None;
    let ghost flags = flag_views(o.extra@);
    let mut i: usize = 0;
    assert(flags.take(0) =~= seq![]);
    while i < o.extra.len()
        invariant
            i <= o.extra@.len(),
            flags == flag_views(o.extra@),
            all_options(texts(args@)) == Ok::<OptionsView, Seq<char>>(o@),
            clean_flags(flags.take(i as int)) == Ok::<CleanView, Seq<char>>(
                CleanView { mark, summary, output: opt_text(output) },
            ),
        decreases o.extra@.len() - i,
    {
        let flag = &o.extra[i];
        let name = flag.name.as_str();
        assert(flags.take(i + 1).drop_last() =~= flags.take(i as int));
        if str_eq(name, "--mark") {
            mark = true;
        } else if str_eq(name, "--summary") {
            summary = true;
        } else if str_eq(name, "-o") || str_eq(name, "--output") {
            output = match &flag.value {
                Some(value) => Some(value.clone()),
                None => None,
            };
        } else {
            proof {
                lemma_clean_flags_error(flags, i + 1);
            }
            return Err(sentence("option '", name, "' is not valid for clean"));
        }
        i += 1;
    }
    assert(flags.take(i as int) =~= flags);
    Ok(Cmd::Clean { common: o.common, mark, summary, output })
}

fn parse_scan(args: &[String]) -> (result: Result<Cmd, String>)
    ensures
        match result {
            Ok(cmd) => scan_cmd(texts(args@)) == Ok::<CmdView, Seq<char>>(cmd@),
            Err(e) => scan_cmd(texts(args@)) == Err::<CmdView, Seq<char>>(e@),
        },
{
    let o = match parse_common(args) {
        Ok(o) => o,
        Err(e) => {
            return Err(e);
        },
    };
    let mut json = false;
    let mut fail_on = Severity::Critical;
    let ghost flags = flag_views(o.extra@);
    let mut i: usize = 0;
    assert(flags.take(0) =~= seq![]);
    while i < o.extra.len()
        invariant
            i <= o.extra@.len(),
            flags == flag_views(o.extra@),
            flags_ok(o.extra@),
            all_options(texts(args@)) == Ok::<OptionsView, Seq<char>>(o@),
            scan_flags(flags.take(i as int)) == Ok::<ScanView, Seq<char>>(
                ScanView { json, fail_on },
            ),
        decreases o.extra@.len() - i,
    {
        let flag = &o.extra[i];
        let name = flag.name.as_str();
        assert(flags.take(i + 1).drop_last() =~= flags.take(i as int));
        assert(flags.take(i + 1).last() == flag@);
        if str_eq(name, "--json") {
            json = true;
        } else if str_eq(name, "--fail-on") {
            let value = flag.value.as_ref().unwrap().as_str();
            match Severity::from_name(value) {
                Some(severity) => {
                    fail_on = severity;
                },
                None => {
                    proof {
                        lemma_scan_flags_error(flags, i + 1);
                    }
                    return Err(sentence("unknown --fail-on level '", value, "'"));
                },
            }
        } else {
            proof {
                lemma_scan_flags_error(flags, i + 1);
            }
            return Err(sentence("option '", name, "' is not valid for scan"));
        }
        i += 1;
    }
    assert(flags.take(i as int) =~= flags);
    Ok(Cmd::Scan { common: o.common, json, fail_on })
}

/// The first flag that `clean` does not take decides.
proof fn lemma_clean_flags_error(flags: Seq<FlagView>, n: int)
    requires
        0 <= n <= flags.len(),
        clean_flags(flags.take(n)) is Err,
    ensures
        clean_flags(flags) == clean_flags(flags.take(n)),
    decreases flags.len() - n,
{
    if n < flags.len() {
        assert(flags.take(n + 1).drop_last() =~= flags.take(n));
        lemma_clean_flags_error(flags, n + 1);
    } else {
        assert(flags.take(n) =~= flags);
    }
}

/// The first flag that `scan` does not take decides.
proof fn lemma_scan_flags_error(flags: Seq<FlagView>, n: int)
    requires
        0 <= n <= flags.len(),
        scan_flags(flags.take(n)) is Err,
    ensures
        scan_flags(flags) == scan_flags(flags.take(n)),
    decreases flags.len() - n,
{
    if n < flags.len() {
        assert(flags.take(n + 1).drop_last() =~= flags.take(n));
        lemma_scan_flags_error(flags, n + 1);
    } else {
        assert(flags.take(n) =~= flags);
    }
}

/// The common options alone.
fn parse_common_only(args: &[String]) -> (result: Result<Common, String>)
    ensures
        match result {
            Ok(common) => common_only(texts(args@)) == Ok::<CommonView, Seq<char>>(common@),
            Err(e) => common_only(texts(args@)) == Err::<CommonView, Seq<char>>(e@),
        },
{
    match parse_common(args) {
        Ok(o) => reject_extra(o),
        Err(e) => Err(e),
    }
}

fn parse_explain(args: &[String]) -> (result: Result<Cmd, String>)
    ensures
        match result {
            Ok(cmd) => explain_cmd(texts(args@)) == Ok::<CmdView, Seq<char>>(cmd@),
            Err(e) => explain_cmd(texts(args@)) == Err::<CmdView, Seq<char>>(e@),
        },
{
    match parse_common_only(args) {
        Ok(common) => Ok(Cmd::Explain { common }),
        Err(e) => Err(e),
    }
}

fn parse_classes(args: &[String]) -> (result: Result<Cmd, String>)
    ensures
        match result {
            Ok(cmd) => classes_cmd(texts(args@)) == Ok::<CmdView, Seq<char>>(cmd@),
            Err(e) => classes_cmd(texts(args@)) == Err::<CmdView, Seq<char>>(e@),
        },
{
    match parse_common_only(args) {
        Ok(common) => {
            if common.file.is_some() {
                return Err(String::from_str("classes takes no input file"));
            }
            Ok(Cmd::Classes { common })
        },
        Err(e) => Err(e),
    }
}

/// Parse argv (without the program name). `stdin_is_tty` decides what a
/// bare `seqsafe` means: help on a terminal, `clean` in a pipeline.
pub fn parse(args: &[String], stdin_is_tty: bool) -> (result: Result<Cmd, String>)
    ensures
        match result {
            Ok(cmd) => parsed(texts(args@), stdin_is_tty) == Ok::<CmdView, Seq<char>>(cmd@),
            Err(e) => parsed(texts(args@), stdin_is_tty) == Err::<CmdView, Seq<char>>(e@),
        },
{
    if args.len() == 0 {
        assert(texts(args@) =~= seq![]);
        return if stdin_is_tty {
            Ok(Cmd::Help)
        } else {
            parse_clean(args)
        };
    }
    let name = args[0].as_str();
    assert(texts(args@)[0] == name@);
    if str_eq(name, "--help") || str_eq(name, "-h") || str_eq(name, "help") {
        return Ok(Cmd::Help);
    }
    if str_eq(name, "--version") || str_eq(name, "-V") {
        return Ok(Cmd::Version);
    }
    // A leading option (or a bare `-` for stdin) implies `clean`, so
    // `... | seqsafe --policy strict` works as the help promises.
    if is_dashed(name) {
        return parse_clean(args);
    }
    let rest = slice_subrange(args, 1, args.len());
    assert(texts(rest@) =~= texts(args@).skip(1));
    if str_eq(name, "clean") {
        parse_clean(rest)
    } else if str_eq(name, "scan") {
        parse_scan(rest)
    } else if str_eq(name, "explain") {
        parse_explain(rest)
    } else if str_eq(name, "classes") {
        parse_classes(rest)
    } else {
        Err(sentence("unknown command '", name, "' (try `seqsafe help`)"))
    }
}

// --- execution ------------------------------------------------------------------

/// What a command does first.
pub enum Step {
    /// Print this text and be done.
    Print(String),
    /// Feed the input to this sanitizer.
    Read(Sanitizer),
}

/// The line that `--version` prints.
pub fn version_line() -> (line: String)
    ensures
        line@ == "seqsafe "@ + VERSION@ + "\n"@,
{
    sentence("seqsafe ", VERSION, "\n")
}

/// Turn a command into its first step, or into the message on a class name
/// that its policy does not accept.
pub fn prepare(cmd: &Cmd) -> (result: Result<Step, String>)
    ensures
        match cmd@ {
            CmdView::Help => result matches Ok(Step::Print(text)) && text@ == USAGE@,
            CmdView::Version => result matches Ok(Step::Print(text)) && text@ == "seqsafe "@
                + VERSION@ + "\n"@,
            CmdView::Classes { common } => match refine_error(common.allow, common.deny) {
                None => result matches Ok(Step::Print(text)) && text@ == class_table(
                    built_policy(common),
                ),
                Some(e) => result matches Err(message) && message@ == e.message(),
            },
            CmdView::Clean { common, mark, .. } => match refine_error(common.allow, common.deny) {
                None => result matches Ok(Step::Read(s)) && s.wf() && s@ == fresh(
                    built_policy(common),
                    mark,
                ),
                Some(e) => result matches Err(message) && message@ == e.message(),
            },
            CmdView::Scan { common, .. } => match refine_error(common.allow, common.deny) {
                None => result matches Ok(Step::Read(s)) && s.wf() && s@ == fresh(
                    built_policy(common),
                    false,
                ),
                Some(e) => result matches Err(message) && message@ == e.message(),
            },
            CmdView::Explain { common } => match refine_error(common.allow, common.deny) {
                None => result matches Ok(Step::Read(s)) && s.wf() && s@ == fresh(
                    built_policy(common),
                    false,
                ),
                Some(e) => result matches Err(message) && message@ == e.message(),
            },
        },
        match result {
            Ok(Step::Print(text)) => prepared(cmd@) == Ok::<StepView, Seq<char>>(
                StepView::Print(text@),
            ),
            Ok(Step::Read(s)) => prepared(cmd@) == Ok::<StepView, Seq<char>>(StepView::Read(s@)),
            Err(message) => prepared(cmd@) == Err::<StepView, Seq<char>>(message@),
        },
{
    match cmd {
        Cmd::Help => Ok(Step::Print(String::from_str(USAGE))),
        Cmd::Version => Ok(Step::Print(version_line())),
        Cmd::Classes { common } => match common.build_policy() {
            Ok(policy) => Ok(Step::Print(report::render_classes(&policy))),
            Err(e) => Err(e),
        },
        Cmd::Clean { common, mark, .. } => match common.build_policy() {
            Ok(policy) => Ok(Step::Read(Sanitizer::new(policy).with_mark(*mark))),
            Err(e) => Err(e),
        },
        Cmd::Scan { common, .. } => match common.build_policy() {
            Ok(policy) => Ok(Step::Read(Sanitizer::new(policy))),
            Err(e) => Err(e),
        },
        Cmd::Explain { common } => match common.build_policy() {
            Ok(policy) => Ok(Step::Read(Sanitizer::new(policy))),
            Err(e) => Err(e),
        },
    }
}

/// Does a command read its input from standard input?
pub fn reads_stdin(file: &Option<String>) -> (stdin: bool)
    ensures
        stdin == from_stdin(opt_text(*file)),
{
    match file {
        None => true,
        Some(path) => str_eq(path.as_str(), "-"),
    }
}

/// What a command prints after its input, and its exit code.
pub struct Conclusion {
    pub stdout: String,
    pub stderr: String,
    pub code: i32,
}

impl View for Conclusion {
    type V = ConclusionView;

    open spec fn view(&self) -> ConclusionView {
        ConclusionView { stdout: self.stdout@, stderr: self.stderr@, code: self.code as int }
    }
}

/// Conclude a command whose input has been read.
pub fn conclude(cmd: &Cmd, sanitizer: &Sanitizer) -> (conclusion: Conclusion)
    requires
        sanitizer.wf(),
    ensures
        conclusion@ == concluded(cmd@, sanitizer@),
{
    let mut conclusion = Conclusion { stdout: String::new(), stderr: String::new(), code: 0 };
    match cmd {
        Cmd::Clean { summary, .. } => {
            if *summary {
                conclusion.stderr = report::render_summary(sanitizer.summary());
            }
        },
        Cmd::Scan { json, fail_on, .. } => {
            conclusion.stdout =
            if *json {
                report::render_json(sanitizer.findings(), sanitizer.summary())
            } else {
                report::render_human(sanitizer.findings(), sanitizer.summary())
            };
            if sanitizer.max_severity() >= *fail_on {
                conclusion.code = 1;
            }
        },
        Cmd::Explain { .. } => {
            conclusion.stdout =
            report::render_explain(sanitizer.findings(), sanitizer.summary());
        },
        _ => {},
    }
    assert(conclusion@ =~= concluded(cmd@, sanitizer@));
    conclusion
}

/// The exit code of a command: its own, or two where it came to nothing but a
/// message.
pub fn exit_code(result: &Result<i32, String>) -> (code: i32)
    ensures
        code == (match result {
            Ok(code) => *code,
            Err(_) => 2,
        }),
{
    match result {
        Ok(code) => *code,
        Err(_) => 2,
    }
}

} // verus!
