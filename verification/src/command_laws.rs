//! Command lines word by word: what each further word does to a command that was
//! accepted so far.

use vstd::prelude::*;

use crate::classify::{Class, Severity};
use crate::classify_laws::lemma_class_named;
use crate::cli::USAGE;
use crate::cli_model::{
    all_options, built_policy, classes_cmd, clean_cmd, clean_flags, comma, concluded, explain_cmd,
    from_stdin, listed, no_common, nonempty, options, parsed, prepared, scan_cmd, scan_flags,
    space_char, takes_value, trimmed, trimmed_back, trimmed_front, with_value, with_word, CmdView,
    CommonView, FlagView, OptionsView, StepView,
};
use crate::keeping_laws::lemma_worst_is_highest;
use crate::policy::Preset;
use crate::policy_model::{allow_error, deny_error, preset_policy, refine_error, PolicyErrorView};
use crate::report_model::{class_table, explain_report, human_report, json_report, summary_text};
use crate::sanitize_model::{stored, worst, SanitizerView};

verus! {

// --- words ----------------------------------------------------------------------

proof fn lemma_option_words()
    ensures
        "--policy"@.len() == 8 && "--policy"@[0] == '-' && "--policy"@[2] == 'p',
        "--output"@.len() == 8 && "--output"@[0] == '-' && "--output"@[2] == 'o',
        "--allow"@.len() == 7 && "--allow"@[0] == '-',
        "--deny"@.len() == 6 && "--deny"@[0] == '-' && "--deny"@[2] == 'd',
        "--mark"@.len() == 6 && "--mark"@[0] == '-' && "--mark"@[2] == 'm',
        "--json"@.len() == 6 && "--json"@[0] == '-' && "--json"@[2] == 'j',
        "--link-schemes"@.len() == 14 && "--link-schemes"@[0] == '-',
        "--fail-on"@.len() == 9 && "--fail-on"@[0] == '-' && "--fail-on"@[2] == 'f',
        "--summary"@.len() == 9 && "--summary"@[0] == '-' && "--summary"@[2] == 's',
        "-o"@.len() == 2 && "-o"@[0] == '-',
        "-"@.len() == 1 && "-"@[0] == '-',
{
    reveal_strlit("--policy");
    reveal_strlit("--output");
    reveal_strlit("--allow");
    reveal_strlit("--deny");
    reveal_strlit("--mark");
    reveal_strlit("--json");
    reveal_strlit("--link-schemes");
    reveal_strlit("--fail-on");
    reveal_strlit("--summary");
    reveal_strlit("-o");
    reveal_strlit("-");
}

proof fn lemma_command_words()
    ensures
        "clean"@.len() == 5 && "clean"@[0] == 'c',
        "scan"@.len() == 4 && "scan"@[0] == 's',
        "explain"@.len() == 7 && "explain"@[0] == 'e',
        "classes"@.len() == 7 && "classes"@[0] == 'c',
        "help"@.len() == 4 && "help"@[0] == 'h',
        "--help"@.len() == 6 && "--help"@[0] == '-',
        "-h"@.len() == 2 && "-h"@[0] == '-' && "-h"@[1] == 'h',
        "--version"@.len() == 9 && "--version"@[0] == '-',
        "-V"@.len() == 2 && "-V"@[0] == '-' && "-V"@[1] == 'V',
{
    reveal_strlit("clean");
    reveal_strlit("scan");
    reveal_strlit("explain");
    reveal_strlit("classes");
    reveal_strlit("help");
    reveal_strlit("--help");
    reveal_strlit("-h");
    reveal_strlit("--version");
    reveal_strlit("-V");
}

/// Does the word stand for itself? It does not start with a dash, or it is the
/// dash that means standard input.
pub open spec fn plain_word(w: Seq<char>) -> bool {
    w.len() == 0 || w[0] != '-' || w.len() == 1
}

/// Is this one of the commands that read input?
pub open spec fn reading(word: Seq<char>) -> bool {
    word == "clean"@ || word == "scan"@ || word == "explain"@
}

/// Is this a command that takes options?
pub open spec fn commanding(word: Seq<char>) -> bool {
    reading(word) || word == "classes"@
}

/// The command line of a command and words after it.
pub open spec fn line(word: Seq<char>, args: Seq<Seq<char>>) -> Seq<Seq<char>> {
    seq![word] + args
}

/// The options of a command that all commands share.
pub open spec fn shared(cmd: CmdView) -> CommonView {
    match cmd {
        CmdView::Clean { common, .. } => common,
        CmdView::Scan { common, .. } => common,
        CmdView::Explain { common } => common,
        CmdView::Classes { common } => common,
        _ => no_common(),
    }
}

/// A command with other shared options.
pub open spec fn resharing(cmd: CmdView, common: CommonView) -> CmdView {
    match cmd {
        CmdView::Clean { mark, summary, output, .. } => CmdView::Clean {
            common,
            mark,
            summary,
            output,
        },
        CmdView::Scan { json, fail_on, .. } => CmdView::Scan { common, json, fail_on },
        CmdView::Explain { .. } => CmdView::Explain { common },
        CmdView::Classes { .. } => CmdView::Classes { common },
        _ => cmd,
    }
}

proof fn lemma_line(word: Seq<char>, args: Seq<Seq<char>>, tty: bool)
    requires
        commanding(word),
    ensures
        word == "clean"@ ==> parsed(line(word, args), tty) == clean_cmd(args),
        word == "scan"@ ==> parsed(line(word, args), tty) == scan_cmd(args),
        word == "explain"@ ==> parsed(line(word, args), tty) == explain_cmd(args),
        word == "classes"@ ==> parsed(line(word, args), tty) == classes_cmd(args),
{
    lemma_command_words();
    let all = line(word, args);
    assert(all[0] == word);
    assert(all.skip(1) =~= args);
}

// --- without options --------------------------------------------------------------

/// Commands by themselves: standard input, the default policy without changes,
/// and nothing switched on; a scan fails on critical findings. No word at all is
/// help on a terminal and `clean` elsewhere.
pub proof fn lemma_bare_commands(tty: bool)
    ensures
        ({
            let none = CommonView {
                file: None,
                preset: Preset::Default,
                allow: seq![],
                deny: seq![],
                link_schemes: None,
            };
            let clean = CmdView::Clean { common: none, mark: false, summary: false, output: None };
            &&& parsed(line("clean"@, seq![]), tty) == Ok::<CmdView, Seq<char>>(clean)
            &&& parsed(line("scan"@, seq![]), tty) == Ok::<CmdView, Seq<char>>(
                CmdView::Scan { common: none, json: false, fail_on: Severity::Critical },
            )
            &&& parsed(line("explain"@, seq![]), tty) == Ok::<CmdView, Seq<char>>(
                CmdView::Explain { common: none },
            )
            &&& parsed(line("classes"@, seq![]), tty) == Ok::<CmdView, Seq<char>>(
                CmdView::Classes { common: none },
            )
            &&& parsed(seq![], true) == Ok::<CmdView, Seq<char>>(CmdView::Help)
            &&& parsed(seq![], false) == Ok::<CmdView, Seq<char>>(clean)
        }),
{
    lemma_line("clean"@, seq![], tty);
    lemma_line("scan"@, seq![], tty);
    lemma_line("explain"@, seq![], tty);
    lemma_line("classes"@, seq![], tty);
}

/// The words that ask for help and for the version, whatever follows them, and
/// words that are no command.
pub proof fn lemma_other_words(word: Seq<char>, args: Seq<Seq<char>>, tty: bool)
    ensures
        word == "help"@ || word == "--help"@ || word == "-h"@ ==> parsed(line(word, args), tty)
            == Ok::<CmdView, Seq<char>>(CmdView::Help),
        word == "--version"@ || word == "-V"@ ==> parsed(line(word, args), tty) == Ok::<
            CmdView,
            Seq<char>,
        >(CmdView::Version),
        !commanding(word) && word != "help"@ && !(word.len() > 0 && word[0] == '-') ==> parsed(
            line(word, args),
            tty,
        ) == Err::<CmdView, Seq<char>>("unknown command '"@ + word + "' (try `seqsafe help`)"@),
{
    lemma_command_words();
    assert(line(word, args)[0] == word);
}

// --- one more word ----------------------------------------------------------------

proof fn lemma_options_append(args: Seq<Seq<char>>, more: Seq<Seq<char>>, o: OptionsView)
    requires
        options(args, o) is Ok,
    ensures
        options(args + more, o) == options(more, options(args, o)->Ok_0),
    decreases args.len(),
{
    let all = args + more;
    if args.len() == 0 {
        assert(all =~= more);
    } else if takes_value(args[0]) {
        assert(all[0] == args[0] && all[1] == args[1]);
        assert(all.skip(2) =~= args.skip(2) + more);
        lemma_options_append(args.skip(2), more, with_value(o, args[0], args[1])->Ok_0);
    } else {
        assert(all[0] == args[0]);
        assert(all.skip(1) =~= args.skip(1) + more);
        lemma_options_append(args.skip(1), more, with_word(o, args[0])->Ok_0);
    }
}

/// What the options come to, of a command that is accepted.
proof fn lemma_accepted(word: Seq<char>, args: Seq<Seq<char>>, tty: bool)
    requires
        commanding(word),
        parsed(line(word, args), tty) is Ok,
    ensures
        all_options(args) is Ok,
        ({
            let cmd = parsed(line(word, args), tty)->Ok_0;
            let o = all_options(args)->Ok_0;
            &&& shared(cmd) == o.common
            &&& word == "clean"@ ==> clean_flags(o.extra) is Ok && cmd == CmdView::Clean {
                common: o.common,
                mark: clean_flags(o.extra)->Ok_0.mark,
                summary: clean_flags(o.extra)->Ok_0.summary,
                output: clean_flags(o.extra)->Ok_0.output,
            }
            &&& word == "scan"@ ==> scan_flags(o.extra) is Ok && cmd == CmdView::Scan {
                common: o.common,
                json: scan_flags(o.extra)->Ok_0.json,
                fail_on: scan_flags(o.extra)->Ok_0.fail_on,
            }
            &&& word == "explain"@ ==> o.extra.len() == 0 && cmd == CmdView::Explain {
                common: o.common,
            }
            &&& word == "classes"@ ==> o.extra.len() == 0 && o.common.file is None && cmd
                == CmdView::Classes { common: o.common }
        }),
{
    lemma_line(word, args, tty);
    lemma_command_words();
}

/// The shared options do not depend on the command: where two commands accept the
/// same words, they have the same file, policy, lists and schemes.
pub proof fn lemma_same_options(
    a: Seq<char>,
    b: Seq<char>,
    args: Seq<Seq<char>>,
    tty: bool,
)
    requires
        commanding(a),
        commanding(b),
        parsed(line(a, args), tty) is Ok,
        parsed(line(b, args), tty) is Ok,
    ensures
        shared(parsed(line(a, args), tty)->Ok_0) == shared(parsed(line(b, args), tty)->Ok_0),
{
    lemma_accepted(a, args, tty);
    lemma_accepted(b, args, tty);
}

/// A leading option, or the dash, implies `clean`.
pub proof fn lemma_clean_implied(args: Seq<Seq<char>>, tty: bool)
    requires
        args.len() > 0,
        args[0].len() > 0,
        args[0][0] == '-',
        args[0] != "--help"@ && args[0] != "-h"@ && args[0] != "--version"@ && args[0] != "-V"@,
    ensures
        parsed(args, tty) == parsed(line("clean"@, args), tty),
{
    lemma_line("clean"@, args, tty);
    lemma_command_words();
}

/// A command with one more change of its shared options.
proof fn lemma_reshared(
    word: Seq<char>,
    args: Seq<Seq<char>>,
    more: Seq<Seq<char>>,
    common: CommonView,
    tty: bool,
)
    requires
        commanding(word),
        parsed(line(word, args), tty) is Ok,
        ({
            let o = all_options(args)->Ok_0;
            options(more, o) == Ok::<OptionsView, Seq<char>>(
                OptionsView { common, extra: o.extra },
            )
        }),
        word == "classes"@ ==> common.file is None,
    ensures
        parsed(line(word, args + more), tty) == Ok::<CmdView, Seq<char>>(
            resharing(parsed(line(word, args), tty)->Ok_0, common),
        ),
{
    lemma_accepted(word, args, tty);
    lemma_line(word, args, tty);
    lemma_line(word, args + more, tty);
    lemma_options_append(args, more, OptionsView { common: no_common(), extra: seq![] });
    lemma_command_words();
}

/// A command to which one more word is refused.
proof fn lemma_refused(
    word: Seq<char>,
    args: Seq<Seq<char>>,
    more: Seq<Seq<char>>,
    e: Seq<char>,
    tty: bool,
)
    requires
        commanding(word),
        parsed(line(word, args), tty) is Ok,
        options(more, all_options(args)->Ok_0) == Err::<OptionsView, Seq<char>>(e),
    ensures
        parsed(line(word, args + more), tty) == Err::<CmdView, Seq<char>>(e),
{
    lemma_accepted(word, args, tty);
    lemma_line(word, args + more, tty);
    lemma_options_append(args, more, OptionsView { common: no_common(), extra: seq![] });
    lemma_command_words();
}

/// What one or two more words do to the options.
proof fn lemma_more(o: OptionsView, arg: Seq<char>, value: Seq<char>)
    ensures
        options(seq![arg], o) == if takes_value(arg) {
            Err(arg + " requires a value"@)
        } else {
            with_word(o, arg)
        },
        takes_value(arg) ==> options(seq![arg, value], o) == with_value(o, arg, value),
{
    reveal_with_fuel(options, 2);
    assert(seq![arg].skip(1) =~= seq![]);
    assert(seq![arg, value].skip(2) =~= seq![]);
    assert(seq![arg, value][1] == value);
}

/// A word that is no option names the file, once.
pub proof fn lemma_word_is_file(
    word: Seq<char>,
    args: Seq<Seq<char>>,
    w: Seq<char>,
    tty: bool,
)
    requires
        commanding(word),
        parsed(line(word, args), tty) is Ok,
        plain_word(w),
    ensures
        ({
            let cmd = parsed(line(word, args), tty)->Ok_0;
            let common = shared(cmd);
            parsed(line(word, args + seq![w]), tty) == if word == "classes"@ {
                Err("classes takes no input file"@)
            } else if common.file is None {
                Ok(resharing(cmd, CommonView { file: Some(w), ..common }))
            } else {
                Err("more than one input file given"@)
            }
        }),
{
    lemma_option_words();
    lemma_accepted(word, args, tty);
    lemma_line(word, args, tty);
    lemma_line(word, args + seq![w], tty);
    lemma_command_words();
    let o = all_options(args)->Ok_0;
    lemma_more(o, w, w);
    lemma_options_append(args, seq![w], OptionsView { common: no_common(), extra: seq![] });
    if w.len() == 1 && w[0] == '-' {
        assert(w =~= "-"@);
    }
    if o.common.file is None && word != "classes"@ {
        lemma_reshared(word, args, seq![w], CommonView { file: Some(w), ..o.common }, tty);
    }
}

/// `--policy` chooses the preset by its name.
pub proof fn lemma_policy_option(
    word: Seq<char>,
    args: Seq<Seq<char>>,
    name: Seq<char>,
    tty: bool,
)
    requires
        commanding(word),
        parsed(line(word, args), tty) is Ok,
    ensures
        ({
            let cmd = parsed(line(word, args), tty)->Ok_0;
            let common = shared(cmd);
            let now = parsed(line(word, args + seq!["--policy"@, name]), tty);
            &&& name == "default"@ ==> now == Ok::<CmdView, Seq<char>>(
                resharing(cmd, CommonView { preset: Preset::Default, ..common }),
            )
            &&& name == "strict"@ ==> now == Ok::<CmdView, Seq<char>>(
                resharing(cmd, CommonView { preset: Preset::Strict, ..common }),
            )
            &&& name == "plain"@ ==> now == Ok::<CmdView, Seq<char>>(
                resharing(cmd, CommonView { preset: Preset::Plain, ..common }),
            )
            &&& name != "default"@ && name != "strict"@ && name != "plain"@ ==> now == Err::<
                CmdView,
                Seq<char>,
            >("unknown policy '"@ + name + "' (default|strict|plain)"@)
        }),
{
    reveal_strlit("default");
    reveal_strlit("strict");
    reveal_strlit("plain");
    assert("default"@[0] == 'd' && "strict"@[0] == 's' && "plain"@[0] == 'p');
    lemma_option_words();
    lemma_accepted(word, args, tty);
    let o = all_options(args)->Ok_0;
    let more = seq!["--policy"@, name];
    lemma_more(o, "--policy"@, name);
    match Preset::named(name) {
        Some(preset) => lemma_reshared(word, args, more, CommonView { preset, ..o.common }, tty),
        None => lemma_refused(
            word,
            args,
            more,
            "unknown policy '"@ + name + "' (default|strict|plain)"@,
            tty,
        ),
    }
}

/// `--allow` and `--deny` add the items of their lists, and `--link-schemes`
/// replaces the schemes by the items of its own.
pub proof fn lemma_list_options(
    word: Seq<char>,
    args: Seq<Seq<char>>,
    list: Seq<char>,
    tty: bool,
)
    requires
        commanding(word),
        parsed(line(word, args), tty) is Ok,
    ensures
        ({
            let cmd = parsed(line(word, args), tty)->Ok_0;
            let common = shared(cmd);
            &&& parsed(line(word, args + seq!["--allow"@, list]), tty) == Ok::<CmdView, Seq<char>>(
                resharing(cmd, CommonView { allow: common.allow + listed(list), ..common }),
            )
            &&& parsed(line(word, args + seq!["--deny"@, list]), tty) == Ok::<CmdView, Seq<char>>(
                resharing(cmd, CommonView { deny: common.deny + listed(list), ..common }),
            )
            &&& parsed(line(word, args + seq!["--link-schemes"@, list]), tty) == Ok::<
                CmdView,
                Seq<char>,
            >(resharing(cmd, CommonView { link_schemes: Some(listed(list)), ..common }))
        }),
{
    lemma_option_words();
    lemma_accepted(word, args, tty);
    let o = all_options(args)->Ok_0;
    lemma_more(o, "--allow"@, list);
    lemma_more(o, "--deny"@, list);
    lemma_more(o, "--link-schemes"@, list);
    lemma_reshared(
        word,
        args,
        seq!["--allow"@, list],
        CommonView { allow: o.common.allow + listed(list), ..o.common },
        tty,
    );
    lemma_reshared(
        word,
        args,
        seq!["--deny"@, list],
        CommonView { deny: o.common.deny + listed(list), ..o.common },
        tty,
    );
    lemma_reshared(
        word,
        args,
        seq!["--link-schemes"@, list],
        CommonView { link_schemes: Some(listed(list)), ..o.common },
        tty,
    );
}

/// What a flag after the others means to each command.
proof fn lemma_flagged(
    word: Seq<char>,
    args: Seq<Seq<char>>,
    more: Seq<Seq<char>>,
    flag: FlagView,
    tty: bool,
)
    requires
        commanding(word),
        parsed(line(word, args), tty) is Ok,
        ({
            let o = all_options(args)->Ok_0;
            options(more, o) == Ok::<OptionsView, Seq<char>>(
                OptionsView { common: o.common, extra: o.extra.push(flag) },
            )
        }),
    ensures
        ({
            let o = all_options(args)->Ok_0;
            let now = parsed(line(word, args + more), tty);
            &&& word == "clean"@ ==> now == match clean_flags(o.extra.push(flag)) {
                Ok(c) => Ok::<CmdView, Seq<char>>(
                    CmdView::Clean {
                        common: o.common,
                        mark: c.mark,
                        summary: c.summary,
                        output: c.output,
                    },
                ),
                Err(e) => Err(e),
            }
            &&& word == "scan"@ ==> now == match scan_flags(o.extra.push(flag)) {
                Ok(s) => Ok::<CmdView, Seq<char>>(
                    CmdView::Scan { common: o.common, json: s.json, fail_on: s.fail_on },
                ),
                Err(e) => Err(e),
            }
            &&& word == "explain"@ || word == "classes"@ ==> now == Err::<CmdView, Seq<char>>(
                "option '"@ + flag.name + "' is not valid for this command"@,
            )
            &&& o.extra.push(flag).drop_last() == o.extra
        }),
{
    lemma_accepted(word, args, tty);
    lemma_line(word, args + more, tty);
    lemma_options_append(args, more, OptionsView { common: no_common(), extra: seq![] });
    lemma_command_words();
    let o = all_options(args)->Ok_0;
    assert(o.extra.push(flag).drop_last() =~= o.extra);
    if o.extra.len() == 0 {
        assert(o.extra.push(flag)[0] == flag);
    }
}

/// The message on an option that belongs to another command.
pub open spec fn refusal(cmd: CmdView, name: Seq<char>) -> Result<CmdView, Seq<char>> {
    match cmd {
        CmdView::Clean { .. } => Err("option '"@ + name + "' is not valid for clean"@),
        CmdView::Scan { .. } => Err("option '"@ + name + "' is not valid for scan"@),
        _ => Err("option '"@ + name + "' is not valid for this command"@),
    }
}

/// `--mark`, `--summary`, `-o` and `--output` belong to `clean`: they switch on
/// marking and the summary, and name the output.
pub proof fn lemma_clean_options(
    word: Seq<char>,
    args: Seq<Seq<char>>,
    path: Seq<char>,
    tty: bool,
)
    requires
        commanding(word),
        parsed(line(word, args), tty) is Ok,
    ensures
        ({
            let cmd = parsed(line(word, args), tty)->Ok_0;
            let marked = parsed(line(word, args + seq!["--mark"@]), tty);
            let summed = parsed(line(word, args + seq!["--summary"@]), tty);
            let short = parsed(line(word, args + seq!["-o"@, path]), tty);
            let long = parsed(line(word, args + seq!["--output"@, path]), tty);
            if let CmdView::Clean { common, mark, summary, output } = cmd {
                &&& marked == Ok::<CmdView, Seq<char>>(
                    CmdView::Clean { common, mark: true, summary, output },
                )
                &&& summed == Ok::<CmdView, Seq<char>>(
                    CmdView::Clean { common, mark, summary: true, output },
                )
                &&& short == Ok::<CmdView, Seq<char>>(
                    CmdView::Clean { common, mark, summary, output: Some(path) },
                )
                &&& long == short
            } else {
                &&& marked == refusal(cmd, "--mark"@)
                &&& summed == refusal(cmd, "--summary"@)
                &&& short == refusal(cmd, "-o"@)
                &&& long == refusal(cmd, "--output"@)
            }
        }),
{
    lemma_option_words();
    lemma_command_words();
    lemma_accepted(word, args, tty);
    let o = all_options(args)->Ok_0;
    lemma_more(o, "--mark"@, path);
    lemma_more(o, "--summary"@, path);
    lemma_more(o, "-o"@, path);
    lemma_more(o, "--output"@, path);
    lemma_flagged(word, args, seq!["--mark"@], FlagView { name: "--mark"@, value: None }, tty);
    lemma_flagged(
        word,
        args,
        seq!["--summary"@],
        FlagView { name: "--summary"@, value: None },
        tty,
    );
    lemma_flagged(
        word,
        args,
        seq!["-o"@, path],
        FlagView { name: "-o"@, value: Some(path) },
        tty,
    );
    lemma_flagged(
        word,
        args,
        seq!["--output"@, path],
        FlagView { name: "--output"@, value: Some(path) },
        tty,
    );
}

/// `--json` and `--fail-on` belong to `scan`: they choose the report and the
/// threshold. `any` is the lowest threshold.
pub proof fn lemma_scan_options(
    word: Seq<char>,
    args: Seq<Seq<char>>,
    level: Seq<char>,
    tty: bool,
)
    requires
        commanding(word),
        parsed(line(word, args), tty) is Ok,
    ensures
        ({
            let cmd = parsed(line(word, args), tty)->Ok_0;
            let machine = parsed(line(word, args + seq!["--json"@]), tty);
            let failing = parsed(line(word, args + seq!["--fail-on"@, level]), tty);
            if let CmdView::Scan { common, json, fail_on } = cmd {
                &&& machine == Ok::<CmdView, Seq<char>>(
                    CmdView::Scan { common, json: true, fail_on },
                )
                &&& level == "any"@ || level == "low"@ ==> failing == Ok::<CmdView, Seq<char>>(
                    CmdView::Scan { common, json, fail_on: Severity::Low },
                )
                &&& level == "medium"@ ==> failing == Ok::<CmdView, Seq<char>>(
                    CmdView::Scan { common, json, fail_on: Severity::Medium },
                )
                &&& level == "high"@ ==> failing == Ok::<CmdView, Seq<char>>(
                    CmdView::Scan { common, json, fail_on: Severity::High },
                )
                &&& level == "critical"@ ==> failing == Ok::<CmdView, Seq<char>>(
                    CmdView::Scan { common, json, fail_on: Severity::Critical },
                )
                &&& level != "any"@ && level != "low"@ && level != "medium"@ && level != "high"@
                    && level != "critical"@ ==> failing == Err::<CmdView, Seq<char>>(
                    "unknown --fail-on level '"@ + level + "'"@,
                )
            } else {
                machine == refusal(cmd, "--json"@) && failing == refusal(cmd, "--fail-on"@)
            }
        }),
{
    reveal_strlit("any");
    reveal_strlit("low");
    reveal_strlit("medium");
    reveal_strlit("high");
    reveal_strlit("critical");
    assert("any"@[0] == 'a' && "low"@[0] == 'l' && "medium"@[0] == 'm' && "high"@[0] == 'h'
        && "critical"@[0] == 'c');
    lemma_option_words();
    lemma_command_words();
    lemma_accepted(word, args, tty);
    let o = all_options(args)->Ok_0;
    lemma_more(o, "--json"@, level);
    lemma_more(o, "--fail-on"@, level);
    lemma_flagged(word, args, seq!["--json"@], FlagView { name: "--json"@, value: None }, tty);
    lemma_flagged(
        word,
        args,
        seq!["--fail-on"@, level],
        FlagView { name: "--fail-on"@, value: Some(level) },
        tty,
    );
}

/// Is this an option that needs a value?
pub open spec fn valued(arg: Seq<char>) -> bool {
    ||| arg == "--policy"@ || arg == "--allow"@ || arg == "--deny"@ || arg == "--link-schemes"@
    ||| arg == "--fail-on"@ || arg == "-o"@ || arg == "--output"@
}

/// Is this an option that stands alone?
pub open spec fn lone(arg: Seq<char>) -> bool {
    arg == "--mark"@ || arg == "--summary"@ || arg == "--json"@
}

/// An option that needs a value is refused without one, and so is every other
/// word that starts with a dash and is no option.
pub proof fn lemma_refused_options(
    word: Seq<char>,
    args: Seq<Seq<char>>,
    arg: Seq<char>,
    tty: bool,
)
    requires
        commanding(word),
        parsed(line(word, args), tty) is Ok,
    ensures
        valued(arg) ==> parsed(line(word, args + seq![arg]), tty) == Err::<CmdView, Seq<char>>(
            arg + " requires a value"@,
        ),
        !plain_word(arg) && !valued(arg) && !lone(arg) ==> parsed(
            line(word, args + seq![arg]),
            tty,
        ) == Err::<CmdView, Seq<char>>("unknown option '"@ + arg + "'"@),
{
    lemma_option_words();
    lemma_accepted(word, args, tty);
    let o = all_options(args)->Ok_0;
    lemma_more(o, arg, arg);
    if valued(arg) {
        lemma_refused(word, args, seq![arg], arg + " requires a value"@, tty);
    } else if !plain_word(arg) && !lone(arg) {
        lemma_refused(word, args, seq![arg], "unknown option '"@ + arg + "'"@, tty);
    }
}

/// A word that is refused decides: whatever follows it, its message is the result.
pub proof fn lemma_refusal_is_final(
    word: Seq<char>,
    args: Seq<Seq<char>>,
    arg: Seq<char>,
    more: Seq<Seq<char>>,
    tty: bool,
)
    requires
        commanding(word),
        parsed(line(word, args), tty) is Ok,
    ensures
        !plain_word(arg) && !valued(arg) && !lone(arg) ==> parsed(
            line(word, args + (seq![arg] + more)),
            tty,
        ) == Err::<CmdView, Seq<char>>("unknown option '"@ + arg + "'"@),
        plain_word(arg) && shared(parsed(line(word, args), tty)->Ok_0).file is Some ==> parsed(
            line(word, args + (seq![arg] + more)),
            tty,
        ) == Err::<CmdView, Seq<char>>("more than one input file given"@),
        arg != "default"@ && arg != "strict"@ && arg != "plain"@ ==> parsed(
            line(word, args + (seq!["--policy"@, arg] + more)),
            tty,
        ) == Err::<CmdView, Seq<char>>("unknown policy '"@ + arg + "' (default|strict|plain)"@),
{
    lemma_option_words();
    lemma_accepted(word, args, tty);
    let o = all_options(args)->Ok_0;
    let one = seq![arg] + more;
    let two = seq!["--policy"@, arg] + more;
    assert(one[0] == arg);
    assert(two[0] == "--policy"@ && two[1] == arg);
    if arg.len() == 1 && arg[0] == '-' {
        assert(arg =~= "-"@);
    }
    if !plain_word(arg) && !valued(arg) && !lone(arg) {
        lemma_refused(word, args, one, "unknown option '"@ + arg + "'"@, tty);
    } else if plain_word(arg) && o.common.file is Some {
        lemma_refused(word, args, one, "more than one input file given"@, tty);
    }
    if arg != "default"@ && arg != "strict"@ && arg != "plain"@ {
        lemma_refused(
            word,
            args,
            two,
            "unknown policy '"@ + arg + "' (default|strict|plain)"@,
            tty,
        );
    }
}

// --- the file -----------------------------------------------------------------------

/// The words that are neither an option nor the value of one.
pub open spec fn operands(args: Seq<Seq<char>>) -> Seq<Seq<char>>
    decreases args.len(),
{
    if args.len() == 0 {
        seq![]
    } else if valued(args[0]) {
        if args.len() == 1 {
            seq![]
        } else {
            operands(args.skip(2))
        }
    } else if plain_word(args[0]) {
        seq![args[0]] + operands(args.skip(1))
    } else {
        operands(args.skip(1))
    }
}

/// A command reads the one word that is neither an option nor the value of one, and
/// without such a word it names no file. More than one is refused.
pub proof fn lemma_operand_is_file(word: Seq<char>, args: Seq<Seq<char>>, tty: bool)
    requires
        commanding(word),
        parsed(line(word, args), tty) is Ok,
    ensures
        operands(args).len() <= 1,
        shared(parsed(line(word, args), tty)->Ok_0).file == if operands(args).len() == 0 {
            None
        } else {
            Some(operands(args)[0])
        },
{
    lemma_accepted(word, args, tty);
    lemma_operands(args, OptionsView { common: no_common(), extra: seq![] });
}

proof fn lemma_operands(args: Seq<Seq<char>>, o: OptionsView)
    requires
        options(args, o) is Ok,
    ensures
        ({
            let file = options(args, o)->Ok_0.common.file;
            if operands(args).len() == 0 {
                file == o.common.file
            } else {
                &&& operands(args).len() == 1
                &&& o.common.file is None
                &&& file == Some(operands(args)[0])
            }
        }),
    decreases args.len(),
{
    lemma_option_words();
    if args.len() > 0 {
        let w = args[0];
        if w.len() == 1 && w[0] == '-' {
            assert(w =~= "-"@);
        }
        if takes_value(w) {
            lemma_operands(args.skip(2), with_value(o, w, args[1])->Ok_0);
        } else {
            lemma_operands(args.skip(1), with_word(o, w)->Ok_0);
        }
    }
}

// --- lists ------------------------------------------------------------------------

/// White space, by its code points.
pub open spec fn blank(c: char) -> bool {
    let n = c as int;
    ||| 0x09 <= n <= 0x0D
    ||| n == 0x20 || n == 0x85 || n == 0xA0 || n == 0x1680
    ||| 0x2000 <= n <= 0x200A
    ||| n == 0x2028 || n == 0x2029 || n == 0x202F || n == 0x205F || n == 0x3000
}

/// Is all of `s` white space?
pub open spec fn all_blank(s: Seq<char>) -> bool {
    forall|i: int| 0 <= i < s.len() ==> blank(#[trigger] s[i])
}

proof fn lemma_front_trimmed(pre: Seq<char>, s: Seq<char>)
    requires
        all_blank(pre),
    ensures
        trimmed_front(pre + s) == trimmed_front(s),
    decreases pre.len(),
{
    if pre.len() == 0 {
        assert(pre + s =~= s);
    } else {
        let rest = pre.skip(1);
        assert(blank(pre[0]));
        assert forall|i: int| 0 <= i < rest.len() implies blank(#[trigger] rest[i]) by {
            assert(rest[i] == pre[i + 1]);
        }
        assert((pre + s).skip(1) =~= rest + s);
        lemma_front_trimmed(rest, s);
    }
}

proof fn lemma_back_trimmed(s: Seq<char>, post: Seq<char>)
    requires
        all_blank(post),
    ensures
        trimmed_back(s + post) == trimmed_back(s),
    decreases post.len(),
{
    if post.len() == 0 {
        assert(s + post =~= s);
    } else {
        let rest = post.drop_last();
        assert(blank(post[post.len() - 1]));
        assert forall|i: int| 0 <= i < rest.len() implies blank(#[trigger] rest[i]) by {
            assert(rest[i] == post[i]);
        }
        assert((s + post).drop_last() =~= s + rest);
        lemma_back_trimmed(s, rest);
    }
}

proof fn lemma_no_comma(s: Seq<char>)
    requires
        !s.contains(','),
    ensures
        comma(s) == s.len(),
    decreases s.len(),
{
    if s.len() > 0 {
        assert(s[0] != ',');
        assert forall|i: int| 0 <= i < s.skip(1).len() implies s.skip(1)[i] != ',' by {
            assert(s.skip(1)[i] == s[i + 1]);
        }
        lemma_no_comma(s.skip(1));
    }
}

/// A list of one item gives the item, without the white space around it; white
/// space alone gives nothing.
pub proof fn lemma_listed_item(pre: Seq<char>, item: Seq<char>, post: Seq<char>)
    requires
        all_blank(pre),
        all_blank(post),
        !item.contains(','),
        item.len() > 0 ==> !blank(item[0]) && !blank(item[item.len() - 1]),
    ensures
        listed(pre + item + post) == if item.len() == 0 {
            seq![]
        } else {
            seq![item]
        },
{
    let s = pre + item + post;
    assert(!s.contains(',')) by {
        if s.contains(',') {
            let i = choose|i: int| 0 <= i < s.len() && s[i] == ',';
            if i < pre.len() {
                assert(blank(pre[i]));
            } else if i < pre.len() + item.len() {
                assert(item[i - pre.len()] == ',');
            } else {
                assert(blank(post[i - pre.len() - item.len()]));
            }
        }
    }
    lemma_no_comma(s);
    assert(s.take(s.len() as int) =~= s);
    assert(s =~= pre + (item + post));
    lemma_front_trimmed(pre, item + post);
    if item.len() > 0 {
        assert((item + post)[0] == item[0]);
        assert(!space_char(item[0]));
        assert(trimmed_front(item + post) == item + post);
        lemma_back_trimmed(item, post);
        assert(!space_char(item.last()));
        assert(trimmed(s) == item);
    } else {
        assert(item + post =~= post + Seq::<char>::empty());
        lemma_front_trimmed(post, seq![]);
        assert(trimmed_front(seq![]) =~= seq![]);
        assert(trimmed(s) =~= seq![]);
    }
}

/// Lists come apart at commas.
pub proof fn lemma_listed_parts(a: Seq<char>, b: Seq<char>)
    ensures
        listed(a + seq![','] + b) == listed(a) + listed(b),
    decreases a.len(),
{
    let all = a + seq![','] + b;
    lemma_comma_first(a, b);
    let i = comma(a);
    if i < a.len() {
        let rest = a.skip(i + 1);
        lemma_listed_parts(rest, b);
        assert(all.take(i) =~= a.take(i));
        assert(all.skip(i + 1) =~= rest + seq![','] + b);
        let first = nonempty(trimmed(a.take(i)));
        assert(first + (listed(rest) + listed(b)) =~= first + listed(rest) + listed(b));
    } else {
        assert(all.take(i) =~= a);
        assert(a.take(i) =~= a);
        assert(all.skip(i + 1) =~= b);
    }
}

proof fn lemma_comma_first(a: Seq<char>, b: Seq<char>)
    ensures
        comma(a + seq![','] + b) == comma(a),
        0 <= comma(a) <= a.len(),
        comma(a) < a.len() ==> a[comma(a)] == ',',
    decreases a.len(),
{
    let all = a + seq![','] + b;
    if a.len() == 0 {
        assert(all[0] == ',');
    } else {
        assert(all[0] == a[0]);
        if a[0] != ',' {
            assert(all.skip(1) =~= a.skip(1) + seq![','] + b);
            lemma_comma_first(a.skip(1), b);
        }
    }
}

// --- policies and conclusions -------------------------------------------------------

/// The policy of a command: its preset, with the allowed classes added and the
/// denied ones taken out, and its schemes where it names some.
pub proof fn lemma_built_policy_exactly(common: CommonView, class: Class)
    ensures
        built_policy(common).allowed.contains(class) <==> !common.deny.contains(class.title()) && (
        common.allow.contains(class.title()) || preset_policy(common.preset).allowed.contains(
            class,
        )),
        built_policy(common).link_schemes == match common.link_schemes {
            Some(schemes) => schemes,
            None => preset_policy(common.preset).link_schemes,
        },
        built_policy(common).allow_lone_cr == preset_policy(common.preset).allow_lone_cr,
{
}

/// Is this the name of no class?
pub open spec fn names_nothing(name: Seq<char>) -> bool {
    forall|c: Class| #[trigger] c.title() != name
}

/// May the name be allowed? It is that of a class other than `malformed`.
pub open spec fn allowable(name: Seq<char>) -> bool {
    !names_nothing(name) && name != "malformed"@
}

/// Why one name of an allow list is refused.
pub open spec fn name_error(name: Seq<char>) -> PolicyErrorView {
    if name == "malformed"@ {
        PolicyErrorView::MalformedNotAllowable
    } else {
        PolicyErrorView::UnknownClass(name)
    }
}

/// A refinement is refused for its first bad name: the first that may not be allowed
/// or, where all may, the first denied one that is no class.
pub proof fn lemma_first_bad_name(allow: Seq<Seq<char>>, deny: Seq<Seq<char>>, i: int)
    ensures
        0 <= i < allow.len() && !allowable(allow[i]) && (forall|j: int|
            0 <= j < i ==> allowable(#[trigger] allow[j])) ==> refine_error(allow, deny) == Some(
            name_error(allow[i]),
        ),
        0 <= i < deny.len() && names_nothing(deny[i]) && (forall|j: int|
            0 <= j < i ==> !names_nothing(#[trigger] deny[j])) && (forall|j: int|
            0 <= j < allow.len() ==> allowable(#[trigger] allow[j])) ==> refine_error(allow, deny)
            == Some(PolicyErrorView::UnknownClass(deny[i])),
{
    if 0 <= i < allow.len() && !allowable(allow[i]) && (forall|j: int|
        0 <= j < i ==> allowable(#[trigger] allow[j])) {
        lemma_first_unallowable(allow, i);
    }
    if 0 <= i < deny.len() && names_nothing(deny[i]) && (forall|j: int|
        0 <= j < i ==> !names_nothing(#[trigger] deny[j])) && (forall|j: int|
        0 <= j < allow.len() ==> allowable(#[trigger] allow[j])) {
        lemma_all_allowable(allow);
        lemma_first_unknown(deny, i);
    }
}

proof fn lemma_name(name: Seq<char>)
    ensures
        names_nothing(name) <==> Class::named(name) is None,
        Class::named(name) matches Some(Class::Malformed) <==> name == "malformed"@,
{
    if let Some(c) = Class::named(name) {
        assert(c.title() == name);
    }
    lemma_class_named(Class::Malformed);
    assert(Class::Malformed.title() == "malformed"@);
    if Class::named(name) is None {
        assert forall|c: Class| #[trigger] c.title() != name by {
            lemma_class_named(c);
        }
    }
}

proof fn lemma_all_allowable(names: Seq<Seq<char>>)
    requires
        forall|j: int| 0 <= j < names.len() ==> allowable(#[trigger] names[j]),
    ensures
        allow_error(names) is None,
    decreases names.len(),
{
    if names.len() > 0 {
        let rest = names.drop_first();
        lemma_name(names[0]);
        assert(allowable(names[0]));
        assert forall|j: int| 0 <= j < rest.len() implies allowable(#[trigger] rest[j]) by {
            assert(rest[j] == names[j + 1]);
        }
        lemma_all_allowable(rest);
    }
}

proof fn lemma_first_unallowable(names: Seq<Seq<char>>, i: int)
    requires
        0 <= i < names.len(),
        !allowable(names[i]),
        forall|j: int| 0 <= j < i ==> allowable(#[trigger] names[j]),
    ensures
        allow_error(names) == Some(name_error(names[i])),
    decreases i,
{
    lemma_name(names[0]);
    if i > 0 {
        let rest = names.drop_first();
        assert(allowable(names[0]));
        assert(rest[i - 1] == names[i]);
        assert forall|j: int| 0 <= j < i - 1 implies allowable(#[trigger] rest[j]) by {
            assert(rest[j] == names[j + 1]);
        }
        lemma_first_unallowable(rest, i - 1);
    }
}

proof fn lemma_first_unknown(names: Seq<Seq<char>>, i: int)
    requires
        0 <= i < names.len(),
        names_nothing(names[i]),
        forall|j: int| 0 <= j < i ==> !names_nothing(#[trigger] names[j]),
    ensures
        deny_error(names) == Some(PolicyErrorView::UnknownClass(names[i])),
    decreases i,
{
    lemma_name(names[0]);
    if i > 0 {
        let rest = names.drop_first();
        assert(!names_nothing(names[0]));
        assert(rest[i - 1] == names[i]);
        assert forall|j: int| 0 <= j < i - 1 implies !names_nothing(#[trigger] rest[j]) by {
            assert(rest[j] == names[j + 1]);
        }
        lemma_first_unknown(rest, i - 1);
    }
}

/// What the refusals say.
pub proof fn lemma_refusal_messages(name: Seq<char>)
    ensures
        PolicyErrorView::UnknownClass(name).message() == "unknown class '"@ + name
            + "' (see `seqsafe classes`)"@,
        PolicyErrorView::MalformedNotAllowable.message() == "class 'malformed' cannot be allowed"@,
{
}

/// The first step of a command. Help and version are printed. The other commands are
/// refused for a bad class name, all with the same message, and otherwise run under
/// the policy that is asked for: `classes` prints its table, and the others read,
/// `clean` with its choice of marking and the others without marking.
pub proof fn lemma_first_steps(common: CommonView, cmd: CmdView)
    ensures
        prepared(CmdView::Help) == Ok::<StepView, Seq<char>>(StepView::Print(USAGE@)),
        prepared(CmdView::Version) == Ok::<StepView, Seq<char>>(
            StepView::Print("seqsafe "@ + "0.1.0"@ + "\n"@),
        ),
        !(cmd is Help) && !(cmd is Version) && shared(cmd) == common ==> {
            match refine_error(common.allow, common.deny) {
                Some(e) => prepared(cmd) == Err::<StepView, Seq<char>>(e.message()),
                None => prepared(cmd) == Ok::<StepView, Seq<char>>(
                    if cmd is Classes {
                        StepView::Print(class_table(built_policy(common)))
                    } else {
                        StepView::Read(
                            SanitizerView {
                                policy: built_policy(common),
                                mark: cmd matches CmdView::Clean { mark, .. } && mark,
                                input: seq![],
                                marks: seq![],
                                finished: false,
                            },
                        )
                    },
                ),
            }
        },
{
}

/// Input comes from standard input without a file, or with a dash for one.
pub proof fn lemma_stdin_exactly(file: Option<Seq<char>>)
    ensures
        from_stdin(file) <==> (file is None || (file->0.len() == 1 && file->0[0] == '-')),
{
    reveal_strlit("-");
    if let Some(path) = file {
        if path.len() == 1 && path[0] == '-' {
            assert(path =~= "-"@);
        }
    }
}

/// What commands print once their input is read: a scan its report, as text or
/// as JSON, an explanation its own, and a clean run the summary on the error
/// channel, where it is asked for.
pub proof fn lemma_conclusions(cmd: CmdView, v: SanitizerView)
    ensures
        cmd matches CmdView::Scan { json, .. } ==> {
            &&& concluded(cmd, v).stdout == if json {
                json_report(stored(v.log().findings), v.summary())
            } else {
                human_report(stored(v.log().findings), v.summary())
            }
            &&& concluded(cmd, v).stderr == Seq::<char>::empty()
        },
        cmd is Explain ==> concluded(cmd, v).stdout == explain_report(
            stored(v.log().findings),
            v.summary(),
        ) && concluded(cmd, v).stderr == Seq::<char>::empty() && concluded(cmd, v).code == 0,
        cmd matches CmdView::Clean { summary, .. } ==> concluded(cmd, v).stdout == Seq::<
            char,
        >::empty() && concluded(cmd, v).code == 0 && concluded(cmd, v).stderr == if summary {
            summary_text(v.summary())
        } else {
            seq![]
        },
{
}

/// Is a severity at or above a threshold?
pub open spec fn reaches(severity: Severity, threshold: Severity) -> bool {
    match threshold {
        Severity::Benign => true,
        Severity::Low => !(severity is Benign),
        Severity::Medium => severity is Medium || severity is High || severity is Critical,
        Severity::High => severity is High || severity is Critical,
        Severity::Critical => severity is Critical,
    }
}

/// A scan fails, with code one, exactly when some finding reaches the threshold,
/// whether or not it is stored.
pub proof fn lemma_scan_fails(common: CommonView, json: bool, fail_on: Severity, v: SanitizerView)
    requires
        !(fail_on is Benign),
    ensures
        concluded(CmdView::Scan { common, json, fail_on }, v).code == if exists|k: int|
            0 <= k < v.log().findings.len() && reaches(
                (#[trigger] v.log().findings[k]).severity,
                fail_on,
            ) {
            1int
        } else {
            0int
        },
{
    let findings = v.log().findings;
    lemma_worst_is_highest(findings);
    if worst(findings).rank() >= fail_on.rank() {
        let k = choose|k: int|
            0 <= k < findings.len() && (#[trigger] findings[k]).severity == worst(findings);
        assert(reaches(findings[k].severity, fail_on));
    }
}

} // verus!
