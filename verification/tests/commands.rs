//! Whole commands, from command line to conclusion, without a process.

use seqsafe::classify::Severity;
use seqsafe::cli::{
    conclude, exit_code, parse, prepare, reads_stdin, version_line, Cmd, Conclusion, Step, USAGE,
};
use seqsafe::policy::{Policy, Preset};
use seqsafe::sanitize::sanitize_bytes;
use seqsafe::VERSION;

/// What a command writes for an input, what it prints, and its exit code.
struct Outcome {
    written: Vec<u8>,
    stdout: String,
    stderr: String,
    code: i32,
}

fn run(args: &[&str], stdin: &[u8]) -> Outcome {
    let argv: Vec<String> = args.iter().map(|s| s.to_string()).collect();
    let failed = |message: String| Outcome {
        written: Vec::new(),
        stdout: String::new(),
        code: exit_code(&Err(message.clone())),
        stderr: message,
    };
    let cmd = match parse(&argv, false) {
        Ok(cmd) => cmd,
        Err(message) => return failed(message),
    };
    match prepare(&cmd) {
        Err(message) => failed(message),
        Ok(Step::Print(text)) => Outcome {
            written: Vec::new(),
            stdout: text,
            stderr: String::new(),
            code: 0,
        },
        Ok(Step::Read(mut sanitizer)) => {
            let mut written = Vec::new();
            sanitizer.feed(stdin, &mut written);
            sanitizer.finish(&mut written);
            let Conclusion { stdout, stderr, code } = conclude(&cmd, &sanitizer);
            Outcome { written, stdout, stderr, code: exit_code(&Ok(code)) }
        }
    }
}

#[test]
fn version_matches_the_manifest() {
    let out = run(&["--version"], b"");
    assert_eq!(out.code, 0);
    assert_eq!(out.stdout.trim(), format!("seqsafe {}", VERSION));
    assert_eq!(version_line(), "seqsafe 0.1.0\n");
}

#[test]
fn help_lists_the_commands() {
    let out = run(&["help"], b"");
    assert_eq!(out.code, 0);
    assert_eq!(out.stdout, USAGE);
    assert!(out.stdout.contains("COMMANDS:"));
    for cmd in ["clean", "scan", "explain", "classes"] {
        assert!(out.stdout.contains(cmd), "help missing {cmd}");
    }
}

#[test]
fn clean_keeps_colors_and_strips_the_attack() {
    let input = b"\x1b[32mok\x1b[0m \x1b]52;c;ZXZpbA==\x07\x1b]0;pwned\x07done\n";
    let out = run(&["clean"], input);
    assert_eq!(out.code, 0);
    assert_eq!(out.written, b"\x1b[32mok\x1b[0m done\n");
}

#[test]
fn bare_invocation_on_a_pipe_cleans_too() {
    let out = run(&[], b"\x1b[31mred\x1b[0m\x1b[2J\n");
    assert_eq!(out.code, 0);
    assert_eq!(out.written, b"\x1b[31mred\x1b[0m\n");
    // Options without a command imply `clean` as well.
    let out = run(&["--policy", "plain"], b"\x1b[31mred\x1b[0m\n");
    assert_eq!(out.code, 0);
    assert_eq!(out.written, b"red\n");
}

#[test]
fn clean_prints_a_summary_when_asked() {
    let out = run(&["clean", "--summary"], b"a\x1b]2;t\x07b\n");
    assert_eq!(out.written, b"ab\n");
    assert_eq!(out.stdout, "");
    assert_eq!(
        out.stderr,
        "1 finding(s): 0 critical, 1 high, 0 medium, 0 low; \
         0 sequence(s) kept, 1 stripped; 9 bytes in, 3 bytes out\n"
    );
    assert_eq!(run(&["clean"], b"a\x1b]2;t\x07b\n").stderr, "");
}

#[test]
fn scan_gates_on_critical_by_default() {
    // Clipboard write is critical: exit 1, JSON names it.
    let out = run(&["scan", "--json"], b"\x1b]52;c;ZXZpbA==\x07");
    assert_eq!(out.code, 1);
    assert!(out.stdout.contains("\"label\": \"clipboard-write\""));
    assert!(out.stdout.contains("\"max_severity\": \"critical\""));
    // A title change is only high: exit 0 by default...
    let out = run(&["scan"], b"\x1b]0;t\x07");
    assert_eq!(out.code, 0);
    // ...and exit 1 when the threshold is lowered.
    let out = run(&["scan", "--fail-on", "high"], b"\x1b]0;t\x07");
    assert_eq!(out.code, 1);
}

#[test]
fn scan_of_clean_input_exits_zero_with_empty_findings() {
    let out = run(&["scan", "--json"], b"\x1b[1mbold\x1b[0m plain\n");
    assert_eq!(out.code, 0);
    assert!(out.stdout.contains("\"findings\": []"));
}

#[test]
fn explain_and_classes_render_reference_text() {
    let out = run(&["explain"], b"\x1b]52;c;eHg=\x07");
    assert_eq!(out.code, 0);
    assert!(out.stdout.contains("why: OSC 52"));
    let out = run(&["classes", "--policy", "strict"], b"");
    assert_eq!(out.code, 0);
    assert!(out.stdout.contains("sgr        keep"));
    assert!(out.stdout.contains("hyperlink  strip"));
    // --allow / --deny refinements show up in the table too.
    let out = run(&["classes", "--allow", "cursor", "--deny", "sgr"], b"");
    assert!(out.stdout.contains("cursor     keep"));
    assert!(out.stdout.contains("sgr        strip"));
}

#[test]
fn usage_errors_exit_two() {
    let out = run(&["scrub"], b"");
    assert_eq!(out.code, 2);
    assert_eq!(out.stderr, "unknown command 'scrub' (try `seqsafe help`)");
    let out = run(&["clean", "--allow", "bogus-class"], b"");
    assert_eq!(out.code, 2);
    assert_eq!(out.stderr, "unknown class 'bogus-class' (see `seqsafe classes`)");
}

fn message(args: &[&str]) -> String {
    let argv: Vec<String> = args.iter().map(|s| s.to_string()).collect();
    parse(&argv, false).unwrap_err()
}

#[test]
fn every_usage_error_has_its_message() {
    assert_eq!(message(&["clean", "--frobnicate"]), "unknown option '--frobnicate'");
    assert_eq!(message(&["clean", "--policy"]), "--policy requires a value");
    assert_eq!(message(&["clean", "--mark", "-o"]), "-o requires a value");
    assert_eq!(
        message(&["clean", "--policy", "paranoid"]),
        "unknown policy 'paranoid' (default|strict|plain)"
    );
    assert_eq!(message(&["clean", "a", "b"]), "more than one input file given");
    assert_eq!(message(&["clean", "--json"]), "option '--json' is not valid for clean");
    assert_eq!(message(&["scan", "--mark"]), "option '--mark' is not valid for scan");
    assert_eq!(
        message(&["scan", "--fail-on", "sky-high"]),
        "unknown --fail-on level 'sky-high'"
    );
    assert_eq!(
        message(&["explain", "--output", "x", "--json"]),
        "option '--output' is not valid for this command"
    );
    assert_eq!(message(&["classes", "somefile"]), "classes takes no input file");
    assert_eq!(
        run(&["clean", "--allow", "malformed"], b"").stderr,
        "class 'malformed' cannot be allowed"
    );
}

#[test]
fn a_command_can_be_left_out_before_options() {
    let lines: [&[&str]; 5] = [
        &["--mark", "in.log"],
        &["-"],
        &["--policy", "plain", "-o", "out"],
        &["--json"],
        &["-x"],
    ];
    for line in lines {
        let short: Vec<String> = line.iter().map(|s| s.to_string()).collect();
        let mut full = vec!["clean".to_string()];
        full.extend(short.iter().cloned());
        for tty in [false, true] {
            assert_eq!(parse(&short, tty), parse(&full, tty), "{line:?}");
        }
    }
}

#[test]
fn lists_are_trimmed_and_empty_items_dropped() {
    let argv: Vec<String> = ["scan", "--allow", " ,\u{3000}mode\t,, c1 ,", "--link-schemes", ","]
        .iter()
        .map(|s| s.to_string())
        .collect();
    match parse(&argv, false).unwrap() {
        Cmd::Scan { common, json, fail_on } => {
            assert_eq!(common.allow, vec!["mode", "c1"]);
            assert_eq!(common.link_schemes, Some(Vec::new()));
            assert!(!json);
            assert_eq!(fail_on, Severity::Critical);
        }
        other => panic!("unexpected {other:?}"),
    }
}

#[test]
fn later_values_replace_earlier_ones() {
    let argv: Vec<String> = ["clean", "-o", "a", "--output", "b", "--policy", "plain", "--policy", "strict"]
        .iter()
        .map(|s| s.to_string())
        .collect();
    match parse(&argv, false).unwrap() {
        Cmd::Clean { common, output, .. } => {
            assert_eq!(output.as_deref(), Some("b"));
            assert_eq!(common.preset.name(), "strict");
        }
        other => panic!("unexpected {other:?}"),
    }
}

#[test]
fn standard_input_is_the_default_and_the_dash() {
    assert!(reads_stdin(&None));
    assert!(reads_stdin(&Some("-".to_string())));
    assert!(!reads_stdin(&Some("in.log".to_string())));
    assert!(!reads_stdin(&Some("--".to_string())));
}

#[test]
fn thresholds_are_inclusive() {
    // A bell is low, a backspace medium, a title high, a clipboard write critical.
    let inputs: [&[u8]; 5] = [b"ok", b"\x07", b"\x08", b"\x1b]0;t\x07", b"\x1b]52;c;x\x07"];
    for (rank, input) in inputs.iter().enumerate() {
        for (bar, level) in ["any", "medium", "high", "critical"].iter().enumerate() {
            let code = run(&["scan", "--fail-on", level], input).code;
            assert_eq!(code == 1, rank > bar, "{level} {input:?}");
        }
    }
}

#[test]
fn a_clean_run_writes_what_sanitizing_returns() {
    let input = b"\x1b[1mB\x1b]52;c;x\x07\xe2\x9b2J\r\n\x1b]0;t\x07end";
    let policy = Policy::preset(Preset::Strict);
    let out = run(&["clean", "--policy", "strict"], input);
    assert_eq!(out.written, sanitize_bytes(input, &policy).0);
    assert_eq!((out.stdout.as_str(), out.stderr.as_str(), out.code), ("", "", 0));
}

#[test]
fn exit_codes_are_those_of_the_command_or_two() {
    assert_eq!(exit_code(&Ok(0)), 0);
    assert_eq!(exit_code(&Ok(1)), 1);
    assert_eq!(exit_code(&Err("no such policy".to_string())), 2);
}
