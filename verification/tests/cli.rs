//! CLI parsing unit tests: subcommand routing, option validation, and
//! the piped-vs-terminal default behavior.

use seqsafe::classify::Severity;
use seqsafe::cli::{parse, Cmd, Common};
use seqsafe::policy::Preset;

fn argv(args: &[&str]) -> Vec<String> {
    args.iter().map(|s| s.to_string()).collect()
}

#[test]
fn bare_invocation_cleans_when_piped_and_helps_on_a_terminal() {
    assert!(matches!(parse(&[], false), Ok(Cmd::Clean { .. })));
    assert_eq!(parse(&[], true), Ok(Cmd::Help));
    // A leading option implies clean, matching the pipeline promise.
    match parse(&argv(&["--policy", "strict", "--mark"]), false).unwrap() {
        Cmd::Clean { common, mark, .. } => {
            assert_eq!(common.preset, Preset::Strict);
            assert!(mark);
        }
        other => panic!("unexpected {other:?}"),
    }
    // ...and so does a bare `-` (stdin).
    match parse(&argv(&["-"]), false).unwrap() {
        Cmd::Clean { common, .. } => assert_eq!(common.file.as_deref(), Some("-")),
        other => panic!("unexpected {other:?}"),
    }
}

#[test]
fn version_and_help_flags() {
    assert_eq!(parse(&argv(&["--version"]), true), Ok(Cmd::Version));
    assert_eq!(parse(&argv(&["-V"]), true), Ok(Cmd::Version));
    assert_eq!(parse(&argv(&["help"]), true), Ok(Cmd::Help));
    assert_eq!(parse(&argv(&["-h"]), false), Ok(Cmd::Help));
}

#[test]
fn clean_parses_policy_file_and_flags() {
    let cmd = parse(
        &argv(&[
            "clean",
            "in.log",
            "--policy",
            "strict",
            "--mark",
            "--summary",
        ]),
        true,
    )
    .unwrap();
    match cmd {
        Cmd::Clean {
            common,
            mark,
            summary,
            output,
        } => {
            assert_eq!(common.file.as_deref(), Some("in.log"));
            assert_eq!(common.preset, Preset::Strict);
            assert!(mark);
            assert!(summary);
            assert_eq!(output, None);
        }
        other => panic!("unexpected {other:?}"),
    }
}

#[test]
fn allow_and_deny_lists_are_split_and_accumulated() {
    let cmd = parse(
        &argv(&[
            "scan",
            "--allow",
            "cursor, screen",
            "--allow",
            "mode",
            "--deny",
            "hyperlink",
        ]),
        false,
    )
    .unwrap();
    match cmd {
        Cmd::Scan { common, .. } => {
            assert_eq!(common.allow, vec!["cursor", "screen", "mode"]);
            assert_eq!(common.deny, vec!["hyperlink"]);
        }
        other => panic!("unexpected {other:?}"),
    }
}

#[test]
fn scan_fail_on_levels_parse() {
    for (level, sev) in [
        ("low", Severity::Low),
        ("any", Severity::Low),
        ("medium", Severity::Medium),
        ("high", Severity::High),
        ("critical", Severity::Critical),
    ] {
        match parse(&argv(&["scan", "--fail-on", level]), false).unwrap() {
            Cmd::Scan { fail_on, .. } => assert_eq!(fail_on, sev, "{level}"),
            other => panic!("unexpected {other:?}"),
        }
    }
    assert!(parse(&argv(&["scan", "--fail-on", "sky-high"]), false).is_err());
}

#[test]
fn dash_means_stdin() {
    match parse(&argv(&["clean", "-"]), true).unwrap() {
        Cmd::Clean { common, .. } => assert_eq!(common.file.as_deref(), Some("-")),
        other => panic!("unexpected {other:?}"),
    }
}

#[test]
fn unknown_command_option_and_policy_are_errors() {
    assert!(parse(&argv(&["scrub"]), false).is_err());
    assert!(parse(&argv(&["clean", "--frobnicate"]), false).is_err());
    assert!(parse(&argv(&["clean", "--policy", "paranoid"]), false).is_err());
    assert!(parse(&argv(&["clean", "--policy"]), false).is_err());
    assert!(parse(&argv(&["clean", "a", "b"]), false).is_err());
}

#[test]
fn flags_are_rejected_on_the_wrong_subcommand() {
    assert!(parse(&argv(&["scan", "--mark"]), false).is_err());
    assert!(parse(&argv(&["clean", "--json"]), false).is_err());
    assert!(parse(&argv(&["explain", "--fail-on", "high"]), false).is_err());
    assert!(parse(&argv(&["classes", "somefile"]), false).is_err());
    // classes accepts policy options and validates the class names.
    match parse(&argv(&["classes", "--allow", "cursor"]), false).unwrap() {
        Cmd::Classes { common } => {
            assert!(common
                .build_policy()
                .unwrap()
                .allows(seqsafe::classify::Class::Cursor));
        }
        other => panic!("unexpected {other:?}"),
    }
    let cmd = parse(&argv(&["classes", "--allow", "bogus"]), false).unwrap();
    match cmd {
        Cmd::Classes { common } => assert!(common.build_policy().is_err()),
        other => panic!("unexpected {other:?}"),
    }
}

#[test]
fn link_schemes_override_reaches_the_policy() {
    match parse(&argv(&["clean", "--link-schemes", "https"]), false).unwrap() {
        Cmd::Clean { common, .. } => {
            let policy = common.build_policy().unwrap();
            assert!(policy.allows_link(b"https://example.test"));
            assert!(!policy.allows_link(b"http://example.test"));
        }
        other => panic!("unexpected {other:?}"),
    }
}

#[test]
fn build_policy_surfaces_unknown_class_errors() {
    let common = Common {
        allow: vec!["nonsense".into()],
        ..Common::default()
    };
    let err = common.build_policy().unwrap_err();
    assert!(err.contains("unknown class"), "{err}");
}
