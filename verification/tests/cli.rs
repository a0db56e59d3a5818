use nexovia::cli::{default_anchor, parse_command, verdict, Command};
use nexovia::validate::Issue;

fn args(a: &[&str]) -> Vec<String> {
    a.iter().map(|s| s.to_string()).collect()
}

fn err(a: &[&str]) -> String {
    match parse_command(&args(a)) {
        Err(e) => e,
        Ok(c) => panic!("expected an error, got {c:?}"),
    }
}

#[test]
fn no_subcommand() {
    assert_eq!(err(&[]), "usage: genome <from-doc|render|validate|ask|approve> …");
    assert_eq!(err(&["frobnicate"]), "unknown subcommand: frobnicate");
}

#[test]
fn from_doc_arguments() {
    assert_eq!(err(&["from-doc"]), "usage: genome from-doc <file.md> [out.toml]");
    match parse_command(&args(&["from-doc", "a.md"])).unwrap() {
        Command::FromDoc { src, out } => assert_eq!((src.as_str(), out), ("a.md", None)),
        c => panic!("{c:?}"),
    }
    match parse_command(&args(&["from-doc", "a.md", "g.toml", "extra"])).unwrap() {
        Command::FromDoc { src, out } => assert_eq!((src.as_str(), out.as_deref()), ("a.md", Some("g.toml"))),
        c => panic!("{c:?}"),
    }
}

#[test]
fn ask_arguments() {
    match parse_command(&args(&["ask", "render_html", "why", "is", "this", "--role", "arch", "here?"])).unwrap() {
        Command::Ask { target, text, role, anchor } => {
            assert_eq!(target, "render_html");
            assert_eq!(text, "why is this here?");
            assert_eq!(role, "arch");
            assert_eq!(anchor, "nexovia.toml");
        }
        c => panic!("{c:?}"),
    }
    match parse_command(&args(&["ask", "*", "q", "--anchor", "x/g.toml"])).unwrap() {
        Command::Ask { role, anchor, .. } => assert_eq!((role.as_str(), anchor.as_str()), ("eng", "x/g.toml")),
        c => panic!("{c:?}"),
    }
    assert_eq!(
        err(&["ask", "only-target"]),
        "usage: genome ask <target> <text> [--role exec|arch|eng] [--anchor nexovia.toml]"
    );
    assert_eq!(err(&["ask", "t", "x", "--role"]), "--role needs a value");
    assert_eq!(err(&["ask", "--anchor"]), "--anchor needs a value");
}

#[test]
fn approve_arguments() {
    match parse_command(&args(&["approve", "*", "--role", "arch", "--decision", "approved", "--note", "MVP ok", "ignored"]))
        .unwrap()
    {
        Command::Approve { target, role, decision, note, anchor } => {
            assert_eq!(target, "*");
            assert_eq!(role, "arch");
            assert_eq!(decision, "approved");
            assert_eq!(note.as_deref(), Some("MVP ok"));
            assert_eq!(anchor, "nexovia.toml");
        }
        c => panic!("{c:?}"),
    }
    match parse_command(&args(&["approve", "--decision", "pending", "cli"])).unwrap() {
        Command::Approve { target, role, note, .. } => {
            assert_eq!((target.as_str(), role.as_str(), note), ("cli", "arch", None))
        }
        c => panic!("{c:?}"),
    }
    assert_eq!(
        err(&["approve", "--decision", "approved"]),
        "usage: genome approve <target> --decision <pending|approved|rejected> [--role ...] [--note ...]"
    );
    assert_eq!(err(&["approve", "cli"]), "genome approve needs --decision");
    assert_eq!(err(&["approve", "cli", "--note"]), "--note needs a value");
}

#[test]
fn path_subcommands() {
    assert!(matches!(parse_command(&args(&["render", "g.toml"])).unwrap(), Command::Render { path } if path == "g.toml"));
    assert!(matches!(parse_command(&args(&["validate", "g.toml"])).unwrap(), Command::Validate { path } if path == "g.toml"));
    assert!(matches!(parse_command(&args(&["enrich", "g.toml"])).unwrap(), Command::Enrich { path } if path == "g.toml"));
    assert_eq!(err(&["render"]), "usage: genome render <nexovia.toml>");
    assert_eq!(err(&["validate"]), "usage: genome validate <nexovia.toml>");
    assert_eq!(err(&["enrich"]), "usage: genome enrich <genome.toml>");
}

#[test]
fn default_anchor_name() {
    assert_eq!(default_anchor(), "nexovia.toml");
}

#[test]
fn verdicts() {
    assert_eq!(verdict(&vec![]), Ok("valid (0 warning(s))".to_string()));
    let warns = vec![Issue::warn("w", "a".to_string()), Issue::warn("w", "b".to_string())];
    assert_eq!(verdict(&warns), Ok("valid (2 warning(s))".to_string()));
    let mixed = vec![
        Issue::warn("w", "a".to_string()),
        Issue::error("e", "b".to_string()),
        Issue::error("e", "c".to_string()),
    ];
    assert_eq!(verdict(&mixed), Err("invalid: 2 error(s), 1 warning(s)".to_string()));
}
