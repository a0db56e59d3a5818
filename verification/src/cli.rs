//! The command line: arguments parsed into a command, and the validation
//! verdict. Owns no business logic — it names what the other modules do.
use vstd::prelude::*;
use crate::ingest::join_words;
use crate::text::{push_char, push_str, push_decimal, decimal, str_eq};
use crate::validate::{Issue, IssueV, Severity, issues_view};
use crate::json::lit;

verus! {

/// A parsed invocation.
#[derive(Debug)]
pub enum Command {
    FromDoc { src: String, out: Option<String> },
    Ask { target: String, text: String, role: String, anchor: String },
    Approve { target: String, role: String, decision: String, note: Option<String>, anchor: String },
    Enrich { path: String },
    Render { path: String },
    Validate { path: String },
}

/// The model of a command.
pub enum CommandV {
    FromDoc { src: Seq<char>, out: Option<Seq<char>> },
    Ask { target: Seq<char>, text: Seq<char>, role: Seq<char>, anchor: Seq<char> },
    Approve {
        target: Seq<char>,
        role: Seq<char>,
        decision: Seq<char>,
        note: Option<Seq<char>>,
        anchor: Seq<char>,
    },
    Enrich { path: Seq<char> },
    Render { path: Seq<char> },
    Validate { path: Seq<char> },
}

pub open spec fn ov(o: Option<String>) -> Option<Seq<char>> {
    match o {
        Some(s) => Some(s@),
        None => None,
    }
}

impl View for Command {
    type V = CommandV;

    open spec fn view(&self) -> CommandV {
        match self {
            Command::FromDoc { src, out } => CommandV::FromDoc { src: src@, out: ov(*out) },
            Command::Ask { target, text, role, anchor } => CommandV::Ask {
                target: target@,
                text: text@,
                role: role@,
                anchor: anchor@,
            },
            Command::Approve { target, role, decision, note, anchor } => CommandV::Approve {
                target: target@,
                role: role@,
                decision: decision@,
                note: ov(*note),
                anchor: anchor@,
            },
            Command::Enrich { path } => CommandV::Enrich { path: path@ },
            Command::Render { path } => CommandV::Render { path: path@ },
            Command::Validate { path } => CommandV::Validate { path: path@ },
        }
    }
}

pub open spec fn args_view(v: Seq<String>) -> Seq<Seq<char>> {
    v.map_values(|s: String| s@)
}

/// The genome anchor used when none is given.
pub open spec fn default_anchor_spec() -> Seq<char> {
    "nexovia.toml"@
}

pub fn default_anchor() -> (r: String)
    ensures
        r@ == default_anchor_spec(),
{
    lit("nexovia.toml")
}

pub open spec fn needs_value(flag: Seq<char>) -> Seq<char> {
    flag + " needs a value"@
}

/// The options of `ask`: positional words, `--role`, `--anchor`.
pub open spec fn ask_loop(rest: Seq<Seq<char>>, pos: Seq<Seq<char>>, role: Seq<char>, anchor: Seq<char>) -> Result<
    (Seq<Seq<char>>, Seq<char>, Seq<char>),
    Seq<char>,
>
    decreases rest.len(),
{
    if rest.len() == 0 {
        Ok((pos, role, anchor))
    } else if rest[0] == "--role"@ {
        if rest.len() < 2 {
            Err(needs_value("--role"@))
        } else {
            ask_loop(rest.skip(2), pos, rest[1], anchor)
        }
    } else if rest[0] == "--anchor"@ {
        if rest.len() < 2 {
            Err(needs_value("--anchor"@))
        } else {
            ask_loop(rest.skip(2), pos, role, rest[1])
        }
    } else {
        ask_loop(rest.skip(1), pos.push(rest[0]), role, anchor)
    }
}

pub struct ApproveOpts {
    pub target: Option<Seq<char>>,
    pub role: Seq<char>,
    pub decision: Option<Seq<char>>,
    pub note: Option<Seq<char>>,
    pub anchor: Seq<char>,
}

/// The options of `approve`: the first positional word is the target (later ones
/// are ignored), `--role`, `--decision`, `--note`, `--anchor`.
pub open spec fn approve_loop(rest: Seq<Seq<char>>, o: ApproveOpts) -> Result<ApproveOpts, Seq<char>>
    decreases rest.len(),
{
    if rest.len() == 0 {
        Ok(o)
    } else if rest[0] == "--role"@ || rest[0] == "--decision"@ || rest[0] == "--note"@ || rest[0]
        == "--anchor"@ {
        if rest.len() < 2 {
            Err(needs_value(rest[0]))
        } else {
            let v = rest[1];
            let o2 = if rest[0] == "--role"@ {
                ApproveOpts { role: v, ..o }
            } else if rest[0] == "--decision"@ {
                ApproveOpts { decision: Some(v), ..o }
            } else if rest[0] == "--note"@ {
                ApproveOpts { note: Some(v), ..o }
            } else {
                ApproveOpts { anchor: v, ..o }
            };
            approve_loop(rest.skip(2), o2)
        }
    } else {
        approve_loop(
            rest.skip(1),
            ApproveOpts { target: if o.target is None { Some(rest[0]) } else { o.target }, ..o },
        )
    }
}

pub open spec fn usage_from_doc() -> Seq<char> {
    "usage: genome from-doc <file.md> [out.toml]"@
}

pub open spec fn usage_ask() -> Seq<char> {
    "usage: genome ask <target> <text> [--role exec|arch|eng] [--anchor nexovia.toml]"@
}

pub open spec fn usage_approve() -> Seq<char> {
    "usage: genome approve <target> --decision <pending|approved|rejected> [--role ...] [--note ...]"@
}

pub open spec fn usage() -> Seq<char> {
    "usage: genome <from-doc|render|validate|ask|approve> …"@
}

/// A subcommand that takes one path.
pub open spec fn path_command(sub: Seq<char>, path: Seq<char>) -> CommandV {
    if sub == "enrich"@ {
        CommandV::Enrich { path }
    } else if sub == "render"@ {
        CommandV::Render { path }
    } else {
        CommandV::Validate { path }
    }
}

pub open spec fn path_usage(sub: Seq<char>) -> Seq<char> {
    if sub == "enrich"@ {
        "usage: genome enrich <genome.toml>"@
    } else if sub == "render"@ {
        "usage: genome render <nexovia.toml>"@
    } else {
        "usage: genome validate <nexovia.toml>"@
    }
}

/// What the command line `args` (without the program name) asks for, or the
/// message it is refused with.
pub open spec fn parse_spec(args: Seq<Seq<char>>) -> Result<CommandV, Seq<char>> {
    if args.len() == 0 {
        Err(usage())
    } else {
        let sub = args[0];
        if sub == "from-doc"@ {
            if args.len() < 2 {
                Err(usage_from_doc())
            } else {
                Ok(
                    CommandV::FromDoc {
                        src: args[1],
                        out: if args.len() >= 3 { Some(args[2]) } else { None },
                    },
                )
            }
        } else if sub == "ask"@ {
            match ask_loop(args.skip(1), Seq::empty(), "eng"@, default_anchor_spec()) {
                Err(e) => Err(e),
                Ok((pos, role, anchor)) => if pos.len() < 2 {
                    Err(usage_ask())
                } else {
                    Ok(CommandV::Ask { target: pos[0], text: join_words(pos.skip(1)), role, anchor })
                },
            }
        } else if sub == "approve"@ {
            match approve_loop(
                args.skip(1),
                ApproveOpts {
                    target: None,
                    role: "arch"@,
                    decision: None,
                    note: None,
                    anchor: default_anchor_spec(),
                },
            ) {
                Err(e) => Err(e),
                Ok(o) => match o.target {
                    None => Err(usage_approve()),
                    Some(t) => match o.decision {
                        None => Err("genome approve needs --decision"@),
                        Some(d) => Ok(
                            CommandV::Approve {
                                target: t,
                                role: o.role,
                                decision: d,
                                note: o.note,
                                anchor: o.anchor,
                            },
                        ),
                    },
                },
            }
        } else if sub == "enrich"@ || sub == "render"@ || sub == "validate"@ {
            if args.len() < 2 {
                Err(path_usage(sub))
            } else {
                Ok(path_command(sub, args[1]))
            }
        } else {
            Err("unknown subcommand: "@ + sub)
        }
    }
}

fn err_lit(s: &str) -> (r: Result<Command, String>)
    ensures
        r matches Err(e) && e@ == s@,
{
    Err(lit(s))
}

fn needs(flag: &str) -> (r: Result<Command, String>)
    ensures
        r matches Err(e) && e@ == needs_value(flag@),
{
    let mut e = lit(flag);
    push_str(&mut e, " needs a value");
    Err(e)
}

/// Joins words with single spaces.
fn join_strings(v: &Vec<String>, from: usize) -> (r: String)
    requires
        from <= v@.len(),
    ensures
        r@ == join_words(args_view(v@).skip(from as int)),
{
    let ghost ws = args_view(v@).skip(from as int);
    let mut out = String::new();
    let mut k: usize = from;
    while k < v.len()
        invariant
            from <= k <= v@.len(),
            ws == args_view(v@).skip(from as int),
            out@ == join_words(ws.take(k - from)),
        decreases v@.len() - k,
    {
        proof {
            assert(ws.take(k - from + 1).drop_last() =~= ws.take(k - from));
        }
        if k > from {
            push_char(&mut out, ' ');
        }
        push_str(&mut out, v[k].as_str());
        k = k + 1;
        proof {
            if k - from > 1 {
                assert(out@ =~= join_words(ws.take(k - from - 1)) + seq![' '] + ws[k - from - 1]);
            } else {
                assert(out@ =~= ws[0]);
            }
        }
    }
    assert(ws.take(k - from) =~= ws);
    out
}

/// Parse the command line (without the program name).
pub fn parse_command(args: &Vec<String>) -> (r: Result<Command, String>)
    ensures
        match r {
            Ok(c) => parse_spec(args_view(args@)) == Ok::<CommandV, Seq<char>>(c@),
            Err(e) => parse_spec(args_view(args@)) == Err::<CommandV, Seq<char>>(e@),
        },
{
    let ghost av = args_view(args@);
    if args.len() == 0 {
        return err_lit("usage: genome <from-doc|render|validate|ask|approve> …");
    }
    let sub = args[0].as_str();
    assert(av[0] == sub@);
    if str_eq(sub, "from-doc") {
        if args.len() < 2 {
            return err_lit("usage: genome from-doc <file.md> [out.toml]");
        }
        let out = if args.len() >= 3 { Some(args[2].clone()) } else { None };
        return Ok(Command::FromDoc { src: args[1].clone(), out });
    }
    if str_eq(sub, "ask") {
        let mut pos: Vec<String> = Vec::new();
        let mut role = lit("eng");
        let mut anchor = default_anchor();
        let mut i: usize = 1;
        proof {
            assert(args_view(pos@) =~= Seq::<Seq<char>>::empty());
        }
        while i < args.len()
            invariant
                1 <= i <= args@.len(),
                av == args_view(args@),
                av[0] == "ask"@,
                av[0] != "from-doc"@,
                ask_loop(av.skip(1), Seq::empty(), "eng"@, default_anchor_spec()) == ask_loop(
                    av.skip(i as int),
                    args_view(pos@),
                    role@,
                    anchor@,
                ),
            decreases args@.len() - i,
        {
            let a = args[i].as_str();
            let ghost rest = av.skip(i as int);
            assert(rest[0] == a@);
            if str_eq(a, "--role") {
                if i + 1 >= args.len() {
                    return needs("--role");
                }
                role = args[i + 1].clone();
                assert(rest.skip(2) =~= av.skip(i + 2));
                i = i + 2;
            } else if str_eq(a, "--anchor") {
                if i + 1 >= args.len() {
                    return needs("--anchor");
                }
                anchor = args[i + 1].clone();
                assert(rest.skip(2) =~= av.skip(i + 2));
                i = i + 2;
            } else {
                let ghost before = pos@;
                pos.push(args[i].clone());
                assert(args_view(pos@) =~= args_view(before).push(a@));
                assert(rest.skip(1) =~= av.skip(i + 1));
                i = i + 1;
            }
        }
        proof {
            assert(av.skip(i as int).len() == 0);
        }
        if pos.len() < 2 {
            return err_lit("usage: genome ask <target> <text> [--role exec|arch|eng] [--anchor nexovia.toml]");
        }
        let text = join_strings(&pos, 1);
        let target = pos[0].clone();
        return Ok(Command::Ask { target, text, role, anchor });
    }
    if str_eq(sub, "approve") {
        let mut target: Option<String> = None;
        let mut role = lit("arch");
        let mut decision: Option<String> = None;
        let mut note: Option<String> = None;
        let mut anchor = default_anchor();
        let mut i: usize = 1;
        while i < args.len()
            invariant
                1 <= i <= args@.len(),
                av == args_view(args@),
                av[0] == "approve"@,
                av[0] != "from-doc"@,
                av[0] != "ask"@,
                approve_loop(
                    av.skip(1),
                    ApproveOpts {
                        target: None,
                        role: "arch"@,
                        decision: None,
                        note: None,
                        anchor: default_anchor_spec(),
                    },
                ) == approve_loop(
                    av.skip(i as int),
                    ApproveOpts {
                        target: ov(target),
                        role: role@,
                        decision: ov(decision),
                        note: ov(note),
                        anchor: anchor@,
                    },
                ),
            decreases args@.len() - i,
        {
            let a = args[i].as_str();
            let ghost rest = av.skip(i as int);
            assert(rest[0] == a@);
            let is_role = str_eq(a, "--role");
            let is_decision = str_eq(a, "--decision");
            let is_note = str_eq(a, "--note");
            let is_anchor = str_eq(a, "--anchor");
            if is_role || is_decision || is_note || is_anchor {
                if i + 1 >= args.len() {
                    let mut e = lit(a);
                    push_str(&mut e, " needs a value");
                    return Err(e);
                }
                let v = args[i + 1].clone();
                if is_role {
                    role = v;
                } else if is_decision {
                    decision = Some(v);
                } else if is_note {
                    note = Some(v);
                } else {
                    anchor = v;
                }
                assert(rest.skip(2) =~= av.skip(i + 2));
                i = i + 2;
            } else {
                if target.is_none() {
                    target = Some(args[i].clone());
                }
                assert(rest.skip(1) =~= av.skip(i + 1));
                i = i + 1;
            }
        }
        proof {
            assert(av.skip(i as int).len() == 0);
        }
        let target = match target {
            Some(t) => t,
            None => {
                return err_lit(
                    "usage: genome approve <target> --decision <pending|approved|rejected> [--role ...] [--note ...]",
                );
            },
        };
        let decision = match decision {
            Some(d) => d,
            None => {
                return err_lit("genome approve needs --decision");
            },
        };
        return Ok(Command::Approve { target, role, decision, note, anchor });
    }
    if str_eq(sub, "enrich") {
        if args.len() < 2 {
            return err_lit("usage: genome enrich <genome.toml>");
        }
        return Ok(Command::Enrich { path: args[1].clone() });
    }
    if str_eq(sub, "render") {
        if args.len() < 2 {
            return err_lit("usage: genome render <nexovia.toml>");
        }
        return Ok(Command::Render { path: args[1].clone() });
    }
    if str_eq(sub, "validate") {
        if args.len() < 2 {
            return err_lit("usage: genome validate <nexovia.toml>");
        }
        return Ok(Command::Validate { path: args[1].clone() });
    }
    let mut e = lit("unknown subcommand: ");
    push_str(&mut e, sub);
    Err(e)
}

// ---------------------------------------------------------------------------
// The validation verdict.
// ---------------------------------------------------------------------------

pub open spec fn error_count(v: Seq<IssueV>) -> nat
    decreases v.len(),
{
    if v.len() == 0 {
        0
    } else {
        error_count(v.drop_last()) + if v.last().severity == Severity::Error { 1nat } else { 0nat }
    }
}

proof fn lemma_error_count_bound(v: Seq<IssueV>)
    ensures
        error_count(v) <= v.len(),
    decreases v.len(),
{
    if v.len() > 0 {
        lemma_error_count_bound(v.drop_last());
    }
}

/// The outcome of `validate`: invalid when any issue is an error (with the counts
/// of errors and warnings), valid otherwise (with the count of warnings).
pub open spec fn verdict_spec(v: Seq<IssueV>) -> Result<Seq<char>, Seq<char>> {
    let e = error_count(v);
    if e > 0 {
        Err("invalid: "@ + decimal(e) + " error(s), "@ + decimal((v.len() - e) as nat) + " warning(s)"@)
    } else {
        Ok("valid ("@ + decimal(v.len()) + " warning(s))"@)
    }
}

/// A genome is reported invalid exactly when some issue is an error.
pub proof fn lemma_invalid_iff_error(v: Seq<IssueV>)
    ensures
        verdict_spec(v) is Err <==> exists|i: int| 0 <= i < v.len() && (#[trigger] v[i]).severity == Severity::Error,
    decreases v.len(),
{
    if v.len() > 0 {
        lemma_invalid_iff_error(v.drop_last());
        if exists|i: int| 0 <= i < v.len() && (#[trigger] v[i]).severity == Severity::Error {
            let i = choose|i: int| 0 <= i < v.len() && (#[trigger] v[i]).severity == Severity::Error;
            if i < v.len() - 1 {
                assert(v.drop_last()[i].severity == Severity::Error);
            }
        }
        if exists|i: int| 0 <= i < v.len() - 1 && (#[trigger] v.drop_last()[i]).severity == Severity::Error {
            let i = choose|i: int| 0 <= i < v.len() - 1 && (#[trigger] v.drop_last()[i]).severity == Severity::Error;
            assert(v[i].severity == Severity::Error);
        }
    }
}

pub fn verdict(issues: &Vec<Issue>) -> (r: Result<String, String>)
    ensures
        match r {
            Ok(m) => verdict_spec(issues_view(issues@)) == Ok::<Seq<char>, Seq<char>>(m@),
            Err(m) => verdict_spec(issues_view(issues@)) == Err::<Seq<char>, Seq<char>>(m@),
        },
        r is Err <==> exists|i: int|
            0 <= i < issues@.len() && (#[trigger] issues@[i]).severity == Severity::Error,
{
    let ghost iv = issues_view(issues@);
    proof {
        lemma_invalid_iff_error(iv);
        if exists|i: int| 0 <= i < issues@.len() && (#[trigger] issues@[i]).severity == Severity::Error {
            let i = choose|i: int| 0 <= i < issues@.len() && (#[trigger] issues@[i]).severity == Severity::Error;
            assert(iv[i].severity == Severity::Error);
        }
        if exists|i: int| 0 <= i < iv.len() && (#[trigger] iv[i]).severity == Severity::Error {
            let i = choose|i: int| 0 <= i < iv.len() && (#[trigger] iv[i]).severity == Severity::Error;
            assert(issues@[i].severity == Severity::Error);
        }
    }
    let mut errors: usize = 0;
    let mut i: usize = 0;
    while i < issues.len()
        invariant
            i <= issues@.len(),
            iv == issues_view(issues@),
            errors == error_count(iv.take(i as int)),
        decreases issues@.len() - i,
    {
        proof {
            assert(iv.take(i + 1).drop_last() =~= iv.take(i as int));
            lemma_error_count_bound(iv.take(i as int));
        }
        if issues[i].severity == Severity::Error {
            errors = errors + 1;
        }
        i = i + 1;
    }
    assert(iv.take(i as int) =~= iv);
    proof {
        lemma_error_count_bound(iv);
    }
    if errors > 0 {
        let mut m = lit("invalid: ");
        push_decimal(&mut m, errors as u128);
        push_str(&mut m, " error(s), ");
        push_decimal(&mut m, (issues.len() - errors) as u128);
        push_str(&mut m, " warning(s)");
        Err(m)
    } else {
        let mut m = lit("valid (");
        push_decimal(&mut m, issues.len() as u128);
        push_str(&mut m, " warning(s))");
        Ok(m)
    }
}

// ---------------------------------------------------------------------------
// Where the anchor comes from.
// ---------------------------------------------------------------------------

proof fn lemma_flags_distinct()
    ensures
        "--anchor"@ != "--role"@,
        "--anchor"@ != "--decision"@,
        "--anchor"@ != "--note"@,
{
    reveal_strlit("--anchor");
    reveal_strlit("--role");
    reveal_strlit("--decision");
    reveal_strlit("--note");
    assert("--anchor"@.len() != "--role"@.len());
    assert("--anchor"@.len() != "--decision"@.len());
    assert("--anchor"@.len() != "--note"@.len());
}

proof fn lemma_approve_anchor_appended(rest: Seq<Seq<char>>, o: ApproveOpts, v: Seq<char>)
    requires
        approve_loop(rest, o) is Ok,
    ensures
        approve_loop(rest + seq!["--anchor"@, v], o) == Ok::<ApproveOpts, Seq<char>>(
            ApproveOpts { anchor: v, ..approve_loop(rest, o)->Ok_0 },
        ),
    decreases rest.len(),
{
    lemma_flags_distinct();
    let tail = seq!["--anchor"@, v];
    let all = rest + tail;
    if rest.len() == 0 {
        assert(all =~= tail);
        assert(tail.skip(2) =~= Seq::<Seq<char>>::empty());
        let o3 = ApproveOpts { anchor: v, ..o };
        assert(approve_loop(tail.skip(2), o3) == Ok::<ApproveOpts, Seq<char>>(o3));
        assert(tail[0] == "--anchor"@ && tail[1] == v);
    } else {
        assert(all[0] == rest[0]);
        if rest[0] == "--role"@ || rest[0] == "--decision"@ || rest[0] == "--note"@ || rest[0] == "--anchor"@ {
            assert(all[1] == rest[1]);
            assert(all.skip(2) =~= rest.skip(2) + tail);
            let x = rest[1];
            let o2 = if rest[0] == "--role"@ {
                ApproveOpts { role: x, ..o }
            } else if rest[0] == "--decision"@ {
                ApproveOpts { decision: Some(x), ..o }
            } else if rest[0] == "--note"@ {
                ApproveOpts { note: Some(x), ..o }
            } else {
                ApproveOpts { anchor: x, ..o }
            };
            lemma_approve_anchor_appended(rest.skip(2), o2, v);
        } else {
            assert(all.skip(1) =~= rest.skip(1) + tail);
            lemma_approve_anchor_appended(
                rest.skip(1),
                ApproveOpts { target: if o.target is None { Some(rest[0]) } else { o.target }, ..o },
                v,
            );
        }
    }
}

proof fn lemma_approve_anchor_kept(rest: Seq<Seq<char>>, o: ApproveOpts)
    requires
        !rest.contains("--anchor"@),
    ensures
        approve_loop(rest, o) matches Ok(r) ==> r.anchor == o.anchor,
    decreases rest.len(),
{
    if rest.len() > 0 {
        assert(rest[0] != "--anchor"@);
        if rest[0] == "--role"@ || rest[0] == "--decision"@ || rest[0] == "--note"@ {
            if rest.len() >= 2 {
                let x = rest[1];
                let o2 = if rest[0] == "--role"@ {
                    ApproveOpts { role: x, ..o }
                } else if rest[0] == "--decision"@ {
                    ApproveOpts { decision: Some(x), ..o }
                } else {
                    ApproveOpts { note: Some(x), ..o }
                };
                assert forall|i: int| 0 <= i < rest.skip(2).len() implies rest.skip(2)[i] != "--anchor"@ by {
                    assert(rest.skip(2)[i] == rest[i + 2]);
                }
                lemma_approve_anchor_kept(rest.skip(2), o2);
            }
        } else {
            assert forall|i: int| 0 <= i < rest.skip(1).len() implies rest.skip(1)[i] != "--anchor"@ by {
                assert(rest.skip(1)[i] == rest[i + 1]);
            }
            lemma_approve_anchor_kept(
                rest.skip(1),
                ApproveOpts { target: if o.target is None { Some(rest[0]) } else { o.target }, ..o },
            );
        }
    }
}

/// `approve` writes to the genome named by `--anchor`: appending `--anchor v`
/// to an accepted command line gives the same command with anchor `v`, and
/// without any `--anchor` the anchor is the default one.
pub proof fn lemma_approve_anchor(rest: Seq<Seq<char>>, v: Seq<char>)
    ensures
        parse_spec(seq!["approve"@] + rest) matches Ok(CommandV::Approve { target, role, decision, note, anchor })
            ==> parse_spec(seq!["approve"@] + rest + seq!["--anchor"@, v]) == Ok::<CommandV, Seq<char>>(
            CommandV::Approve { target, role, decision, note, anchor: v },
        ),
        !rest.contains("--anchor"@) ==> (parse_spec(seq!["approve"@] + rest) matches Ok(
            CommandV::Approve { anchor, .. },
        ) ==> anchor == default_anchor_spec()),
{
    reveal_strlit("approve");
    reveal_strlit("from-doc");
    reveal_strlit("ask");
    let a = seq!["approve"@] + rest;
    let b = seq!["approve"@] + rest + seq!["--anchor"@, v];
    assert(a[0] == "approve"@);
    assert(b[0] == "approve"@);
    assert(a.skip(1) =~= rest);
    assert(b.skip(1) =~= rest + seq!["--anchor"@, v]);
    assert("approve"@ != "from-doc"@ && "approve"@ != "ask"@);
    let o = ApproveOpts { target: None, role: "arch"@, decision: None, note: None, anchor: default_anchor_spec() };
    if approve_loop(rest, o) is Ok {
        lemma_approve_anchor_appended(rest, o, v);
    }
    if !rest.contains("--anchor"@) {
        lemma_approve_anchor_kept(rest, o);
    }
}

proof fn lemma_ask_anchor_appended(rest: Seq<Seq<char>>, pos: Seq<Seq<char>>, role: Seq<char>, anchor: Seq<char>, v: Seq<char>)
    requires
        ask_loop(rest, pos, role, anchor) is Ok,
    ensures
        ({
            let r = ask_loop(rest, pos, role, anchor)->Ok_0;
            ask_loop(rest + seq!["--anchor"@, v], pos, role, anchor) == Ok::<
                (Seq<Seq<char>>, Seq<char>, Seq<char>),
                Seq<char>,
            >((r.0, r.1, v))
        }),
    decreases rest.len(),
{
    lemma_flags_distinct();
    let tail = seq!["--anchor"@, v];
    let all = rest + tail;
    if rest.len() == 0 {
        assert(all =~= tail);
        assert(tail.skip(2) =~= Seq::<Seq<char>>::empty());
        assert(ask_loop(tail.skip(2), pos, role, v) == Ok::<(Seq<Seq<char>>, Seq<char>, Seq<char>), Seq<char>>(
            (pos, role, v),
        ));
        assert(tail[0] == "--anchor"@ && tail[1] == v);
    } else {
        assert(all[0] == rest[0]);
        if rest[0] == "--role"@ {
            assert(all[1] == rest[1]);
            assert(all.skip(2) =~= rest.skip(2) + tail);
            lemma_ask_anchor_appended(rest.skip(2), pos, rest[1], anchor, v);
        } else if rest[0] == "--anchor"@ {
            assert(all[1] == rest[1]);
            assert(all.skip(2) =~= rest.skip(2) + tail);
            lemma_ask_anchor_appended(rest.skip(2), pos, role, rest[1], v);
        } else {
            assert(all.skip(1) =~= rest.skip(1) + tail);
            lemma_ask_anchor_appended(rest.skip(1), pos.push(rest[0]), role, anchor, v);
        }
    }
}

proof fn lemma_ask_anchor_kept(rest: Seq<Seq<char>>, pos: Seq<Seq<char>>, role: Seq<char>, anchor: Seq<char>)
    requires
        !rest.contains("--anchor"@),
    ensures
        ask_loop(rest, pos, role, anchor) matches Ok(r) ==> r.2 == anchor,
    decreases rest.len(),
{
    if rest.len() > 0 {
        assert(rest[0] != "--anchor"@);
        if rest[0] == "--role"@ {
            if rest.len() >= 2 {
                assert forall|i: int| 0 <= i < rest.skip(2).len() implies rest.skip(2)[i] != "--anchor"@ by {
                    assert(rest.skip(2)[i] == rest[i + 2]);
                }
                lemma_ask_anchor_kept(rest.skip(2), pos, rest[1], anchor);
            }
        } else {
            assert forall|i: int| 0 <= i < rest.skip(1).len() implies rest.skip(1)[i] != "--anchor"@ by {
                assert(rest.skip(1)[i] == rest[i + 1]);
            }
            lemma_ask_anchor_kept(rest.skip(1), pos.push(rest[0]), role, anchor);
        }
    }
}

/// `ask` writes to the genome named by `--anchor`: appending `--anchor v` to an
/// accepted command line gives the same question with anchor `v`, and without
/// any `--anchor` the anchor is the default one.
pub proof fn lemma_ask_anchor(rest: Seq<Seq<char>>, v: Seq<char>)
    ensures
        parse_spec(seq!["ask"@] + rest) matches Ok(CommandV::Ask { target, text, role, anchor }) ==> parse_spec(
            seq!["ask"@] + rest + seq!["--anchor"@, v],
        ) == Ok::<CommandV, Seq<char>>(CommandV::Ask { target, text, role, anchor: v }),
        !rest.contains("--anchor"@) ==> (parse_spec(seq!["ask"@] + rest) matches Ok(CommandV::Ask { anchor, .. })
            ==> anchor == default_anchor_spec()),
{
    reveal_strlit("ask");
    reveal_strlit("from-doc");
    let a = seq!["ask"@] + rest;
    let b = seq!["ask"@] + rest + seq!["--anchor"@, v];
    assert(a[0] == "ask"@);
    assert(b[0] == "ask"@);
    assert(a.skip(1) =~= rest);
    assert(b.skip(1) =~= rest + seq!["--anchor"@, v]);
    assert("ask"@.len() != "from-doc"@.len());
    if ask_loop(rest, Seq::empty(), "eng"@, default_anchor_spec()) is Ok {
        lemma_ask_anchor_appended(rest, Seq::empty(), "eng"@, default_anchor_spec(), v);
    }
    if !rest.contains("--anchor"@) {
        lemma_ask_anchor_kept(rest, Seq::empty(), "eng"@, default_anchor_spec());
    }
}

} // verus!
