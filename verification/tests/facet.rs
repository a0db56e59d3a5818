use nexovia::facet::{approve, ask, check_target, count, esc, facet_file, today, FacetError};
use nexovia::json::Json;

fn conv(v: &serde_json::Value) -> Json {
    match v {
        serde_json::Value::Null => Json::Null,
        serde_json::Value::Bool(b) => Json::Bool(*b),
        serde_json::Value::Number(n) => match n.as_i64() {
            Some(i) => Json::Int(i as i128),
            None => Json::Float(n.as_f64().unwrap().to_bits()),
        },
        serde_json::Value::String(s) => Json::Str(s.clone()),
        serde_json::Value::Array(a) => Json::Array(a.iter().map(conv).collect()),
        serde_json::Value::Object(o) => Json::Object(o.iter().map(|(k, v)| (k.clone(), conv(v))).collect()),
    }
}

fn j(text: &str) -> Json {
    conv(&serde_json::from_str(text).expect("valid JSON"))
}

fn embed() -> Json {
    j(r#"{"components":{"render_html":{"label":"Render"},"cli":{}}}"#)
}

fn genome() -> Json {
    j(r#"{"include":{"questions":["facets/questions.toml","other.toml"],"approvals":["facets/approvals.toml"]}}"#)
}

#[test]
fn escapes_quotes_backslashes_and_breaks() {
    assert_eq!(esc("a\"b\\c\nd\re\tf"), "a\\\"b\\\\c d e f");
    assert_eq!(esc("plain"), "plain");
    assert_eq!(esc(""), "");
}

#[test]
fn dates_of_unix_times() {
    assert_eq!(today(0), "1970-01-01");
    assert_eq!(today(86399), "1970-01-01");
    assert_eq!(today(86400), "1970-01-02");
    assert_eq!(today(951782400), "2000-02-29");
    assert_eq!(today(951868800), "2000-03-01");
    assert_eq!(today(1709164800), "2024-02-29");
    assert_eq!(today(4102444800), "2100-01-01");
    assert_eq!(today(253402300799), "9999-12-31");
    assert_eq!(today(253402300800), "10000-01-01");
}

#[test]
fn counts_trimmed_marker_lines() {
    let text = "[[question]]\nid = 1\n  [[question]]  \r\n[[question]] x\n\n[[question]]";
    assert_eq!(count(text, "[[question]]"), 3);
    assert_eq!(count("", "[[question]]"), 0);
    assert_eq!(count("[[approval]]\n", "[[question]]"), 0);
}

#[test]
fn targets() {
    let e = embed();
    assert!(check_target(&e, "*").is_ok());
    assert!(check_target(&e, "cli").is_ok());
    match check_target(&e, "ghost") {
        Err(FacetError::NotAComponent(t)) => assert_eq!(t, "ghost"),
        _ => panic!("ghost is not a component"),
    }
    assert!(check_target(&j("{}"), "*").is_ok());
    assert!(check_target(&j("{}"), "a").is_err());
}

#[test]
fn facet_files() {
    let g = genome();
    assert_eq!(facet_file(&g, "questions").as_deref(), Some("facets/questions.toml"));
    assert_eq!(facet_file(&g, "approvals").as_deref(), Some("facets/approvals.toml"));
    assert_eq!(facet_file(&g, "quality"), None);
    assert_eq!(facet_file(&j(r#"{"include":{"questions":[]}}"#), "questions"), None);
    assert_eq!(facet_file(&j(r#"{"include":{"questions":[3]}}"#), "questions"), None);
}

#[test]
fn ask_composes_the_next_question() {
    let existing = "# questions\n\n[[question]]\nid = \"q1\"\n";
    let (id, a) = ask(&embed(), &genome(), "render_html", "arch", "why \"here\"?\nreally", existing, 951782400)
        .unwrap_or_else(|_| panic!("ask succeeds"));
    assert_eq!(id, "q2");
    assert_eq!(a.file, "facets/questions.toml");
    assert_eq!(
        a.block,
        "\n[[question]]\nid     = \"q2\"\ntarget = \"render_html\"\nrole   = \"arch\"\ntext   = \"why \\\"here\\\"? really\"\nstatus = \"open\"\nby     = \"human\"\nat     = \"2000-02-29\"\n"
    );
}

#[test]
fn ask_ids_run_in_sequence() {
    let mut file = String::new();
    for n in 1..=3 {
        let (id, a) = ask(&embed(), &genome(), "*", "eng", "t", &file, 0).unwrap_or_else(|_| panic!("ok"));
        assert_eq!(id, format!("q{n}"));
        file.push_str(&a.block);
    }
    assert_eq!(count(&file, "[[question]]"), 3);
}

#[test]
fn ask_errors() {
    match ask(&embed(), &genome(), "ghost", "eng", "t", "", 0) {
        Err(FacetError::NotAComponent(t)) => assert_eq!(t, "ghost"),
        _ => panic!("expected NotAComponent"),
    }
    match ask(&embed(), &j("{}"), "*", "eng", "t", "", 0) {
        Err(FacetError::NoFacetFile(f)) => assert_eq!(f, "questions"),
        _ => panic!("expected NoFacetFile"),
    }
    // the target is checked before the file
    assert!(matches!(ask(&embed(), &j("{}"), "ghost", "eng", "t", "", 0), Err(FacetError::NotAComponent(_))));
}

#[test]
fn approve_composes_a_decision() {
    let a = approve(&embed(), &genome(), "*", "arch", "approved", Some("MVP scope looks right"), 0)
        .unwrap_or_else(|_| panic!("approve succeeds"));
    assert_eq!(a.file, "facets/approvals.toml");
    assert_eq!(
        a.block,
        "\n[[approval]]\ntarget   = \"*\"\nrole     = \"arch\"\ndecision = \"approved\"\nnote     = \"MVP scope looks right\"\nby       = \"human\"\nat       = \"1970-01-01\"\n"
    );
    let a = approve(&embed(), &genome(), "cli", "exec", "rejected", None, 86400).unwrap_or_else(|_| panic!("ok"));
    assert_eq!(
        a.block,
        "\n[[approval]]\ntarget   = \"cli\"\nrole     = \"exec\"\ndecision = \"rejected\"\nby       = \"human\"\nat       = \"1970-01-02\"\n"
    );
}

#[test]
fn approve_errors() {
    assert!(matches!(approve(&embed(), &genome(), "nope", "arch", "approved", None, 0), Err(FacetError::NotAComponent(_))));
    match approve(&embed(), &j(r#"{"include":{}}"#), "*", "arch", "approved", None, 0) {
        Err(FacetError::NoFacetFile(f)) => assert_eq!(f, "approvals"),
        _ => panic!("expected NoFacetFile"),
    }
}

#[test]
fn accepted_targets_pass_validation() {
    let e = embed();
    let ids = nexovia::validate::component_ids(&e);
    for t in ["cli", "*", "ghost"] {
        let accepted = ask(&e, &genome(), t, "eng", "x", "", 0).is_ok();
        let item = j(&format!("{{\"id\":\"q1\",\"target\":\"{t}\"}}"));
        let flagged = !nexovia::validate::check_targets(&vec![item], "question", &ids).is_empty();
        assert_eq!(accepted, !flagged, "target {t}");
    }
}

#[test]
fn escaped_values_read_back_through_toml() {
    for s in ["plain", "a \"quoted\" \\ path", "two\nlines\r\nand\ttab", "", "\\\"", "üñï ✓"] {
        let doc = format!("v = \"{}\"\n", esc(s));
        let parsed: toml::Value = toml::from_str(&doc).expect("a TOML basic string");
        let expected = s.replace(['\n', '\r', '\t'], " ");
        assert_eq!(parsed.get("v").and_then(|v| v.as_str()), Some(expected.as_str()), "value {s:?}");
    }
}
