use nexovia::enrich::{clean, decode_step, empty_why, prompt, Decoding, Produced, Step};
use nexovia::json::Json;

fn conv(v: &serde_json::Value) -> Json {
    match v {
        serde_json::Value::Null => Json::Null,
        serde_json::Value::Bool(b) => Json::Bool(*b),
        serde_json::Value::Number(n) => match n.as_i64() {
            Some(i) => Json::Int(i as i128),
            None => Json::Float(n.as_f64().unwrap().to_bits()),
        },
        serde_json::Value::String(s) => Json::Str(s.clone()),
        serde_json::Value::Array(a) => Json::Array(a.iter().map(conv).collect()),
        serde_json::Value::Object(o) => Json::Object(o.iter().map(|(k, v)| (k.clone(), conv(v))).collect()),
    }
}

fn j(text: &str) -> Json {
    conv(&serde_json::from_str(text).expect("valid JSON"))
}

fn triple(a: &str, b: &str, c: &str) -> (String, String, String) {
    (a.to_string(), b.to_string(), c.to_string())
}

#[test]
fn only_blanks_are_targets() {
    let doc = j(r#"{"components":{
        "a":{"label":"Alpha","summary":"does a"},
        "b":{"summary":"does b","why":"because"},
        "c":{"summary":"does c","why":""},
        "d":{"label":"D"},
        "e":"not a table",
        "f":{"summary":""}}}"#);
    let tables: Vec<String> = ["a", "b", "c", "d", "f"].iter().map(|s| s.to_string()).collect();
    assert_eq!(empty_why(&doc, &tables), vec![triple("a", "Alpha", "does a"), triple("c", "c", "does c")]);
    assert!(empty_why(&j(r#"{"project":{}}"#), &tables).is_empty());
}

#[test]
fn prompt_text() {
    let p = prompt("Genome", "Render", "Turns TOML into HTML.");
    assert!(p.starts_with("<|im_start|>system\nYou explain why a part of a system matters"));
    assert!(p.contains("<|im_start|>user\nProject: Genome\nPart: Render\nWhat it is: Turns TOML into HTML.\n\nWhy does this part matter?"));
    assert!(p.ends_with("<|im_end|>\n<|im_start|>assistant\n"));
}

#[test]
fn clean_answers() {
    assert_eq!(clean("  It keeps   the core\tsmall.  <|im_end|> junk"), "It keeps the core small.");
    assert_eq!(clean("First line.\nSecond line."), "First line.");
    assert_eq!(clean("Project: Genome. It matters."), "Genome. It matters.");
    assert_eq!(clean("Project: ... so it ships."), "... so it ships.");
    assert_eq!(clean("Part: -- It renders the map."), "It renders the map.");
    assert_eq!(clean("Why: 42 Because users read it."), "Because users read it.");
    assert_eq!(clean("Answer:Fast."), "Fast.");
    assert_eq!(clean("Part: Why: nested"), "nested");
    assert_eq!(clean(""), "");
    assert_eq!(clean("<|im_end|>"), "");
    assert_eq!(clean("Projects: not an echo"), "Projects: not an echo");
}

#[test]
fn decoding_steps() {
    let mut st = Decoding { answer: String::new(), pos: 10, limit: 100 };
    assert!(decode_step(&mut st, Produced::Piece("It ".to_string())) == Step::Feed(10));
    assert_eq!((st.answer.as_str(), st.pos), ("It ", 11));
    assert!(decode_step(&mut st, Produced::Piece("works.<|im_".to_string())) == Step::Feed(11));
    assert!(decode_step(&mut st, Produced::Piece("end|>".to_string())) == Step::Stop);
    assert_eq!((st.answer.as_str(), st.pos), ("It works.<|im_end|>", 12));
    let mut st = Decoding { answer: "x".to_string(), pos: 3, limit: 4 };
    assert!(decode_step(&mut st, Produced::End) == Step::Stop);
    assert_eq!((st.answer.as_str(), st.pos, st.limit), ("x", 3, 4));
}

#[test]
fn project_names() {
    assert_eq!(nexovia::enrich::project_name(&j(r#"{"project":{"name":"Genome"}}"#)), "Genome");
    assert_eq!(nexovia::enrich::project_name(&j(r#"{"project":{"name":3}}"#)), "the project");
    assert_eq!(nexovia::enrich::project_name(&j(r#"{"project":"x"}"#)), "the project");
    assert_eq!(nexovia::enrich::project_name(&j("{}")), "the project");
}

#[test]
fn inline_components_are_never_filled() {
    // `[components]` with `a = { summary = "x" }` inline and `[components.b]` a table
    let doc = j(r#"{"components":{"a":{"summary":"x"},"b":{"summary":"y"}}}"#);
    assert_eq!(empty_why(&doc, &vec!["b".to_string()]), vec![triple("b", "b", "y")]);
    // `components = { ... }` inline itself: no component is a table
    assert!(empty_why(&doc, &vec![]).is_empty());
}

#[test]
fn inline_components_in_a_real_document() {
    let text = "[project]\nname = \"G\"\n\n[components]\ninl = { summary = \"inline one\" }\n\n[components.tab]\nsummary = \"a table\"\n";
    let doc: toml_edit::DocumentMut = text.parse().unwrap();
    let tables: Vec<String> = match doc.get("components").and_then(|c| c.as_table()) {
        Some(t) => t.iter().filter(|(_, item)| item.is_table()).map(|(k, _)| k.to_string()).collect(),
        None => Vec::new(),
    };
    let v: serde_json::Value = serde_json::to_value(toml::from_str::<toml::Value>(text).unwrap()).unwrap();
    assert_eq!(empty_why(&conv(&v), &tables), vec![triple("tab", "tab", "a table")]);
}

#[test]
fn echo_stripped_with_given_letters() {
    let v: Vec<char> = "Part: 1x Go".chars().collect();
    // as if only 'G' and 'o' were letters: the '1' and 'x' are noise
    let alpha: Vec<bool> = v.iter().map(|c| *c == 'G' || *c == 'o').collect();
    let r: String = nexovia::enrich::strip_echo_with(v.clone(), "Part:", &alpha).into_iter().collect();
    assert_eq!(r, "Go");
    let r: String = nexovia::enrich::strip_echo_with(v.clone(), "Why:", &alpha).into_iter().collect();
    assert_eq!(r, "Part: 1x Go");
    let dot: Vec<char> = "Why: ..ok".chars().collect();
    let r: String = nexovia::enrich::strip_echo_with(dot.clone(), "Why:", &vec![false; dot.len()]).into_iter().collect();
    assert_eq!(r, "..ok");
}

#[test]
fn cleaned_answers_hold_no_marker() {
    for raw in ["<|im_end|>x", "ok <|im_\nend|> more", "a\n<|im_end|>", "Why: <|im_end|>", "x <|im_ end|>"] {
        let c = clean(raw);
        assert!(!c.contains("<|im_end|>") && !c.contains('\n'), "{raw:?} -> {c:?}");
    }
}
