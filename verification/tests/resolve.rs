use nexovia::json::Json;
use nexovia::render::fill_template;
use nexovia::resolve::{needed_files, resolve, resolve_arch_extends, resolve_arch_inline};

fn conv(v: &serde_json::Value) -> Json {
    match v {
        serde_json::Value::Null => Json::Null,
        serde_json::Value::Bool(b) => Json::Bool(*b),
        serde_json::Value::Number(n) => match n.as_i64() {
            Some(i) => Json::Int(i as i128),
            None => Json::Float(n.as_f64().unwrap().to_bits()),
        },
        serde_json::Value::String(s) => Json::Str(s.clone()),
        serde_json::Value::Array(a) => Json::Array(a.iter().map(conv).collect()),
        serde_json::Value::Object(o) => Json::Object(o.iter().map(|(k, v)| (k.clone(), conv(v))).collect()),
    }
}

fn back(j: &Json) -> serde_json::Value {
    match j {
        Json::Null => serde_json::Value::Null,
        Json::Bool(b) => serde_json::Value::Bool(*b),
        Json::Int(i) => serde_json::Value::from(*i as i64),
        Json::Float(b) => serde_json::Value::from(f64::from_bits(*b)),
        Json::Str(s) => serde_json::Value::String(s.clone()),
        Json::Array(a) => serde_json::Value::Array(a.iter().map(back).collect()),
        Json::Object(m) => {
            let mut o = serde_json::Map::new();
            for (k, v) in m {
                if !o.contains_key(k) {
                    o.insert(k.clone(), back(v));
                }
            }
            serde_json::Value::Object(o)
        }
    }
}

fn j(text: &str) -> Json {
    conv(&serde_json::from_str(text).expect("valid JSON"))
}

fn compact(text: &str) -> String {
    serde_json::to_string(&serde_json::from_str::<serde_json::Value>(text).unwrap()).unwrap()
}

fn show(j: &Json) -> String {
    serde_json::to_string(&back(j)).unwrap()
}

#[test]
fn needed_files_in_reading_order() {
    let g = j(r#"{"architecture":{"extends":"base/arch.toml"},
        "include":{"approvals":["a.toml"],"components":["c1.toml","c2.toml"],"policies":["org/p.toml","p.toml"],
                   "delivery":["d1.toml","d2.toml"],"questions":["q.toml", 5]}}"#);
    assert_eq!(
        needed_files(&g),
        vec!["base/arch.toml", "c1.toml", "c2.toml", "org/p.toml", "p.toml", "d1.toml", "q.toml", "a.toml"]
    );
    assert!(needed_files(&j("{}")).is_empty());
}

#[test]
fn missing_fragment_is_reported() {
    let g = j(r#"{"include":{"components":["c1.toml","c2.toml"]}}"#);
    let files = vec![("c1.toml".to_string(), j("{}"))];
    match resolve(&g, &files) {
        Err(rel) => assert_eq!(rel, "c2.toml"),
        Ok(_) => panic!("c2.toml is missing"),
    }
}

#[test]
fn minimal_genome_resolves_to_empty_sections() {
    let out = resolve(&j(r#"{"project":{"name":"P","intent":"  a\n  b   c "}}"#), &vec![]).unwrap();
    assert_eq!(
        show(&out),
        compact(
            r#"{"project":{"name":"P","intent":"a b c"},"architecture":{"layers":{}},"policies":{},
            "policy_includes":[],"components":{},"links":[],"lifecycle":[],"delivery":{},"deployment":{},
            "quality":{},"questions":[],"approvals":[]}"#
        )
    );
}

#[test]
fn composed_genome() {
    let g = j(r#"{
        "project":{"name":"G"},
        "architecture":{"extends":"org/arch.toml","fluid":true,
            "layers":{"core":{"label":"Core!"},"edge":{"label":"Edge","order":9},"io":{"label":"IO"}}},
        "components":{"a":{"label":"A"}},
        "links":[{"from":"a","to":"b"}],
        "lifecycle":[{"kind":"task"}],
        "include":{"components":["comp.toml"],"policies":["org/pol.toml","pol.toml"],"lifecycle":["life.toml"],
                   "delivery":["del.toml"],"deployment":["dep.toml"],"quality":["qual.toml"],
                   "questions":["q.toml"],"approvals":["ap.toml"]}}"#);
    let files = vec![
        ("org/arch.toml".to_string(), j(r#"{"pattern":"layered","dependency_rule":"core-independent",
            "layers":{"core":{"label":"Core","order":1},"io":{"label":"IO","order":2}}}"#)),
        ("comp.toml".to_string(), j(r#"{"components":{"b":{"label":"B"},"a":{"label":"A2"}},"links":[{"from":"b","to":"a"}]}"#)),
        ("org/pol.toml".to_string(), j(r#"{"honesty":{"statement":"s","enforcement":"ci"},"note":"not a table"}"#)),
        ("pol.toml".to_string(), j(r#"{"honesty":{"statement":"s","why":"w"},"speed":{"statement":"fast"}}"#)),
        ("life.toml".to_string(), j(r#"{"item":[{"kind":"epic"}]}"#)),
        ("del.toml".to_string(), j(r#"{"delivery":{"team":"t"},"estimate":[{"weeks":2}]}"#)),
        ("dep.toml".to_string(), j(r#"{"deployment":{"target":"edge"}}"#)),
        ("qual.toml".to_string(), j(r#"{"quality":{"bar":"high"},"gate":[{"name":"lint"}]}"#)),
        ("q.toml".to_string(), j(r#"{"question":[{"id":"q1","target":"a"}]}"#)),
        ("ap.toml".to_string(), j(r#"{"approval":[{"target":"*"}]}"#)),
    ];
    let out = resolve(&g, &files).unwrap_or_else(|rel| panic!("missing {rel}"));
    let expected = r#"{
        "project":{"name":"G"},
        "architecture":{"pattern":"layered","basis":null,"dependency_rule":"core-independent","description":null,
            "extends":"org/arch.toml","fluid":true,
            "layers":{
                "core":{"label":"Core!","order":1,"_ov":["label"],"_src":"override"},
                "io":{"label":"IO","order":2,"_ov":[],"_src":"inherited"},
                "edge":{"label":"Edge","order":9,"_ov":["label","order"],"_src":"local","_added":true}}},
        "policies":{
            "honesty":{"statement":"s","enforcement":"ci","_src":"override","_ov":["why"],"why":"w"},
            "speed":{"statement":"fast","_src":"local","_ov":[]}},
        "policy_includes":["org/pol.toml"],
        "components":{"a":{"label":"A2"},"b":{"label":"B"}},
        "links":[{"from":"a","to":"b"},{"from":"b","to":"a"}],
        "lifecycle":[{"kind":"task"},{"kind":"epic"}],
        "delivery":{"team":"t","estimates":[{"weeks":2}]},
        "deployment":{"target":"edge"},
        "quality":{"bar":"high","budgets":[],"gates":[{"name":"lint"}]},
        "questions":[{"id":"q1","target":"a"}],
        "approvals":[{"target":"*"}]}"#;
    assert_eq!(show(&out), compact(expected));
}

#[test]
fn local_policy_equal_to_base_lists_no_change() {
    let g = j(r#"{"include":{"policies":["org/p.toml","p.toml"]}}"#);
    let files = vec![
        ("org/p.toml".to_string(), j(r#"{"x":{"a":1,"b":[1,2]}}"#)),
        ("p.toml".to_string(), j(r#"{"x":{"b":[1,2]}}"#)),
    ];
    let out = resolve(&g, &files).unwrap_or_else(|_| panic!("ok"));
    let pol = out.get("policies").unwrap();
    assert_eq!(show(pol), compact(r#"{"x":{"a":1,"b":[1,2],"_src":"override","_ov":[]}}"#));
}

#[test]
fn inline_architecture_keeps_its_fields() {
    let arch = j(r#"{"layers":{"a":{"label":"A"},"b":3},"pattern":"outline","description":"d"}"#);
    assert_eq!(
        show(&resolve_arch_inline(&arch)),
        compact(r#"{"pattern":"outline","description":"d","layers":{"a":{"label":"A","_ov":[],"_src":"local"},"b":{"_ov":[],"_src":"local"}}}"#)
    );
}

#[test]
fn extends_without_overrides_inherits_everything() {
    let base = j(r#"{"layers":{"x":{"k":1}},"basis":"b"}"#);
    let arch = j(r#"{"extends":"base.toml"}"#);
    assert_eq!(
        show(&resolve_arch_extends(&base, &arch)),
        compact(r#"{"pattern":null,"basis":"b","dependency_rule":null,"description":null,"extends":"base.toml",
            "fluid":false,"layers":{"x":{"k":1,"_ov":[],"_src":"inherited"}}}"#)
    );
}

#[test]
fn template_placeholder_is_replaced() {
    assert_eq!(fill_template("<a>__GENOME_JSON__</a>__GENOME_JSON__", "{\"x\":1}"), "<a>{\"x\":1}</a>{\"x\":1}");
    assert_eq!(fill_template("____GENOME_JSON__", "{}"), "__{}");
    assert_eq!(fill_template("__GENOME_JSON_ and _GENOME_JSON__", "{}"), "__GENOME_JSON_ and _GENOME_JSON__");
    assert_eq!(fill_template("", "{}"), "");
}

#[test]
fn negative_zero_keeps_its_sign() {
    let neg = (-0.0f64).to_bits();
    let g = Json::Object(vec![(
        "components".to_string(),
        Json::Object(vec![("a".to_string(), Json::Object(vec![("w".to_string(), Json::Float(neg))]))]),
    )]);
    let out = resolve(&g, &vec![]).unwrap_or_else(|_| panic!("ok"));
    match out.get("components").and_then(|c| c.get("a")).and_then(|a| a.get("w")) {
        Some(Json::Float(b)) => assert_eq!(*b, neg),
        _ => panic!("the float is kept"),
    }
    assert!(nexovia::json::json_eq(&Json::Float(neg), &Json::Float(0.0f64.to_bits())));
    assert!(!nexovia::json::json_eq(&Json::Float(neg), &Json::Float(1.0f64.to_bits())));
}
