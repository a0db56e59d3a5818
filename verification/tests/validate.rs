use nexovia::json::Json;
use nexovia::validate::{
    check_dependency_rule, check_enums, check_honesty, check_links, check_targets, component_ids, validate, Issue,
    Severity,
};

fn conv(v: &serde_json::Value) -> Json {
    match v {
        serde_json::Value::Null => Json::Null,
        serde_json::Value::Bool(b) => Json::Bool(*b),
        serde_json::Value::Number(n) => match n.as_i64() {
            Some(i) => Json::Int(i as i128),
            None => match n.as_u64() {
                Some(u) => Json::Int(u as i128),
                None => Json::Float(n.as_f64().unwrap().to_bits()),
            },
        },
        serde_json::Value::String(s) => Json::Str(s.clone()),
        serde_json::Value::Array(a) => Json::Array(a.iter().map(conv).collect()),
        serde_json::Value::Object(o) => Json::Object(o.iter().map(|(k, v)| (k.clone(), conv(v))).collect()),
    }
}

fn j(text: &str) -> Json {
    conv(&serde_json::from_str(text).expect("valid JSON"))
}

#[test]
fn flags_dangling_link() {
    let e = j(r#"{"components":{"a":{"label":"A"}},
                  "links":[{"from":"a","to":"ghost","relation":"calls"}]}"#);
    assert!(check_links(&e).iter().any(|i| i.message.contains("ghost")));
}

#[test]
fn flags_unknown_enum() {
    let enums = j(r#"{"status":["planned","active"]}"#);
    let e = j(r#"{"components":{"a":{"label":"A","status":"planed"}}}"#);
    assert!(check_enums(&e, &enums).iter().any(|i| i.message.contains("planed")));
}

#[test]
fn flags_missing_provenance() {
    let e = j(r#"{"components":{"a":{"summary":"x","provenance":{}}}}"#);
    assert!(check_honesty(&e).iter().any(|i| i.rule == "require_provenance_on_semantic"));
}

#[test]
fn flags_core_depends_outward() {
    let e = j(r#"{"architecture":{"dependency_rule":"core-independent"},
        "components":{"core":{"layer":"execution"},"db":{"layer":"persistence"}},
        "links":[{"from":"core","to":"db","relation":"depends_on"}]}"#);
    assert_eq!(check_dependency_rule(&e).len(), 1);
}

#[test]
fn targets_must_resolve() {
    let ids = vec!["a".to_string()];
    let items = vec![
        j(r#"{"id":"q1","target":"a"}"#),
        j(r#"{"id":"q2","target":"ghost"}"#),
        j(r#"{"id":"q3","target":"*"}"#),
    ];
    let out = check_targets(&items, "question", &ids);
    assert_eq!(out.len(), 1);
    assert!(out[0].message.contains("ghost"));
}

#[test]
fn dangling_link_messages() {
    let e = j(r#"{"components":{"a":{}},
                  "links":[{"from":"x","to":"y"},{"from":"a","to":"a"},{"to":7}]}"#);
    let out = check_links(&e);
    let msgs: Vec<&str> = out.iter().map(|i| i.message.as_str()).collect();
    assert_eq!(
        msgs,
        vec![
            "link from=\"x\" does not resolve to a component",
            "link to=\"y\" does not resolve to a component",
        ]
    );
    assert!(out.iter().all(|i| i.severity == Severity::Error && i.rule == "forbid_dangling_links"));
}

#[test]
fn honesty_warns_without_provenance_block() {
    let e = j(r#"{"components":{
        "a":{"summary":"s","why":""},
        "b":{"summary":"s","why":"w","provenance":{"summary":{"by":"scan"}}},
        "c":{"why":"w","provenance":{"why":{}}}}}"#);
    let out = check_honesty(&e);
    assert_eq!(out.len(), 2);
    assert_eq!(out[0].severity, Severity::Warn);
    assert_eq!(
        out[0].message,
        "component \"a\": \"summary\" present but the node declares no provenance"
    );
    assert_eq!(out[1].severity, Severity::Error);
    assert_eq!(out[1].message, "component \"b\": semantic field \"why\" has no provenance");
}

#[test]
fn dependency_rule_only_when_declared() {
    let e = j(r#"{"components":{"core":{"layer":"execution"},"ui":{"layer":"surface"}},
        "links":[{"from":"core","to":"ui","relation":"calls"}]}"#);
    assert!(check_dependency_rule(&e).is_empty());
    let e = j(r#"{"architecture":{"dependency_rule":"core-independent"},
        "components":{"core":{"layer":"execution"},"ui":{"layer":"surface"},"lib":{"layer":"execution"}},
        "links":[{"from":"core","to":"ui","relation":"calls"},
                 {"from":"core","to":"ui","relation":"reads"},
                 {"from":"core","to":"lib","relation":"calls"},
                 {"from":"ui","to":"core","relation":"calls"}]}"#);
    let out = check_dependency_rule(&e);
    assert_eq!(out.len(), 1);
    assert_eq!(out[0].rule, "enforce_layer_dependency_rule");
    assert_eq!(
        out[0].message,
        "\"core\" (execution) must not calls \"ui\" (surface) — core stays independent"
    );
}

#[test]
fn enum_checks_cover_project_links_and_lifecycle() {
    let enums = j(r#"{"domain":["tools"],"status":["draft"],"relation":["calls"],"by":["human"],"item_kind":["task"]}"#);
    let e = j(r#"{"project":{"domain":"games","status":"draft","source":"x"},
        "components":{"a":{"status":"draft"}},
        "links":[{"relation":"eats","provenance":{"by":"robot"}}],
        "lifecycle":[{"kind":"epic","status":"draft"}]}"#);
    let msgs: Vec<String> = check_enums(&e, &enums).into_iter().map(|i| i.message).collect();
    assert_eq!(
        msgs,
        vec![
            "project.domain: unknown domain \"games\"",
            "project.source: unknown source \"x\"",
            "link.relation: unknown relation \"eats\"",
            "link.provenance.by: unknown by \"robot\"",
            "lifecycle.kind: unknown item_kind \"epic\"",
        ]
    );
}

#[test]
fn target_message_names_the_item() {
    let items = vec![j(r#"{"target":"nope"}"#), j(r#"{"id":"a1","target":"x"}"#), j(r#"{"id":"a2"}"#)];
    let out = check_targets(&items, "approval", &vec![]);
    let msgs: Vec<&str> = out.iter().map(|i| i.message.as_str()).collect();
    assert_eq!(
        msgs,
        vec![
            "approval \"?\": target \"nope\" does not resolve to a component",
            "approval \"a1\": target \"x\" does not resolve to a component",
        ]
    );
    assert_eq!(out[0].rule, "resolve_facet_targets");
}

#[test]
fn component_ids_in_order() {
    let e = j(r#"{"components":{"b":{},"a":{}}}"#);
    assert_eq!(component_ids(&e), vec!["b", "a"]);
    assert!(component_ids(&j("{}")).is_empty());
}

#[test]
fn validate_runs_every_check_in_order() {
    let e = j(r#"{"architecture":{"dependency_rule":"core-independent"},
        "components":{"core":{"layer":"execution","status":"bogus"},"db":{"layer":"persistence","summary":"s"}},
        "links":[{"from":"core","to":"db","relation":"depends_on"},{"from":"core","to":"gone"}]}"#);
    let schema = j(r#"{"enums":{"status":["draft"],"relation":["depends_on"]}}"#);
    let questions = vec![j(r#"{"question":[{"id":"q1","target":"gone"}]}"#), j(r#"{"other":1}"#)];
    let approvals = vec![j(r#"{"approval":[{"target":"*"}]}"#)];
    let out = validate(&e, Some(&schema), &questions, &approvals);
    let rules: Vec<&str> = out.iter().map(|i| i.rule.as_str()).collect();
    assert_eq!(
        rules,
        vec![
            "forbid_dangling_links",
            "require_provenance_on_semantic",
            "enforce_layer_dependency_rule",
            "require_known_enums",
            "resolve_facet_targets",
        ]
    );
    // without a schema, enums are not checked
    let out = validate(&e, None, &questions, &approvals);
    assert_eq!(out.len(), 4);
}

#[test]
fn issue_lines() {
    let i = Issue::error("r", "m".to_string());
    assert_eq!(i.to_line(), "error [r] m");
    let w = Issue::warn("rule_x", "some text".to_string());
    assert_eq!(w.to_line(), "warn [rule_x] some text");
}
