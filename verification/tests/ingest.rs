use nexovia::ingest::{build_genome, from_doc, sections_from_events, titlecase, MdEvent, Section, SlugSet};
use nexovia::json::Json;

fn at<'a>(j: &'a Json, path: &[&str]) -> &'a Json {
    let mut cur = j;
    for k in path {
        cur = cur.get(k).unwrap_or_else(|| panic!("missing key {k}"));
    }
    cur
}

fn text_at<'a>(j: &'a Json, path: &[&str]) -> &'a str {
    at(j, path).as_str().expect("a string").as_str()
}

fn keys(j: &Json) -> Vec<String> {
    j.as_object().expect("an object").iter().map(|(k, _)| k.clone()).collect()
}

#[test]
fn ingests_headings_and_summaries() {
    // soft line breaks must not glue words together.
    let md = "# Title\n\nFirst para about\nthe project.\n\n## Problem\n\nIt is\nslow.\n\n## Approach\n\nDo it.\n";
    let g = from_doc("doc", md);
    assert_eq!(text_at(&g, &["project", "name"]), "Title");
    assert_eq!(text_at(&g, &["project", "summary"]), "First para about the project.");
    let comps = keys(at(&g, &["components"]));
    assert!(comps.contains(&"problem".to_string()) && comps.contains(&"approach".to_string()));
    assert_eq!(text_at(&g, &["components", "problem", "summary"]), "It is slow.");
    assert_eq!(text_at(&g, &["components", "problem", "provenance", "summary", "by"]), "scan");
}

#[test]
fn h2_become_layers_when_h3_present() {
    let md = "# T\n\n## Part\n\n### Section\n\nBody text.\n";
    let g = from_doc("doc", md);
    assert!(keys(at(&g, &["architecture", "layers"])).contains(&"part".to_string()));
    assert_eq!(text_at(&g, &["components", "section", "layer"]), "part");
}

#[test]
fn project_table_of_a_document() {
    let g = from_doc("doc", "# Name\n\nWhat it is.\n");
    assert_eq!(
        keys(at(&g, &["project"])),
        vec!["name", "kind", "domain", "summary", "source", "schema", "status"]
    );
    assert_eq!(text_at(&g, &["project", "kind"]), "document");
    assert_eq!(text_at(&g, &["project", "schema"]), "nexovia/2");
    assert_eq!(text_at(&g, &["project", "status"]), "draft");
    assert_eq!(keys(&g), vec!["project", "architecture", "components"]);
    assert_eq!(text_at(&g, &["architecture", "pattern"]), "outline");
}

#[test]
fn without_h1_the_stem_names_the_project() {
    let g = from_doc("my-great_doc", "## Only\n\nx\n");
    assert_eq!(text_at(&g, &["project", "name"]), "My Great Doc");
    assert_eq!(text_at(&g, &["project", "summary"]), "—");
}

#[test]
fn outline_layer_when_no_h3() {
    let g = from_doc("doc", "# T\n\n## A\n\n## B\n");
    let layers = at(&g, &["architecture", "layers"]);
    assert_eq!(keys(layers), vec!["outline"]);
    assert_eq!(text_at(layers, &["outline", "label"]), "Outline");
    assert_eq!(text_at(layers, &["outline", "role"]), "The document's sections.");
    match at(layers, &["outline", "order"]) {
        Json::Int(n) => assert_eq!(*n, 1),
        _ => panic!("order is an integer"),
    }
    assert_eq!(text_at(&g, &["components", "a", "layer"]), "outline");
    // a section without a paragraph has no summary and no provenance
    assert!(at(&g, &["components", "b"]).get("summary").is_none());
    assert!(at(&g, &["components", "b"]).get("provenance").is_none());
}

#[test]
fn layer_orders_count_up() {
    let g = from_doc("doc", "# T\n\n## One\n\n### a\n\n## Two\n\nrole two\n\n### b\n");
    let layers = at(&g, &["architecture", "layers"]);
    assert_eq!(keys(layers), vec!["one", "two"]);
    match (at(layers, &["one", "order"]), at(layers, &["two", "order"])) {
        (Json::Int(a), Json::Int(b)) => assert_eq!((*a, *b), (1, 2)),
        _ => panic!("orders are integers"),
    }
    assert_eq!(text_at(layers, &["two", "role"]), "role two");
    assert!(at(layers, &["one"]).get("role").is_none());
    assert_eq!(text_at(&g, &["components", "b", "layer"]), "two");
}

#[test]
fn duplicate_titles_get_numbered_ids() {
    let g = from_doc("doc", "# T\n\n## Setup\n\n## Setup\n\n## Setup\n");
    assert_eq!(keys(at(&g, &["components"])), vec!["setup", "setup_2", "setup_3"]);
}

#[test]
fn slugs() {
    let mut s = SlugSet::new();
    assert_eq!(s.make("Hello, World!"), "hello_world");
    assert_eq!(s.make("Hello World"), "hello_world_2");
    assert_eq!(s.make("!!!"), "section");
    assert_eq!(s.make("?"), "section_2");
    assert_eq!(s.make("a  b"), "a_b");
    assert_eq!(s.make("Ünïcode 9"), "n_code_9");
}

#[test]
fn titlecase_words() {
    assert_eq!(titlecase("hello-world_again now"), "Hello World Again Now");
    assert_eq!(titlecase("--x--"), "X");
    assert_eq!(titlecase(""), "");
    assert_eq!(titlecase("ßtraße"), "SStraße");
}

#[test]
fn inline_markup_is_read_as_text() {
    let g = from_doc("doc", "# T\n\n## Hi *there* `now`\n\nSee **bold**\\\nand more.\n");
    assert_eq!(keys(at(&g, &["components"])), vec!["hi_there_now"]);
    assert_eq!(text_at(&g, &["components", "hi_there_now", "label"]), "Hi there now");
    assert_eq!(text_at(&g, &["components", "hi_there_now", "summary"]), "See bold and more.");
}

fn text(t: &str) -> MdEvent {
    MdEvent::Text(t.to_string())
}

#[test]
fn sections_keep_first_paragraph_only() {
    let ev = vec![
        MdEvent::StartHeading(1),
        text("  A "),
        MdEvent::EndHeading(1),
        MdEvent::StartParagraph,
        text("first"),
        MdEvent::SoftBreak,
        MdEvent::Code("code".to_string()),
        MdEvent::HardBreak,
        text("here "),
        MdEvent::EndParagraph,
        MdEvent::StartParagraph,
        text("second"),
        MdEvent::EndParagraph,
        MdEvent::Other,
        MdEvent::StartHeading(2),
        text("B"),
        MdEvent::EndHeading(2),
        MdEvent::StartParagraph,
        text("   "),
        MdEvent::EndParagraph,
    ];
    let secs = sections_from_events(&ev);
    assert_eq!(secs.len(), 2);
    assert_eq!(secs[0].level, 1);
    assert_eq!(secs[0].title, "A");
    assert_eq!(secs[0].summary.as_deref(), Some("first code here"));
    assert_eq!(secs[1].level, 2);
    assert_eq!(secs[1].title, "B");
    assert_eq!(secs[1].summary, None);
}

#[test]
fn paragraph_before_any_heading_is_ignored() {
    let ev = vec![MdEvent::StartParagraph, text("intro"), MdEvent::EndParagraph];
    assert!(sections_from_events(&ev).is_empty());
    let g = from_doc("doc", "intro\n\n# Name\n");
    assert_eq!(text_at(&g, &["project", "summary"]), "—");
}

#[test]
fn build_genome_from_sections() {
    let secs = vec![
        Section { level: 2, title: "Goal".to_string(), summary: Some("Be fast.".to_string()) },
    ];
    let g = build_genome("notes", secs);
    assert_eq!(text_at(&g, &["project", "name"]), "Notes");
    assert_eq!(text_at(&g, &["components", "goal", "summary"]), "Be fast.");
    match at(&g, &["components", "goal", "provenance", "summary", "confidence"]) {
        Json::Float(b) => assert_eq!(f64::from_bits(*b), 1.0),
        _ => panic!("confidence is a float"),
    }
}

#[test]
fn ingested_genome_is_honest() {
    let g = from_doc("doc", "# T\n\n## P\n\n### A\n\nsum a\n\n### B\n\n## Q\n\nrole q\n\n### C\n\nsum c\n");
    assert!(nexovia::validate::check_honesty(&g).is_empty());
    assert!(nexovia::validate::check_links(&g).is_empty());
}

#[test]
fn slugs_are_well_shaped_and_distinct() {
    let mut s = SlugSet::new();
    let titles = ["Hello", "hello", "__x__", "", "Ünïcode", "A--B", "9 lives", "_", "Hello", "a___b", "ÀÉ"];
    let mut ids: Vec<String> = Vec::new();
    for t in titles {
        let id = s.make(t);
        assert!(!id.is_empty(), "{t:?}");
        assert!(id.chars().all(|c| c.is_ascii_lowercase() || c.is_ascii_digit() || c == '_'), "{id}");
        assert!(!id.starts_with('_') && !id.ends_with('_'), "{id}");
        assert!(!ids.contains(&id), "{id} repeated");
        ids.push(id);
    }
}

#[test]
fn capitalized_words_joined() {
    let ws = vec!["hello".to_string(), "x".to_string(), "".to_string(), "ßa".to_string()];
    let heads = vec!["H".to_string(), "Y".to_string(), "Z".to_string(), "SS".to_string()];
    assert_eq!(nexovia::ingest::join_capitalized(&ws, &heads), "Hello Y  SSa");
    assert_eq!(nexovia::ingest::join_capitalized(&vec![], &vec![]), "");
}
