use fmg::vault::{
    extract_wikilinks_from_str, extract_wikilinks_from_value, is_vault_page, page_from_text, page_stem,
    parse_frontmatter, parse_frontmatter_and_body, sort_frontmatter, sort_pages, split_frontmatter, FmValue, Page,
};

/// The value under `key`, if the entries hold it.
fn get<'a>(fm: &'a [(String, FmValue)], key: &str) -> Option<&'a FmValue> {
    fm.iter().find(|(k, _)| k == key).map(|(_, v)| v)
}

fn text(s: &str) -> FmValue {
    FmValue::Text(s.to_string())
}

fn page(path: &str, frontmatter: Vec<(&str, FmValue)>, body: &str) -> Page {
    let stem = path.rsplit('/').next().unwrap().trim_end_matches(".md").to_string();
    Page {
        rel_path: path.to_string(),
        stem,
        frontmatter: frontmatter.into_iter().map(|(k, v)| (k.to_string(), v)).collect(),
        body: body.to_string(),
    }
}

#[test]
fn test_extract_wikilinks() {
    let links = extract_wikilinks_from_str("[[Foo]] and [[Bar Baz]]");
    assert_eq!(links, vec!["Foo", "Bar Baz"]);
}

#[test]
fn test_extract_wikilinks_empty() {
    let links = extract_wikilinks_from_str("no links here");
    assert!(links.is_empty());
}

#[test]
fn test_extract_wikilinks_nested_brackets() {
    let links = extract_wikilinks_from_str("[[Hello]] world [[ Spaces ]]");
    assert_eq!(links, vec!["Hello", "Spaces"]);
}

#[test]
fn test_parse_frontmatter_basic() {
    let content = "---\ntitle: Hello World\ntags:\n  - foo\n  - bar\n---\n# Content";
    let fm = parse_frontmatter(content);
    assert_eq!(get(&fm, "title"), Some(&FmValue::Text("Hello World".to_string())));
}

#[test]
fn test_parse_frontmatter_none() {
    let content = "# No frontmatter here";
    let fm = parse_frontmatter(content);
    assert!(fm.is_empty());
}

#[test]
fn test_parse_frontmatter_wikilinks() {
    let content = r#"---
title: Test Page
depends_on:
  - "[[LibreChat MongoDB]]"
  - "[[LiteLLM Proxy]]"
---
# Content"#;
    let fm = parse_frontmatter(content);
    let deps = get(&fm, "depends_on").unwrap();
    let links = extract_wikilinks_from_value(deps);
    assert_eq!(links, vec!["LibreChat MongoDB", "LiteLLM Proxy"]);
}

#[test]
fn wikilinks_skip_empty_and_unclosed() {
    assert_eq!(extract_wikilinks_from_str("[[ ]] [[A]] [[B"), vec!["A"]);
    assert_eq!(extract_wikilinks_from_str("[[x]]]]"), vec!["x"]);
}

#[test]
fn wikilinks_from_nested_lists() {
    let v = FmValue::List(vec![text("[[A]]"), FmValue::List(vec![text("see [[B]] and [[C]]")]), FmValue::Other]);
    assert_eq!(extract_wikilinks_from_value(&v), vec!["A", "B", "C"]);
    assert!(extract_wikilinks_from_value(&FmValue::Other).is_empty());
}

#[test]
fn split_frontmatter_parts() {
    let (yaml, body) = split_frontmatter("  \n---\na: 1\n---\nbody text");
    assert_eq!(yaml.as_deref(), Some("\na: 1"));
    assert_eq!(body, "\nbody text");
    let (yaml, body) = split_frontmatter("---\nno end fence");
    assert_eq!(yaml, None);
    assert_eq!(body, "---\nno end fence");
    let (yaml, body) = split_frontmatter("---\n---");
    assert_eq!(yaml.as_deref(), Some(""));
    assert_eq!(body, "");
}

#[test]
fn page_title_aliases_and_type() {
    let p = page(
        "notes/x.md",
        vec![
            ("aliases", FmValue::List(vec![text("Ex"), FmValue::Other, text("X-ray")])),
            ("title", text("The X")),
            ("type", FmValue::Tagged(Box::new(text("service")))),
        ],
        "",
    );
    assert_eq!(p.title("title"), "The X");
    assert_eq!(p.title("name"), "x");
    assert_eq!(p.aliases("aliases"), vec!["Ex", "X-ray"]);
    assert!(p.aliases("other").is_empty());
    assert_eq!(p.node_type(), Some("service".to_string()));
}

#[test]
fn wikilink_fields_skip_cross_service_and_plain_values() {
    let p = page(
        "p.md",
        vec![
            ("cross_service", FmValue::List(vec![text("[[Hidden]]")])),
            ("depends_on", FmValue::List(vec![text("[[A]]"), text("[[B]]")])),
            ("status", text("draft")),
            ("uses", text("[[C]]")),
        ],
        "",
    );
    let fields = p.wikilink_fields();
    let names: Vec<&str> = fields.iter().map(|(k, _)| k.as_str()).collect();
    assert_eq!(names, vec!["depends_on", "uses"]);
    assert_eq!(fields[0].1, vec!["A", "B"]);
    assert_eq!(fields[1].1, vec!["C"]);
}

#[test]
fn cross_service_edges_parse_targets_and_defaults() {
    let edge = FmValue::Mapping(vec![
        (text("target"), text("  [[LibreChat]] ")),
        (text("type"), text("http-call")),
        (text("endpoint"), text("/api/agents/chat")),
    ]);
    let bare = FmValue::Mapping(vec![(text("target"), text("Redis"))]);
    let empty = FmValue::Mapping(vec![(text("target"), text("[[ ]]"))]);
    let p = page("s.md", vec![("cross_service", FmValue::List(vec![edge, FmValue::Other, bare, empty]))], "");
    let es = p.cross_service_edges();
    assert_eq!(es.len(), 2);
    assert_eq!(es[0].target, "LibreChat");
    assert_eq!(es[0].edge_type, "http-call");
    assert_eq!(es[0].endpoint.as_deref(), Some("/api/agents/chat"));
    assert_eq!(es[0].condition, None);
    assert_eq!(es[1].target, "Redis");
    assert_eq!(es[1].edge_type, "cross_service");
}

#[test]
fn vault_page_paths_and_stems() {
    let c = |v: &[&str]| v.iter().map(|s| s.to_string()).collect::<Vec<String>>();
    assert!(is_vault_page(&c(&["notes", "a.md"])));
    assert!(!is_vault_page(&c(&[".obsidian", "a.md"])));
    assert!(!is_vault_page(&c(&["a.txt"])));
    assert!(!is_vault_page(&c(&[])));
    assert_eq!(page_stem("my-note.md"), "my-note");
    assert_eq!(page_stem("a.b.md"), "a.b");
}

#[test]
fn frontmatter_sorted_by_key() {
    let entries = vec![
        ("zeta".to_string(), text("1")),
        ("alpha".to_string(), text("2")),
        ("Mid".to_string(), text("3")),
    ];
    let sorted = sort_frontmatter(entries);
    let keys: Vec<&str> = sorted.iter().map(|(k, _)| k.as_str()).collect();
    assert_eq!(keys, vec!["Mid", "alpha", "zeta"]);
}

#[test]
fn relationship_fields_come_by_name() {
    let entries = vec![
        ("uses".to_string(), text("[[C]]")),
        ("depends_on".to_string(), text("[[A]]")),
    ];
    let p = Page { rel_path: "p.md".to_string(), stem: "p".to_string(), frontmatter: sort_frontmatter(entries), body: String::new() };
    let names: Vec<String> = p.wikilink_fields().into_iter().map(|(k, _)| k).collect();
    assert_eq!(names, vec!["depends_on", "uses"]);
}

#[test]
fn pages_sorted_component_by_component() {
    let pages = vec![page("a-b.md", vec![], ""), page("a/b.md", vec![], ""), page("a.md", vec![], "")];
    let sorted = sort_pages(pages);
    let paths: Vec<&str> = sorted.iter().map(|p| p.rel_path.as_str()).collect();
    assert_eq!(paths, vec!["a/b.md", "a-b.md", "a.md"]);
}

#[test]
fn frontmatter_entries_come_in_key_order() {
    let content = "---\ntitle: T\ndepends_on: [\"[[A]]\"]\ncount: 3\ntags:\n  - x\n---\nbody [[B]]";
    let (fm, body) = parse_frontmatter_and_body(content);
    let keys: Vec<&str> = fm.iter().map(|(k, _)| k.as_str()).collect();
    assert_eq!(keys, vec!["count", "depends_on", "tags", "title"]);
    assert_eq!(get(&fm, "count"), Some(&FmValue::Other));
    assert_eq!(get(&fm, "tags"), Some(&FmValue::List(vec![text("x")])));
    assert_eq!(body, "\nbody [[B]]");
}

#[test]
fn frontmatter_that_is_no_map_is_empty() {
    assert!(parse_frontmatter("---\n- a\n- b\n---\nbody").is_empty());
    assert!(parse_frontmatter("---\n: : [\n---\nbody").is_empty());
    let (fm, body) = parse_frontmatter_and_body("no fence");
    assert!(fm.is_empty());
    assert_eq!(body, "no fence");
}

#[test]
fn page_from_text_reads_stem_frontmatter_and_body() {
    let p = page_from_text("dir/Note.md".to_string(), "Note.md", "---\ntitle: N\n---\ntext");
    assert_eq!(p.stem, "Note");
    assert_eq!(p.rel_path, "dir/Note.md");
    assert_eq!(p.frontmatter, vec![("title".to_string(), text("N"))]);
    assert_eq!(p.body, "\ntext");
    assert_eq!(p.title("title"), "N");
}
