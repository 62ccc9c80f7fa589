use fmg::resolve::Resolver;
use fmg::vault::{FmValue, Page};

fn make_page(stem: &str, title: Option<&str>, aliases: Vec<&str>) -> Page {
    let mut fm: Vec<(String, FmValue)> = Vec::new();
    if !aliases.is_empty() {
        fm.push((
            "aliases".to_string(),
            FmValue::List(aliases.into_iter().map(|a| FmValue::Text(a.to_string())).collect()),
        ));
    }
    if let Some(t) = title {
        fm.push(("title".to_string(), FmValue::Text(t.to_string())));
    }
    Page {
        rel_path: format!("{stem}.md"),
        stem: stem.to_string(),
        frontmatter: fm,
        body: String::new(),
    }
}

#[test]
fn test_resolve_by_title() {
    let pages = vec![make_page("librechat", Some("LibreChat (HelperAI)"), vec![])];
    let resolver = Resolver::new(&pages, "title", "aliases");
    assert_eq!(resolver.resolve("LibreChat (HelperAI)"), Some(0));
    assert_eq!(resolver.resolve("librechat (helperai)"), Some(0));
}

#[test]
fn test_resolve_by_alias() {
    let pages = vec![make_page("mongo", Some("MongoDB"), vec!["Mongo", "mongo-db"])];
    let resolver = Resolver::new(&pages, "title", "aliases");
    assert_eq!(resolver.resolve("Mongo"), Some(0));
    assert_eq!(resolver.resolve("mongo-db"), Some(0));
}

#[test]
fn test_resolve_by_stem() {
    let pages = vec![make_page("my-note", None, vec![])];
    let resolver = Resolver::new(&pages, "title", "aliases");
    assert_eq!(resolver.resolve("my-note"), Some(0));
}

#[test]
fn test_resolve_unresolved() {
    let pages = vec![make_page("foo", Some("Foo"), vec![])];
    let resolver = Resolver::new(&pages, "title", "aliases");
    assert_eq!(resolver.resolve("Nonexistent"), None);
}

#[test]
fn title_beats_alias_beats_stem() {
    // Page 0 has "Shared" as an alias and "x" as stem; page 1 is titled "Shared";
    // page 2 has stem "shared-stem" and page 3 has the alias "shared-stem".
    let pages = vec![
        make_page("x", Some("First"), vec!["Shared"]),
        make_page("y", Some("Shared"), vec![]),
        make_page("shared-stem", Some("Third"), vec![]),
        make_page("z", Some("Fourth"), vec!["Shared-Stem"]),
    ];
    let resolver = Resolver::new(&pages, "title", "aliases");
    assert_eq!(resolver.resolve("SHARED"), Some(1));
    assert_eq!(resolver.resolve("shared-stem"), Some(3));
    assert_eq!(resolver.resolve("x"), Some(0));
}

#[test]
fn first_page_wins_among_equal_titles() {
    let pages = vec![make_page("a", Some("Same"), vec![]), make_page("b", Some("same"), vec![])];
    let resolver = Resolver::new(&pages, "title", "aliases");
    assert_eq!(resolver.resolve("Same"), Some(0));
}

#[test]
fn custom_title_field() {
    let mut p = make_page("p", None, vec![]);
    p.frontmatter.push(("name".to_string(), FmValue::Text("Named".to_string())));
    let pages = vec![p];
    let resolver = Resolver::new(&pages, "name", "aliases");
    assert_eq!(resolver.resolve("named"), Some(0));
}
