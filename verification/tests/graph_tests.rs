use fmg::config::{Config, Direction};
use fmg::graph::VaultGraph;
use fmg::output::{
    describe_stats, format_bridge_text, format_broken_text, format_centrality_text, format_describe_text,
    format_orphans_paths, format_orphans_text, format_query_mermaid, format_query_paths, format_query_text,
    format_xedges_text, parse_direction, parse_format, Format,
};
use fmg::query::{bridge, broken_links, centrality, orphans, query, runtime_edges_touching, TraversalDirection};
use fmg::tool::{plan_tool, rpc_action, tool_catalogue_entries, RpcAction, ToolArgs, ToolPlan};
use fmg::vault::{FmValue, Page};

const RULE: &str = "═══════════════════════════════════════\n";

fn text(s: &str) -> FmValue {
    FmValue::Text(s.to_string())
}

fn links(ls: &[&str]) -> FmValue {
    FmValue::List(ls.iter().map(|l| text(l)).collect())
}

fn page(stem: &str, fm: Vec<(&str, FmValue)>, body: &str) -> Page {
    Page {
        rel_path: format!("{stem}.md"),
        stem: stem.to_string(),
        frontmatter: fm.into_iter().map(|(k, v)| (k.to_string(), v)).collect(),
        body: body.to_string(),
    }
}

/// Alpha depends on Beta and on an unresolved Ghost; Beta is related to
/// Gamma (both ways); Gamma has the alias G; Delta stands alone.
fn sample_pages() -> Vec<Page> {
    vec![
        page("a", vec![("depends_on", links(&["[[Beta]]", "[[Ghost]]"])), ("title", text("Alpha"))], ""),
        page("b", vec![("related_to", links(&["[[Gamma]]"])), ("title", text("Beta"))], ""),
        page("c", vec![("aliases", links(&["G"])), ("title", text("Gamma"))], ""),
        page("d", vec![("title", text("Delta"))], "see [[Alpha]]"),
    ]
}

fn sample() -> VaultGraph {
    VaultGraph::build(&sample_pages(), &Config::default(), false)
}

fn args() -> ToolArgs {
    ToolArgs { node: None, a: None, b: None, depth: None, direction: None, fields: None, format: None, limit: None }
}

fn failed(p: ToolPlan) -> String {
    match p {
        ToolPlan::Failed(m) => m,
        _ => panic!("expected a failure"),
    }
}

#[test]
fn build_makes_nodes_edges_and_fields() {
    let vg = sample();
    assert_eq!(vg.graph.node_count(), 5);
    assert_eq!(vg.graph.edge_count(), 4);
    assert_eq!(vg.node(4).title, "Ghost");
    assert!(vg.node(4).external);
    assert_eq!(vg.node(3).path.as_deref(), Some("d.md"));
    assert_eq!(vg.fields, vec!["depends_on", "related_to"]);
    assert_eq!(vg.total_pages, 4);
    assert_eq!(vg.pages_with_frontmatter, 4);
}

#[test]
fn body_links_add_link_edges() {
    let vg = VaultGraph::build(&sample_pages(), &Config::default(), true);
    assert_eq!(vg.graph.edge_count(), 5);
    assert_eq!(vg.fields, vec!["depends_on", "related_to", "link"]);
}

#[test]
fn bidirectional_fields_go_both_ways() {
    let vg = sample();
    let down = query(&vg, 1, 1, TraversalDirection::Down, None);
    assert!(down.nodes.contains(&(2, 1)));
    let up = query(&vg, 1, 1, TraversalDirection::Up, None);
    assert!(up.nodes.contains(&(2, 1)));
    let mut cfg = Config::default();
    cfg.fields.direction.push(("related_to".to_string(), "forward".to_string()));
    assert_eq!(cfg.direction_for("related_to"), Direction::Forward);
    assert_eq!(cfg.direction_for("seeAlso"), Direction::Bidirectional);
    let vg2 = VaultGraph::build(&sample_pages(), &cfg, false);
    assert_eq!(vg2.graph.edge_count(), 3);
}

#[test]
fn field_filter_in_config() {
    let mut cfg = Config::default();
    cfg.fields.edges = Some(vec!["related_to".to_string()]);
    let vg = VaultGraph::build(&sample_pages(), &cfg, false);
    assert_eq!(vg.graph.edge_count(), 2);
    assert_eq!(vg.fields, vec!["related_to"]);
}

#[test]
fn find_node_by_title_alias_stem() {
    let vg = sample();
    assert_eq!(vg.find_node("ALPHA"), Some(0));
    assert_eq!(vg.find_node("g"), Some(2));
    assert_eq!(vg.find_node("d"), Some(3));
    assert_eq!(vg.find_node("ghost"), Some(4));
    assert_eq!(vg.find_node("nothing"), None);
}

#[test]
fn fuzzy_find_node_outcomes() {
    let vg = sample();
    assert_eq!(vg.fuzzy_find_node("a"), Ok(0));
    assert_eq!(vg.fuzzy_find_node("amm"), Ok(2));
    assert_eq!(vg.fuzzy_find_node("LT"), Ok(3));
    assert_eq!(vg.fuzzy_find_node("ta"), Err(vec!["Beta".to_string(), "Delta".to_string()]));
    assert_eq!(vg.fuzzy_find_node("zzz"), Err(vec![]));
}

#[test]
fn query_both_directions_two_hops() {
    let vg = sample();
    let r = query(&vg, 0, 2, TraversalDirection::Both, None);
    assert_eq!(r.nodes, vec![(0, 0), (1, 1), (4, 1), (2, 2)]);
    let es: Vec<(usize, usize, &str, u32)> = r.edges.iter().map(|e| (e.from, e.to, e.field.as_str(), e.hop)).collect();
    assert_eq!(es, vec![(0, 1, "depends_on", 1), (0, 4, "depends_on", 1), (1, 2, "related_to", 2), (2, 1, "related_to", 2)]);
}

#[test]
fn query_depth_zero_is_the_center() {
    let vg = sample();
    let r = query(&vg, 2, 0, TraversalDirection::Both, None);
    assert_eq!(r.nodes, vec![(2, 0)]);
    assert!(r.edges.is_empty());
}

#[test]
fn query_with_field_filter() {
    let vg = sample();
    let only = vec!["related_to".to_string()];
    let r = query(&vg, 0, 3, TraversalDirection::Both, Some(&only));
    assert_eq!(r.nodes, vec![(0, 0)]);
    let r = query(&vg, 1, 3, TraversalDirection::Up, Some(&only));
    assert_eq!(r.nodes, vec![(1, 0), (2, 1)]);
}

#[test]
fn up_and_down_mirror_each_other() {
    let vg = sample();
    let up = query(&vg, 0, 2, TraversalDirection::Up, None);
    assert!(up.nodes.contains(&(2, 2)));
    let down = query(&vg, 2, 2, TraversalDirection::Down, None);
    assert!(down.nodes.contains(&(0, 2)));
}

#[test]
fn query_text_rendering() {
    let vg = sample();
    let r = query(&vg, 0, 2, TraversalDirection::Both, None);
    let expected = format!(
        "{RULE}  Alpha\n  depth=2  direction=both  nodes=4\n{RULE}\n── Hop 1 ─────────────────────────────\n  Alpha ──[depends_on]──▶ Beta\n  Alpha ──[depends_on]──▶ Ghost  ⚠ external\n\n── Hop 2 ─────────────────────────────\n  Beta ──[related_to]──▶ Gamma\n  Gamma ──[related_to]──▶ Beta\n"
    );
    assert_eq!(format_query_text(&vg, &r), expected);
}

#[test]
fn query_mermaid_rendering() {
    let vg = sample();
    let r = query(&vg, 0, 2, TraversalDirection::Both, None);
    let expected = "graph LR\n  A[\"Alpha\"] -->|depends_on| B[\"Beta\"]\n  A[\"Alpha\"] -->|depends_on| C[\"Ghost\"]\n  B[\"Beta\"] -->|related_to| D[\"Gamma\"]\n  D[\"Gamma\"] -->|related_to| B[\"Beta\"]\n";
    assert_eq!(format_query_mermaid(&vg, &r), expected);
}

#[test]
fn query_paths_rendering() {
    let vg = sample();
    let r = query(&vg, 0, 2, TraversalDirection::Both, None);
    assert_eq!(format_query_paths(&vg, &r), "a.md\nb.md\nc.md\n");
}

#[test]
fn bridge_finds_shortest_path() {
    let vg = sample();
    let path = bridge(&vg, 0, 2).unwrap();
    let steps: Vec<(usize, usize, &str)> = path.iter().map(|(a, b, f)| (*a, *b, f.as_str())).collect();
    assert_eq!(steps, vec![(0, 1, "depends_on"), (1, 2, "related_to")]);
    assert_eq!(
        format_bridge_text(&vg, 0, 2, &path),
        "Path from \"Alpha\" to \"Gamma\" (2 hops):\n\n  1. Alpha ──[depends_on]──▶ Beta\n  2. Beta ──[related_to]──▶ Gamma\n"
    );
    let back = bridge(&vg, 2, 0).unwrap();
    assert_eq!(back.len(), 2);
    assert_eq!(back[0].0, 2);
    assert_eq!(back[1].1, 0);
}

#[test]
fn bridge_same_node_and_no_path() {
    let vg = sample();
    let same = bridge(&vg, 0, 0).unwrap();
    assert!(same.is_empty());
    assert_eq!(format_bridge_text(&vg, 0, 0, &same), "Alpha and Alpha are the same node.\n");
    assert_eq!(bridge(&vg, 0, 3), None);
    assert_eq!(bridge(&vg, 3, 0), None);
}

#[test]
fn centrality_ranks_by_degree_then_title() {
    let vg = sample();
    let c = centrality(&vg, 10);
    assert_eq!(c, vec![(1, 3), (0, 2), (2, 2), (4, 1), (3, 0)]);
    assert_eq!(centrality(&vg, 2), vec![(1, 3), (0, 2)]);
    assert!(centrality(&vg, 0).is_empty());
    let expected = format!(
        "{RULE}  Most Connected Nodes\n{RULE}\n   1. Beta (degree: 3)\n   2. Alpha (degree: 2)\n   3. Gamma (degree: 2)\n   4. Ghost (degree: 1) ⚠ external\n   5. Delta (degree: 0)\n"
    );
    assert_eq!(format_centrality_text(&vg, &c), expected);
}

#[test]
fn centrality_pads_two_digit_ranks() {
    let pages: Vec<Page> = (0..11).map(|i| page(&format!("p{i:02}"), vec![], "")).collect();
    let vg = VaultGraph::build(&pages, &Config::default(), false);
    let c = centrality(&vg, 11);
    let out = format_centrality_text(&vg, &c);
    assert!(out.contains("\n   9. p08 (degree: 0)\n"));
    assert!(out.contains("\n  10. p09 (degree: 0)\n"));
}

#[test]
fn orphans_exclude_external_nodes() {
    let vg = sample();
    let o = orphans(&vg);
    assert_eq!(o, vec![3]);
    assert_eq!(format_orphans_text(&vg, &o), "Orphan pages (1 total):\n\n  Delta (d.md)\n");
    assert_eq!(format_orphans_paths(&vg, &o), "d.md\n");
    assert_eq!(format_orphans_text(&vg, &vec![]), "No orphan pages found.\n");
}

#[test]
fn broken_links_report() {
    let vg = sample();
    let b = broken_links(&vg);
    assert_eq!(b.len(), 1);
    assert_eq!(b[0].0, 4);
    assert_eq!(b[0].1, vec![(0, "depends_on".to_string())]);
    assert_eq!(
        format_broken_text(&vg, &b),
        "Broken links (1 unresolved targets):\n\n  ⚠ \"Ghost\" referenced by:\n      Alpha (field: depends_on)\n"
    );
    assert_eq!(format_broken_text(&vg, &vec![]), "No broken links found.\n");
}

#[test]
fn describe_statistics() {
    let vg = sample();
    let st = describe_stats(&vg);
    assert_eq!(st.internal_nodes, 4);
    assert_eq!(st.external_nodes, 1);
    assert_eq!(st.edges, 4);
    assert_eq!(st.fields, vec!["depends_on", "related_to"]);
    let expected = format!(
        "{RULE}  Vault Statistics\n{RULE}\n  Pages scanned:      4\n  Frontmatter coverage: 100%\n  Graph nodes:        4 internal + 1 external\n  Graph edges:        4\n  Relationship fields: depends_on, related_to\n"
    );
    assert_eq!(format_describe_text(&st, "100"), expected);
    let empty = VaultGraph::build(&[], &Config::default(), false);
    assert!(format_describe_text(&describe_stats(&empty), "0").ends_with("  Relationship fields: (none)\n"));
}

#[test]
fn runtime_layer_kept_apart() {
    let mut pages = sample_pages();
    let edge = FmValue::Mapping(vec![
        (text("target"), text("[[Gamma]]")),
        (text("type"), text("http-call")),
        (text("condition"), text("flag==true")),
        (text("provenance"), text("src/a.py:1")),
    ]);
    let ext = FmValue::Mapping(vec![(text("target"), text("Elsewhere"))]);
    pages[0].frontmatter.insert(1, ("cross_service".to_string(), FmValue::List(vec![edge, ext])));
    let with_rt = VaultGraph::build(&pages, &Config::default(), false);
    let plain = sample();
    assert_eq!(with_rt.graph.edge_count(), plain.graph.edge_count());
    assert_eq!(with_rt.graph.node_count(), plain.graph.node_count());
    assert_eq!(with_rt.fields, plain.fields);
    assert_eq!(with_rt.pages_with_frontmatter, plain.pages_with_frontmatter);
    assert_eq!(with_rt.total_pages, plain.total_pages);
    assert_eq!(format_describe_text(&describe_stats(&with_rt), "80.0"), format_describe_text(&describe_stats(&plain), "80.0"));
    assert_eq!(with_rt.runtime.len(), 2);
    let all = runtime_edges_touching(&with_rt, None);
    assert_eq!(all, vec![0, 1]);
    assert_eq!(runtime_edges_touching(&with_rt, Some(2)), vec![0]);
    assert!(runtime_edges_touching(&with_rt, Some(3)).is_empty());
    let expected = format!(
        "{RULE}  Cross-service (runtime) edges: 2\n{RULE}\n  Alpha ──[http-call]──▶ Gamma\n      condition:  flag==true\n      provenance: src/a.py:1\n  Alpha ──[cross_service]──▶ Elsewhere  ⚠ external\n      condition:  (unconditional)\n"
    );
    assert_eq!(format_xedges_text(&with_rt, &all), expected);
}

#[test]
fn formats_and_directions_by_name() {
    assert_eq!(Format::from_str("json"), Format::Json);
    assert_eq!(Format::from_str("mermaid"), Format::Mermaid);
    assert_eq!(Format::from_str("paths"), Format::Paths);
    assert_eq!(Format::from_str("xml"), Format::Text);
    assert_eq!(parse_format(None, Format::Json), Format::Json);
    assert_eq!(parse_format(Some("text"), Format::Json), Format::Text);
    assert_eq!(parse_direction(Some("up")), TraversalDirection::Up);
    assert_eq!(parse_direction(Some("down")), TraversalDirection::Down);
    assert_eq!(parse_direction(Some("sideways")), TraversalDirection::Both);
    assert_eq!(parse_direction(None), TraversalDirection::Both);
}

#[test]
fn query_depth_is_capped() {
    let cfg = Config::default();
    assert_eq!(cfg.display.query_depth(None), 1);
    assert_eq!(cfg.display.query_depth(Some(4)), 4);
    assert_eq!(cfg.display.query_depth(Some(40)), 10);
}

#[test]
fn tool_errors() {
    let vg = sample();
    let cfg = Config::default();
    assert_eq!(failed(plan_tool(&vg, &cfg, "query", &args())), "{\"error\": \"missing required argument: node\"}");
    let mut a = args();
    a.node = Some("zzz".to_string());
    assert_eq!(failed(plan_tool(&vg, &cfg, "query", &a)), "{\"error\": \"node 'zzz' not found\"}");
    a.node = Some("ta".to_string());
    assert_eq!(failed(plan_tool(&vg, &cfg, "query", &a)), "{\"error\": \"ambiguous node 'ta'. Did you mean: Beta, Delta}");
    assert_eq!(failed(plan_tool(&vg, &cfg, "subgraph", &a)), "{\"error\": \"ambiguous node 'ta': Beta, Delta}");
    assert_eq!(failed(plan_tool(&vg, &cfg, "bogus", &args())), "{\"error\": \"unknown tool: bogus}");
    let mut b = args();
    b.a = Some("Alpha".to_string());
    assert_eq!(failed(plan_tool(&vg, &cfg, "bridge", &b)), "{\"error\": \"missing required argument: b\"}");
    b.b = Some("Delta".to_string());
    assert_eq!(failed(plan_tool(&vg, &cfg, "bridge", &b)), "{\"error\": \"no path found between 'Alpha' and 'Delta'}");
}

#[test]
fn huge_tool_depth_is_capped() {
    let vg = sample();
    let cfg = Config::default();
    let mut a = args();
    a.node = Some("alpha".to_string());
    a.depth = Some(4294967297);
    match plan_tool(&vg, &cfg, "query", &a) {
        ToolPlan::Query(r, _) => assert_eq!(r.depth, 10),
        _ => panic!("expected a query"),
    }
    let mut s = args();
    s.node = Some("alpha".to_string());
    s.depth = Some(4294967296);
    match plan_tool(&vg, &cfg, "subgraph", &s) {
        ToolPlan::Query(r, _) => assert_eq!(r.depth, 10),
        _ => panic!("expected a subgraph"),
    }
}

#[test]
fn tool_plans() {
    let vg = sample();
    let cfg = Config::default();
    let mut a = args();
    a.node = Some("alpha".to_string());
    a.depth = Some(50);
    a.format = Some("text".to_string());
    match plan_tool(&vg, &cfg, "query", &a) {
        ToolPlan::Query(r, f) => {
            assert_eq!(f, Format::Text);
            assert_eq!(r.center, 0);
            assert_eq!(r.depth, 10);
            assert_eq!(r.nodes.len(), 4);
        },
        _ => panic!("expected a query"),
    }
    match plan_tool(&vg, &cfg, "describe", &args()) {
        ToolPlan::Describe(f) => assert_eq!(f, Format::Json),
        _ => panic!("expected describe"),
    }
    let mut c = args();
    c.limit = Some(1);
    match plan_tool(&vg, &cfg, "centrality", &c) {
        ToolPlan::Centrality(cs, _) => assert_eq!(cs, vec![(1, 3)]),
        _ => panic!("expected centrality"),
    }
    let mut b = args();
    b.a = Some("Gamma".to_string());
    b.b = Some("alpha".to_string());
    match plan_tool(&vg, &cfg, "bridge", &b) {
        ToolPlan::Bridge(x, y, p, _) => {
            assert_eq!((x, y), (2, 0));
            assert_eq!(p.len(), 2);
        },
        _ => panic!("expected a path"),
    }
}

#[test]
fn rpc_actions_by_method() {
    assert_eq!(rpc_action("initialize", true), RpcAction::Initialize);
    assert_eq!(rpc_action("initialized", false), RpcAction::Ignore);
    assert_eq!(rpc_action("notifications/initialized", false), RpcAction::Ignore);
    assert_eq!(rpc_action("tools/list", true), RpcAction::ListTools);
    assert_eq!(rpc_action("tools/call", true), RpcAction::CallTool);
    assert_eq!(rpc_action("ping", true), RpcAction::Pong);
    assert_eq!(rpc_action("other", false), RpcAction::Ignore);
    assert_eq!(rpc_action("other", true), RpcAction::UnknownMethod);
}

#[test]
fn notifications_are_never_answered() {
    assert_eq!(rpc_action("initialize", false), RpcAction::Ignore);
    assert_eq!(rpc_action("tools/list", false), RpcAction::Ignore);
    assert_eq!(rpc_action("tools/call", false), RpcAction::Ignore);
    assert_eq!(rpc_action("ping", false), RpcAction::Ignore);
}

#[test]
fn cross_service_tool() {
    let mut pages = sample_pages();
    let edge = FmValue::Mapping(vec![(text("target"), text("Gamma"))]);
    pages[1].frontmatter.push(("cross_service".to_string(), FmValue::List(vec![edge])));
    let vg = VaultGraph::build(&pages, &Config::default(), false);
    let cfg = Config::default();
    match plan_tool(&vg, &cfg, "cross_service", &args()) {
        ToolPlan::CrossService(sel, f) => {
            assert_eq!(sel, vec![0]);
            assert_eq!(f, Format::Json);
        },
        _ => panic!("expected runtime edges"),
    }
    let mut a = args();
    a.node = Some("delta".to_string());
    match plan_tool(&vg, &cfg, "cross_service", &a) {
        ToolPlan::CrossService(sel, _) => assert!(sel.is_empty()),
        _ => panic!("expected runtime edges"),
    }
    assert_eq!(vg.runtime[0].from, "Beta");
    assert_eq!(vg.runtime[0].to, "Gamma");
    assert!(!vg.runtime[0].external_target);
}

#[test]
fn catalogue_lists_the_dispatched_tools() {
    let entries = tool_catalogue_entries();
    let names: Vec<&str> = entries.iter().map(|e| e.name.as_str()).collect();
    assert_eq!(names, vec!["describe", "query", "orphans", "broken", "bridge", "centrality", "subgraph", "cross_service"]);
    let vg = sample();
    let cfg = Config::default();
    for e in &entries {
        let mut a = args();
        for r in &e.required {
            match r.as_str() {
                "node" => a.node = Some("Alpha".to_string()),
                "a" => a.a = Some("Alpha".to_string()),
                "b" => a.b = Some("Beta".to_string()),
                other => panic!("unexpected argument {other}"),
            }
        }
        match plan_tool(&vg, &cfg, &e.name, &a) {
            ToolPlan::Failed(m) => panic!("{} failed: {m}", e.name),
            _ => {},
        }
        if let Some(first) = e.required.first() {
            assert_eq!(failed(plan_tool(&vg, &cfg, &e.name, &args())), format!("{{\"error\": \"missing required argument: {first}\"}}"));
        }
    }
    assert_eq!(entries[1].required, vec!["node".to_string()]);
    assert_eq!(entries[4].required, vec!["a".to_string(), "b".to_string()]);
    assert_eq!(entries[1].default_depth, Some(1));
    assert_eq!(entries[6].default_depth, Some(2));
    assert_eq!(failed(plan_tool(&vg, &cfg, "nope", &args())), "{\"error\": \"unknown tool: nope}");
}

#[test]
fn default_depth_matches_the_catalogue() {
    let vg = sample();
    let cfg = Config::default();
    for (name, d) in [("query", 1u64), ("subgraph", 2u64)] {
        let mut a = args();
        a.node = Some("Alpha".to_string());
        let mut b = args();
        b.node = Some("Alpha".to_string());
        b.depth = Some(d);
        match (plan_tool(&vg, &cfg, name, &a), plan_tool(&vg, &cfg, name, &b)) {
            (ToolPlan::Query(r1, _), ToolPlan::Query(r2, _)) => {
                assert_eq!(r1.depth, d as u32);
                assert_eq!(r1.nodes, r2.nodes);
                assert_eq!(r1.edges.len(), r2.edges.len());
            },
            _ => panic!("expected queries"),
        }
    }
}

#[test]
fn edge_ties_break_on_node_indices() {
    let pages = vec![
        page("h", vec![("title", text("Hub"))], ""),
        page("t1", vec![("depends_on", links(&["[[Hub]]"])), ("title", text("Twin"))], ""),
        page("t2", vec![("depends_on", links(&["[[Hub]]"])), ("title", text("Twin"))], ""),
    ];
    let vg = VaultGraph::build(&pages, &Config::default(), false);
    let r = query(&vg, 0, 1, TraversalDirection::Both, None);
    let ends: Vec<(usize, usize)> = r.edges.iter().map(|e| (e.from, e.to)).collect();
    assert_eq!(ends, vec![(1, 0), (2, 0)]);
}

#[test]
fn pages_become_nodes_and_edges_touch_pages() {
    let pages = sample_pages();
    for include_body in [false, true] {
        let vg = VaultGraph::build(&pages, &Config::default(), include_body);
        let titles = ["Alpha", "Beta", "Gamma", "Delta"];
        for (i, p) in pages.iter().enumerate() {
            assert_eq!(vg.node(i).title, titles[i]);
            assert_eq!(vg.node(i).path.as_deref(), Some(p.rel_path.as_str()));
            assert!(!vg.node(i).external);
        }
        for i in pages.len()..vg.graph.node_count() {
            assert!(vg.node(i).external);
            assert!(vg.node(i).path.is_none());
        }
        for e in vg.graph.raw_edges() {
            let (a, b) = (e.source().index(), e.target().index());
            assert!(a < pages.len() || b < pages.len());
            assert!(vg.fields.contains(&e.weight.field));
        }
    }
}

#[test]
fn build_checked_builds_what_build_builds() {
    for include_body in [false, true] {
        let checked = VaultGraph::build_checked(&sample_pages(), &Config::default(), include_body).expect("fits");
        let plain = VaultGraph::build(&sample_pages(), &Config::default(), include_body);
        assert_eq!(checked.graph.node_count(), plain.graph.node_count());
        assert_eq!(checked.graph.edge_count(), plain.graph.edge_count());
        assert_eq!(checked.fields, plain.fields);
        assert_eq!(checked.pages_with_frontmatter, plain.pages_with_frontmatter);
    }
}

#[test]
fn repeated_queries_agree() {
    let vg = sample();
    for dir in [TraversalDirection::Up, TraversalDirection::Down, TraversalDirection::Both] {
        let r1 = query(&vg, 0, 3, dir, None);
        let r2 = query(&vg, 0, 3, dir, None);
        assert_eq!(r1.nodes, r2.nodes);
        let k1: Vec<(usize, usize, String, u32)> = r1.edges.iter().map(|e| (e.from, e.to, e.field.clone(), e.hop)).collect();
        let k2: Vec<(usize, usize, String, u32)> = r2.edges.iter().map(|e| (e.from, e.to, e.field.clone(), e.hop)).collect();
        assert_eq!(k1, k2);
    }
}
