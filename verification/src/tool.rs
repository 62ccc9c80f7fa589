//! The agent tools: what a tool call asks of the vault graph, decided from
//! its name and arguments (as plain values), with the error text a failed
//! call answers.
use vstd::prelude::*;
use crate::config::Config;
use crate::graph::{VaultGraph, fuzzy_answers};
use crate::output::{Format, direction_named, join, parse_direction, parse_format, push_joined};
use crate::query::{
    QueryResult, TraversalDirection, bridge, bridge_answers, broken_answers, broken_links, centrality, centrality_answers,
    orphans, orphans_answers, query, query_answers, runtime_answers, runtime_edges_touching,
};
use crate::text::{push_str, str_equal};
use crate::vault::{opt_view, views};

verus! {

/// The arguments of a tool call, as far as any tool reads them.
pub struct ToolArgs {
    pub node: Option<String>,
    pub a: Option<String>,
    pub b: Option<String>,
    pub depth: Option<u64>,
    pub direction: Option<String>,
    pub fields: Option<Vec<String>>,
    pub format: Option<String>,
    pub limit: Option<u64>,
}

/// What a tool call comes to: a report to render, in a format, or an error
/// text.
pub enum ToolPlan {
    Describe(Format),
    Query(QueryResult, Format),
    Orphans(Vec<usize>, Format),
    Broken(Vec<(usize, Vec<(usize, String)>)>, Format),
    Bridge(usize, usize, Vec<(usize, usize, String)>, Format),
    Centrality(Vec<(usize, usize)>, Format),
    CrossService(Vec<usize>, Format),
    Failed(String),
}

/// The error text for a missing argument.
pub open spec fn missing_text(arg: Seq<char>) -> Seq<char> {
    "{\"error\": \"missing required argument: "@ + arg + "\"}"@
}

/// The error text for a name that matches no node.
pub open spec fn not_found_text(name: Seq<char>) -> Seq<char> {
    "{\"error\": \"node '"@ + name + "' not found\"}"@
}

/// The error text for a name that matches several nodes, listing their titles.
pub open spec fn ambiguous_text(name: Seq<char>, titles: Seq<Seq<char>>, hint: bool) -> Seq<char> {
    if hint {
        "{\"error\": \"ambiguous node '"@ + name + "'. Did you mean: "@ + join(titles, ", "@) + "}"@
    } else {
        "{\"error\": \"ambiguous node '"@ + name + "': "@ + join(titles, ", "@) + "}"@
    }
}

/// The error text for a failed lookup: no match, or several.
pub open spec fn lookup_text(name: Seq<char>, titles: Seq<Seq<char>>, hint: bool) -> Seq<char> {
    if titles.len() == 0 {
        not_found_text(name)
    } else {
        ambiguous_text(name, titles, hint)
    }
}

/// The error text when no path joins two nodes.
pub open spec fn no_path_text(a: Seq<char>, b: Seq<char>) -> Seq<char> {
    "{\"error\": \"no path found between '"@ + a + "' and '"@ + b + "'}"@
}

/// The error text for an unknown tool.
pub open spec fn unknown_tool_text(name: Seq<char>) -> Seq<char> {
    "{\"error\": \"unknown tool: "@ + name + "}"@
}

/// The plan is the failure with this text.
pub open spec fn fails_with(res: ToolPlan, text: Seq<char>) -> bool {
    res matches ToolPlan::Failed(m) && m@ == text
}

/// The format argument, or `default`.
pub open spec fn format_arg(args: ToolArgs, default: Format) -> Format {
    match args.format {
        Some(s) => crate::output::format_named(s@),
        None => default,
    }
}

/// The depth argument, or `default`, capped at `max` (the cap is taken on the
/// full 64-bit value, so a huge request runs at `max`).
pub open spec fn tool_depth(d: Option<u64>, default: u64, max: u32) -> u32 {
    let v = match d {
        Some(d) => d,
        None => default,
    };
    if v <= max as u64 {
        v as u32
    } else {
        max
    }
}

pub open spec fn opt_fields_view(o: Option<Vec<String>>) -> Option<Seq<Seq<char>>> {
    match o {
        Some(v) => Some(views(v@)),
        None => None,
    }
}

/// What a lookup of `q` followed by a query around the match answers.
pub open spec fn query_tool_answers(
    vg: &VaultGraph,
    q: Seq<char>,
    depth: u32,
    dir: TraversalDirection,
    fv: Option<Seq<Seq<char>>>,
    f: Format,
    hint: bool,
    res: ToolPlan,
) -> bool {
    exists|fz: Result<usize, Vec<String>>| #[trigger] fuzzy_answers(vg, q, fz) && match fz {
        Ok(c) => res matches ToolPlan::Query(r, f2) && f2 == f && query_answers(vg, c, depth, dir, fv, r),
        Err(ts) => fails_with(res, lookup_text(q, views(ts@), hint)),
    }
}

/// What a path search between the nodes `a` and `b` name answers.
pub open spec fn bridge_tool_answers(vg: &VaultGraph, a: Seq<char>, b: Seq<char>, f: Format, res: ToolPlan) -> bool {
    exists|fa: Result<usize, Vec<String>>| #[trigger] fuzzy_answers(vg, a, fa) && match fa {
        Err(ts) => fails_with(res, lookup_text(a, views(ts@), false)),
        Ok(x) => exists|fb: Result<usize, Vec<String>>| #[trigger] fuzzy_answers(vg, b, fb) && match fb {
            Err(ts) => fails_with(res, lookup_text(b, views(ts@), false)),
            Ok(y) => (res matches ToolPlan::Bridge(x2, y2, p, f2) && x2 == x && y2 == y && f2 == f && bridge_answers(vg, x, y, Some(p))) || (
            bridge_answers(vg, x, y, None) && fails_with(res, no_path_text(a, b))),
        },
    }
}

/// What the runtime-edge listing around the node `q` names answers.
pub open spec fn cross_tool_answers(vg: &VaultGraph, q: Seq<char>, f: Format, res: ToolPlan) -> bool {
    exists|fz: Result<usize, Vec<String>>| #[trigger] fuzzy_answers(vg, q, fz) && match fz {
        Ok(c) => res matches ToolPlan::CrossService(sel, f2) && f2 == f && runtime_answers(vg, Some(c), sel@),
        Err(ts) => fails_with(res, lookup_text(q, views(ts@), false)),
    }
}

/// What a tool call answers, by tool name. Reports default to JSON.
pub open spec fn tool_answers(vg: &VaultGraph, cfg: Config, name: Seq<char>, args: ToolArgs, res: ToolPlan) -> bool {
    let f = format_arg(args, Format::Json);
    let max = cfg.display.max_depth;
    if name == "describe"@ {
        res == ToolPlan::Describe(f)
    } else if name == "query"@ {
        match args.node {
            None => fails_with(res, missing_text("node"@)),
            Some(q) => query_tool_answers(
                vg,
                q@,
                tool_depth(args.depth, 1, max),
                direction_named(opt_view(args.direction)),
                opt_fields_view(args.fields),
                f,
                true,
                res,
            ),
        }
    } else if name == "orphans"@ {
        res matches ToolPlan::Orphans(os, f2) && f2 == f && orphans_answers(vg, os@)
    } else if name == "broken"@ {
        res matches ToolPlan::Broken(bs, f2) && f2 == f && broken_answers(vg, bs@)
    } else if name == "bridge"@ {
        match (args.a, args.b) {
            (None, _) => fails_with(res, missing_text("a"@)),
            (Some(_), None) => fails_with(res, missing_text("b"@)),
            (Some(a), Some(b)) => bridge_tool_answers(vg, a@, b@, f, res),
        }
    } else if name == "centrality"@ {
        res matches ToolPlan::Centrality(cs, f2) && f2 == f && centrality_answers(
            vg,
            (match args.limit {
                Some(l) => l,
                None => 10,
            }) as usize,
            cs@,
        )
    } else if name == "subgraph"@ {
        match args.node {
            None => fails_with(res, missing_text("node"@)),
            Some(q) => query_tool_answers(vg, q@, tool_depth(args.depth, 2, max), TraversalDirection::Both, None, f, false, res),
        }
    } else if name == "cross_service"@ {
        match args.node {
            None => res matches ToolPlan::CrossService(sel, f2) && f2 == f && runtime_answers(vg, None, sel@),
            Some(q) => cross_tool_answers(vg, q@, f, res),
        }
    } else {
        fails_with(res, unknown_tool_text(name))
    }
}

/// The failure for a lookup of `name` that matched no node or several.
fn lookup_failure(name: &str, titles: &Vec<String>, hint: bool) -> (res: ToolPlan)
    ensures
        fails_with(res, lookup_text(name@, views(titles@), hint)),
{
    let mut out = String::new();
    if titles.len() == 0 {
        push_str(&mut out, "{\"error\": \"node '");
        push_str(&mut out, name);
        push_str(&mut out, "' not found\"}");
    } else {
        push_str(&mut out, "{\"error\": \"ambiguous node '");
        push_str(&mut out, name);
        if hint {
            push_str(&mut out, "'. Did you mean: ");
        } else {
            push_str(&mut out, "': ");
        }
        push_joined(&mut out, titles, ", ");
        push_str(&mut out, "}");
    }
    assert(out@ =~= lookup_text(name@, views(titles@), hint));
    ToolPlan::Failed(out)
}

fn missing(arg: &str) -> (res: ToolPlan)
    ensures
        fails_with(res, missing_text(arg@)),
{
    let mut out = String::new();
    push_str(&mut out, "{\"error\": \"missing required argument: ");
    push_str(&mut out, arg);
    push_str(&mut out, "\"}");
    ToolPlan::Failed(out)
}

/// A lookup of `q` followed by a query around the match.
fn query_tool(
    vg: &VaultGraph,
    q: &str,
    depth: u32,
    dir: TraversalDirection,
    fields: Option<&Vec<String>>,
    f: Format,
    hint: bool,
) -> (res: ToolPlan)
    requires
        vg.wf(),
    ensures
        query_tool_answers(vg, q@, depth, dir, crate::query::fields_view(fields), f, hint, res),
{
    let fz = vg.fuzzy_find_node(q);
    proof {
        assert(fuzzy_answers(vg, q@, fz));
    }
    match fz {
        Ok(c) => {
            proof {
                crate::graph::lemma_fuzzy_in_graph(vg, q@, fz);
            }
            let r = query(vg, c, depth, dir, fields);
            ToolPlan::Query(r, f)
        },
        Err(ts) => lookup_failure(q, &ts, hint),
    }
}

/// Decides what the tool `name` called with `args` answers.
pub fn plan_tool(vg: &VaultGraph, config: &Config, name: &str, args: &ToolArgs) -> (res: ToolPlan)
    requires
        vg.wf(),
    ensures
        tool_answers(vg, *config, name@, *args, res),
{
    let f = parse_format(
        match &args.format {
            Some(s) => Some(s.as_str()),
            None => None,
        },
        Format::Json,
    );
    let max = config.display.max_depth;
    if str_equal(name, "describe") {
        ToolPlan::Describe(f)
    } else if str_equal(name, "query") {
        match &args.node {
            None => missing("node"),
            Some(q) => {
                let d: u64 = match args.depth {
                    Some(d) => d,
                    None => 1,
                };
                let depth: u32 = if d <= max as u64 { d as u32 } else { max };
                let dir = parse_direction(
                    match &args.direction {
                        Some(s) => Some(s.as_str()),
                        None => None,
                    },
                );
                let fields = match &args.fields {
                    Some(v) => Some(v),
                    None => None,
                };
                proof {
                    assert(crate::query::fields_view(fields) == opt_fields_view(args.fields));
                }
                query_tool(vg, q.as_str(), depth, dir, fields, f, true)
            },
        }
    } else if str_equal(name, "orphans") {
        ToolPlan::Orphans(orphans(vg), f)
    } else if str_equal(name, "broken") {
        ToolPlan::Broken(broken_links(vg), f)
    } else if str_equal(name, "bridge") {
        match (&args.a, &args.b) {
            (None, _) => missing("a"),
            (Some(_), None) => missing("b"),
            (Some(a), Some(b)) => {
                let fa = vg.fuzzy_find_node(a.as_str());
                proof {
                    assert(fuzzy_answers(vg, a@, fa));
                }
                match fa {
                    Err(ts) => lookup_failure(a.as_str(), &ts, false),
                    Ok(x) => {
                        let fb = vg.fuzzy_find_node(b.as_str());
                        proof {
                            assert(fuzzy_answers(vg, b@, fb));
                            crate::graph::lemma_fuzzy_in_graph(vg, a@, fa);
                        }
                        match fb {
                            Err(ts) => lookup_failure(b.as_str(), &ts, false),
                            Ok(y) => {
                                proof {
                                    crate::graph::lemma_fuzzy_in_graph(vg, b@, fb);
                                }
                                let p = bridge(vg, x, y);
                                match p {
                                    Some(path) => ToolPlan::Bridge(x, y, path, f),
                                    None => {
                                        let mut out = String::new();
                                        push_str(&mut out, "{\"error\": \"no path found between '");
                                        push_str(&mut out, a.as_str());
                                        push_str(&mut out, "' and '");
                                        push_str(&mut out, b.as_str());
                                        push_str(&mut out, "'}");
                                        assert(out@ =~= no_path_text(a@, b@));
                                        ToolPlan::Failed(out)
                                    },
                                }
                            },
                        }
                    },
                }
            },
        }
    } else if str_equal(name, "centrality") {
        let limit = (match args.limit {
            Some(l) => l,
            None => 10,
        }) as usize;
        ToolPlan::Centrality(centrality(vg, limit), f)
    } else if str_equal(name, "subgraph") {
        match &args.node {
            None => missing("node"),
            Some(q) => {
                let d: u64 = match args.depth {
                    Some(d) => d,
                    None => 2,
                };
                let depth: u32 = if d <= max as u64 { d as u32 } else { max };
                query_tool(vg, q.as_str(), depth, TraversalDirection::Both, None, f, false)
            },
        }
    } else if str_equal(name, "cross_service") {
        match &args.node {
            None => {
                ToolPlan::CrossService(runtime_edges_touching(vg, None), f)
            },
            Some(q) => {
                let fz = vg.fuzzy_find_node(q.as_str());
                let ghost fzg = fz;
                proof {
                    assert(fuzzy_answers(vg, q@, fz));
                }
                match fz {
                    Ok(c) => {
                        proof {
                            crate::graph::lemma_fuzzy_in_graph(vg, q@, fz);
                        }
                        let r = ToolPlan::CrossService(runtime_edges_touching(vg, Some(c)), f);
                        assert(fuzzy_answers(vg, q@, fzg));
                        r
                    },
                    Err(ts) => {
                        let r = lookup_failure(q.as_str(), &ts, false);
                        assert(fuzzy_answers(vg, q@, fzg));
                        r
                    },
                }
            },
        }
    } else {
        let mut out = String::new();
        push_str(&mut out, "{\"error\": \"unknown tool: ");
        push_str(&mut out, name);
        push_str(&mut out, "}");
        assert(out@ =~= unknown_tool_text(name@));
        ToolPlan::Failed(out)
    }
}

/// One tool the server offers: its name, the arguments it cannot do
/// without, and the depth it runs at when none is asked for.
pub struct ToolEntry {
    pub name: String,
    pub required: Vec<String>,
    pub default_depth: Option<u64>,
}

/// A catalogue entry as plain values.
pub open spec fn entry_view(e: ToolEntry) -> (Seq<char>, Seq<Seq<char>>, Option<u64>) {
    (e.name@, views(e.required@), e.default_depth)
}

/// The tools the server offers, in the order it lists them.
pub open spec fn tool_catalogue() -> Seq<(Seq<char>, Seq<Seq<char>>, Option<u64>)> {
    seq![
        ("describe"@, seq![], None),
        ("query"@, seq!["node"@], Some(1u64)),
        ("orphans"@, seq![], None),
        ("broken"@, seq![], None),
        ("bridge"@, seq!["a"@, "b"@], None),
        ("centrality"@, seq![], None),
        ("subgraph"@, seq!["node"@], Some(2u64)),
        ("cross_service"@, seq![], None),
    ]
}

fn entry(name: &str, required: Vec<String>, default_depth: Option<u64>) -> (e: ToolEntry)
    ensures
        entry_view(e) == (name@, views(required@), default_depth),
{
    ToolEntry { name: name.to_owned(), required, default_depth }
}

/// The tool catalogue, for the server to list.
pub fn tool_catalogue_entries() -> (res: Vec<ToolEntry>)
    ensures
        res@.len() == tool_catalogue().len(),
        forall|i: int| 0 <= i < res@.len() ==> entry_view(#[trigger] res@[i]) == tool_catalogue()[i],
{
    let mut v: Vec<ToolEntry> = Vec::new();
    v.push(entry("describe", Vec::new(), None));
    v.push(entry("query", vec!["node".to_owned()], Some(1)));
    v.push(entry("orphans", Vec::new(), None));
    v.push(entry("broken", Vec::new(), None));
    v.push(entry("bridge", vec!["a".to_owned(), "b".to_owned()], None));
    v.push(entry("centrality", Vec::new(), None));
    v.push(entry("subgraph", vec!["node".to_owned()], Some(2)));
    v.push(entry("cross_service", Vec::new(), None));
    proof {
        assert forall|i: int| 0 <= i < v@.len() implies entry_view(#[trigger] v@[i]) == tool_catalogue()[i] by {
            assert(views(Seq::<String>::empty()) =~= Seq::<Seq<char>>::empty());
        }
    }
    v
}

/// Whether `args` carries the argument named `arg`.
pub open spec fn has_arg(args: ToolArgs, arg: Seq<char>) -> bool {
    if arg == "node"@ {
        args.node is Some
    } else if arg == "a"@ {
        args.a is Some
    } else if arg == "b"@ {
        args.b is Some
    } else {
        true
    }
}

/// The twelfth character of a failure's text (the first letter of its
/// message), or a space for a plan that is no failure.
pub open spec fn failure_head(res: ToolPlan) -> char {
    match res {
        ToolPlan::Failed(m) => if m@.len() > 11 { m@[11] } else { ' ' },
        _ => ' ',
    }
}

/// The names of the catalogue's tools.
pub open spec fn tool_names() -> Seq<Seq<char>> {
    tool_catalogue().map_values(|e: (Seq<char>, Seq<Seq<char>>, Option<u64>)| e.0)
}

proof fn lemma_text_heads()
    ensures
        forall|name: Seq<char>| #![trigger unknown_tool_text(name)] unknown_tool_text(name).len() > 11 && unknown_tool_text(name)[11] == 'u',
        forall|arg: Seq<char>| #![trigger missing_text(arg)] missing_text(arg).len() > 11 && missing_text(arg)[11] == 'm',
        forall|q: Seq<char>, ts: Seq<Seq<char>>, hint: bool| #![trigger lookup_text(q, ts, hint)]
            lookup_text(q, ts, hint).len() > 11 && lookup_text(q, ts, hint)[11] != 'u' && lookup_text(q, ts, hint)[11] != 'm',
        forall|a: Seq<char>, b: Seq<char>| #![trigger no_path_text(a, b)] no_path_text(a, b).len() > 11 && no_path_text(a, b)[11] == 'n',
{
    reveal_strlit("{\"error\": \"unknown tool: ");
    reveal_strlit("{\"error\": \"missing required argument: ");
    reveal_strlit("{\"error\": \"node '");
    reveal_strlit("{\"error\": \"ambiguous node '");
    reveal_strlit("{\"error\": \"no path found between '");
}

proof fn lemma_catalogue_literals()
    ensures
        tool_names() == seq!["describe"@, "query"@, "orphans"@, "broken"@, "bridge"@, "centrality"@, "subgraph"@, "cross_service"@],
        "describe"@.len() == 8 && "query"@.len() == 5 && "orphans"@.len() == 7 && "broken"@.len() == 6,
        "bridge"@.len() == 6 && "centrality"@.len() == 10 && "subgraph"@.len() == 8 && "cross_service"@.len() == 13,
        "describe"@[0] == 'd' && "broken"@[1] == 'r' && "bridge"@[1] == 'r' && "broken"@[2] == 'o' && "bridge"@[2] == 'i',
        "subgraph"@[0] == 's',
        "node"@.len() == 4 && "a"@.len() == 1 && "b"@.len() == 1 && "a"@[0] == 'a' && "b"@[0] == 'b',
{
    reveal_strlit("describe");
    reveal_strlit("query");
    reveal_strlit("orphans");
    reveal_strlit("broken");
    reveal_strlit("bridge");
    reveal_strlit("centrality");
    reveal_strlit("subgraph");
    reveal_strlit("cross_service");
    reveal_strlit("node");
    reveal_strlit("a");
    reveal_strlit("b");
    assert(tool_names() =~= seq!["describe"@, "query"@, "orphans"@, "broken"@, "bridge"@, "centrality"@, "subgraph"@, "cross_service"@]);
}

/// A call is answered as an unknown tool exactly when the catalogue does not
/// list the name: every listed tool is dispatched, whatever its arguments.
pub proof fn lemma_unknown_exactly_outside_catalogue(vg: &VaultGraph, cfg: Config, name: Seq<char>, args: ToolArgs, res: ToolPlan)
    requires
        tool_answers(vg, cfg, name, args, res),
    ensures
        fails_with(res, unknown_tool_text(name)) <==> !tool_names().contains(name),
{
    lemma_text_heads();
    lemma_catalogue_literals();
    if tool_names().contains(name) {
        let i = choose|i: int| 0 <= i < tool_names().len() && tool_names()[i] == name;
        assert(failure_head(res) != 'u');
        assert(unknown_tool_text(name)[11] == 'u');
    } else {
        assert(name != tool_names()[0]);
        assert(name != tool_names()[1]);
        assert(name != tool_names()[2]);
        assert(name != tool_names()[3]);
        assert(name != tool_names()[4]);
        assert(name != tool_names()[5]);
        assert(name != tool_names()[6]);
        assert(name != tool_names()[7]);
    }
}

/// A catalogue tool called without one of its required arguments fails with
/// the missing-argument text of the first it lacks; called with all of them,
/// it never fails for a missing argument.
pub proof fn lemma_required_arguments(vg: &VaultGraph, cfg: Config, i: int, args: ToolArgs, res: ToolPlan)
    requires
        0 <= i < tool_catalogue().len(),
        tool_answers(vg, cfg, tool_catalogue()[i].0, args, res),
    ensures
        forall|k: int|
            #![trigger has_arg(args, tool_catalogue()[i].1[k])]
            0 <= k < tool_catalogue()[i].1.len() && !has_arg(args, tool_catalogue()[i].1[k]) && (forall|j: int|
                0 <= j < k ==> #[trigger] has_arg(args, tool_catalogue()[i].1[j])) ==> fails_with(res, missing_text(tool_catalogue()[i].1[k])),
        (forall|k: int| 0 <= k < tool_catalogue()[i].1.len() ==> #[trigger] has_arg(args, tool_catalogue()[i].1[k])) ==> forall|r: Seq<char>|
            !#[trigger] fails_with(res, missing_text(r)),
{
    lemma_text_heads();
    lemma_catalogue_literals();
    let req = tool_catalogue()[i].1;
    assert(tool_names()[i] == tool_catalogue()[i].0);
    if i == 1 || i == 6 {
        assert(req == seq!["node"@]);
        assert(has_arg(args, req[0]) == args.node is Some);
    } else if i == 4 {
        assert(req == seq!["a"@, "b"@]);
        assert("a"@ != "node"@ && "b"@ != "node"@ && "b"@ != "a"@);
        assert(has_arg(args, req[0]) == args.a is Some);
        assert(has_arg(args, req[1]) == args.b is Some);
    } else {
        assert(req.len() == 0);
    }
    assert forall|r: Seq<char>| (forall|k: int| 0 <= k < req.len() ==> #[trigger] has_arg(args, req[k])) implies !#[trigger] fails_with(
        res,
        missing_text(r),
    ) by {
        assert(missing_text(r)[11] == 'm');
        if i == 1 || i == 6 {
            assert(has_arg(args, req[0]));
        } else if i == 4 {
            assert(has_arg(args, req[0]));
            assert(has_arg(args, req[1]));
        }
        assert(failure_head(res) != 'm');
    }
}

/// A catalogue tool with a default depth answers a call without a depth as
/// it answers one asking for that depth; a tool without one ignores the depth.
pub proof fn lemma_default_depth(vg: &VaultGraph, cfg: Config, i: int, args: ToolArgs, d: Option<u64>, res: ToolPlan)
    requires
        0 <= i < tool_catalogue().len(),
        args.depth is None,
        tool_catalogue()[i].2 is Some ==> d == tool_catalogue()[i].2,
    ensures
        tool_answers(vg, cfg, tool_catalogue()[i].0, args, res) == tool_answers(vg, cfg, tool_catalogue()[i].0, ToolArgs { depth: d, ..args }, res),
{
    lemma_catalogue_literals();
    assert(tool_names()[i] == tool_catalogue()[i].0);
}

/// The query tool walks the way its `direction` argument names, whatever
/// else the call holds: up for "up", down for "down", both for anything else
/// or without one; the subgraph tool always walks both ways.
pub proof fn lemma_tool_direction(vg: &VaultGraph, cfg: Config, name: Seq<char>, args: ToolArgs, res: ToolPlan)
    requires
        tool_answers(vg, cfg, name, args, res),
    ensures
        res matches ToolPlan::Query(r, _) ==> {
            &&& name == "query"@ ==> r.direction == (match args.direction {
                Some(d) => if d@ == "up"@ {
                    TraversalDirection::Up
                } else if d@ == "down"@ {
                    TraversalDirection::Down
                } else {
                    TraversalDirection::Both
                },
                None => TraversalDirection::Both,
            })
            &&& name == "subgraph"@ ==> r.direction == TraversalDirection::Both
        },
{
    lemma_catalogue_literals();
    reveal_strlit("subgraph");
    reveal_strlit("query");
}

/// What the server does with one JSON-RPC message.
#[derive(Debug, Clone, Copy, PartialEq, Eq, Structural)]
pub enum RpcAction {
    /// Answer with the server's identity and capabilities.
    Initialize,
    /// Answer with the tool catalogue.
    ListTools,
    /// Run the named tool and answer with its text.
    CallTool,
    /// Answer with an empty result.
    Pong,
    /// Answer nothing (a notification).
    Ignore,
    /// Answer with a "method not found" error.
    UnknownMethod,
}

/// The action for a message with this method; `has_id` tells a request
/// (which is answered) from a notification (which never is).
pub open spec fn rpc_action_of(method: Seq<char>, has_id: bool) -> RpcAction {
    if !has_id {
        RpcAction::Ignore
    } else if method == "initialize"@ {
        RpcAction::Initialize
    } else if method == "notifications/initialized"@ || method == "initialized"@ {
        RpcAction::Ignore
    } else if method == "tools/list"@ {
        RpcAction::ListTools
    } else if method == "tools/call"@ {
        RpcAction::CallTool
    } else if method == "ping"@ {
        RpcAction::Pong
    } else {
        RpcAction::UnknownMethod
    }
}

/// Decides what the server does with a message.
pub fn rpc_action(method: &str, has_id: bool) -> (res: RpcAction)
    ensures
        res == rpc_action_of(method@, has_id),
{
    if !has_id {
        RpcAction::Ignore
    } else if str_equal(method, "initialize") {
        RpcAction::Initialize
    } else if str_equal(method, "notifications/initialized") || str_equal(method, "initialized") {
        RpcAction::Ignore
    } else if str_equal(method, "tools/list") {
        RpcAction::ListTools
    } else if str_equal(method, "tools/call") {
        RpcAction::CallTool
    } else if str_equal(method, "ping") {
        RpcAction::Pong
    } else {
        RpcAction::UnknownMethod
    }
}

} // verus!
