//! Rendering results as text: the plain-text, Mermaid and path-list forms
//! of every report, and the statistics the reports are made from.
use vstd::prelude::*;
use crate::config::Config;
use crate::graph::{RuntimeEdge, VaultGraph, VaultNode, built, lemma_pages_become_nodes, node_view, page_node};
use crate::vault::Page;
use crate::order::{rank_texts, text_ranking};
use crate::query::{QueryResult, ResultEdge, TraversalDirection, result_in_graph, title_of};
use crate::text::{chars_of, dec, digit, push_dec, push_str, str_equal};
use crate::vault::views;

verus! {

/// Output format selection.
#[derive(Debug, Clone, Copy, PartialEq, Eq, Structural)]
pub enum Format {
    Text,
    Json,
    Mermaid,
    Paths,
}

/// The format a name selects: `json`, `mermaid` and `paths` name theirs,
/// anything else selects text.
pub open spec fn format_named(s: Seq<char>) -> Format {
    if s == "json"@ {
        Format::Json
    } else if s == "mermaid"@ {
        Format::Mermaid
    } else if s == "paths"@ {
        Format::Paths
    } else {
        Format::Text
    }
}

impl Format {
    /// The format named `s` (text for an unknown name).
    pub fn from_str(s: &str) -> (res: Format)
        ensures
            res == format_named(s@),
    {
        if str_equal(s, "json") {
            Format::Json
        } else if str_equal(s, "mermaid") {
            Format::Mermaid
        } else if str_equal(s, "paths") {
            Format::Paths
        } else {
            Format::Text
        }
    }
}

/// The format an optional name selects, `default` when there is none.
pub fn parse_format(name: Option<&str>, default: Format) -> (res: Format)
    ensures
        res == match name {
            Some(s) => format_named(s@),
            None => default,
        },
{
    match name {
        Some(s) => Format::from_str(s),
        None => default,
    }
}

/// The direction an optional name selects: `up`, `down`, else both.
pub open spec fn direction_named(name: Option<Seq<char>>) -> TraversalDirection {
    match name {
        Some(s) => if s == "up"@ {
            TraversalDirection::Up
        } else if s == "down"@ {
            TraversalDirection::Down
        } else {
            TraversalDirection::Both
        },
        None => TraversalDirection::Both,
    }
}

/// The traversal direction an optional name selects (both by default).
pub fn parse_direction(name: Option<&str>) -> (res: TraversalDirection)
    ensures
        res == direction_named(match name {
            Some(s) => Some(s@),
            None => None,
        }),
{
    match name {
        Some(s) => if str_equal(s, "up") {
            TraversalDirection::Up
        } else if str_equal(s, "down") {
            TraversalDirection::Down
        } else {
            TraversalDirection::Both
        },
        None => TraversalDirection::Both,
    }
}

/// The heavy rule that frames report headers.
pub open spec fn rule_line() -> Seq<char> {
    "═══════════════════════════════════════\n"@
}

/// `texts` joined with `sep` between neighbours.
pub open spec fn join(texts: Seq<Seq<char>>, sep: Seq<char>) -> Seq<char>
    decreases texts.len(),
{
    if texts.len() == 0 {
        Seq::empty()
    } else if texts.len() == 1 {
        texts[0]
    } else {
        join(texts.drop_last(), sep) + sep + texts.last()
    }
}

/// The number of nodes with a backing page.
pub open spec fn internal_count(ns: Seq<VaultNode>) -> nat
    decreases ns.len(),
{
    if ns.len() == 0 {
        0
    } else {
        internal_count(ns.drop_last()) + if ns.last().external { 0nat } else { 1nat }
    }
}

proof fn lemma_internal_count_bound(ns: Seq<VaultNode>)
    ensures
        internal_count(ns) <= ns.len(),
    decreases ns.len(),
{
    if ns.len() > 0 {
        lemma_internal_count_bound(ns.drop_last());
    }
}

proof fn lemma_internal_count_split(ns: Seq<VaultNode>, n: nat)
    requires
        n <= ns.len(),
        forall|i: int| 0 <= i < n ==> !(#[trigger] ns[i]).external,
        forall|i: int| n <= i < ns.len() ==> (#[trigger] ns[i]).external,
    ensures
        internal_count(ns) == n,
    decreases ns.len(),
{
    if ns.len() > 0 {
        let d = ns.drop_last();
        assert forall|i: int| 0 <= i < d.len() implies d[i] == ns[i] by {}
        if ns.last().external {
            lemma_internal_count_split(d, n);
        } else {
            lemma_internal_count_split(d, (n - 1) as nat);
        }
    }
}

/// The graph counts one internal node per page: every page is a node with
/// a page behind it, and every other node is external.
pub proof fn lemma_internal_nodes_are_pages(vg: &VaultGraph, pages: Seq<Page>, cfg: Config, include_body: bool)
    requires
        vg.state() == built(pages, cfg, include_body),
    ensures
        internal_count(vg.nodes()) == pages.len(),
        vg.nodes().len() - internal_count(vg.nodes()) == vg.nodes().len() - pages.len(),
{
    lemma_pages_become_nodes(pages, cfg, include_body);
    let ns = vg.nodes();
    let b = built(pages, cfg, include_body);
    assert(b.2 == ns.map_values(|n: VaultNode| node_view(n)));
    assert forall|i: int| 0 <= i < pages.len() implies !(#[trigger] ns[i]).external by {
        assert(b.2[i] == node_view(ns[i]));
        assert(b.2[i] == page_node(pages[i], cfg.resolve.title_field@));
    }
    assert forall|i: int| pages.len() <= i < ns.len() implies (#[trigger] ns[i]).external by {
        assert(b.2[i] == node_view(ns[i]));
        assert(b.2[i].2);
    }
    lemma_internal_count_split(ns, pages.len());
}

/// The vault statistics behind `describe`.
pub struct DescribeStats {
    pub total_pages: usize,
    pub pages_with_frontmatter: usize,
    pub internal_nodes: usize,
    pub external_nodes: usize,
    pub edges: usize,
    /// The relationship fields, in name order.
    pub fields: Vec<String>,
}

/// `sorted` holds the texts of `texts` in name order.
pub open spec fn in_name_order(texts: Seq<Seq<char>>, sorted: Seq<Seq<char>>) -> bool {
    exists|perm: Seq<int>| #[trigger] text_ranking(texts, perm) && sorted.len() == perm.len() && forall|i: int|
        0 <= i < perm.len() ==> #[trigger] sorted[i] == texts[perm[i]]
}

/// Statistics of the vault graph: pages scanned, pages with frontmatter,
/// nodes with and without a page, edges, and the relationship fields in
/// name order.
pub fn describe_stats(vg: &VaultGraph) -> (res: DescribeStats)
    requires
        vg.wf(),
    ensures
        res.total_pages == vg.total_pages,
        res.pages_with_frontmatter == vg.pages_with_frontmatter,
        res.internal_nodes == internal_count(vg.nodes()),
        res.external_nodes == vg.nodes().len() - internal_count(vg.nodes()),
        res.edges == vg.edges().len(),
        in_name_order(views(vg.fields@), views(res.fields@)),
{
    let n = crate::pgraph::graph_node_count(&vg.graph);
    let mut internal: usize = 0;
    let mut v: usize = 0;
    while v < n
        invariant
            n == vg.nodes().len(),
            v <= n,
            internal == internal_count(vg.nodes().take(v as int)),
            internal <= v,
        decreases n - v,
    {
        proof {
            assert(vg.nodes().take(v + 1).drop_last() =~= vg.nodes().take(v as int));
        }
        if !crate::pgraph::graph_node(&vg.graph, v).external {
            internal = internal + 1;
        }
        v = v + 1;
    }
    assert(vg.nodes().take(n as int) =~= vg.nodes());
    let edges = crate::pgraph::graph_edge_count(&vg.graph);
    let mut texts: Vec<Vec<char>> = Vec::new();
    let mut i: usize = 0;
    while i < vg.fields.len()
        invariant
            i <= vg.fields@.len(),
            texts@.len() == i,
            forall|k: int| 0 <= k < i ==> (#[trigger] texts@[k])@ == vg.fields@[k]@,
        decreases vg.fields@.len() - i,
    {
        texts.push(chars_of(vg.fields[i].as_str()));
        i = i + 1;
    }
    let ghost tv = texts@.map_values(|t: Vec<char>| t@);
    assert(tv =~= views(vg.fields@));
    let order = rank_texts(&texts);
    let mut fields: Vec<String> = Vec::new();
    let mut t: usize = 0;
    while t < order.len()
        invariant
            text_ranking(tv, order@.map_values(|k: usize| k as int)),
            tv == views(vg.fields@),
            t <= order@.len(),
            fields@.len() == t,
            forall|k: int| 0 <= k < t ==> (#[trigger] fields@[k])@ == tv[order@[k] as int],
        decreases order@.len() - t,
    {
        let k = order[t];
        assert(order@.map_values(|k: usize| k as int)[t as int] == k as int);
        fields.push(vg.fields[k].clone());
        t = t + 1;
    }
    proof {
        let perm = order@.map_values(|k: usize| k as int);
        assert(views(fields@).len() == perm.len());
        assert forall|i: int| 0 <= i < perm.len() implies #[trigger] views(fields@)[i] == tv[perm[i]] by {
            assert(fields@[i]@ == tv[order@[i] as int]);
        }
        assert(text_ranking(tv, perm));
    }
    DescribeStats {
        total_pages: vg.total_pages,
        pages_with_frontmatter: vg.pages_with_frontmatter,
        internal_nodes: internal,
        external_nodes: n - internal,
        edges,
        fields,
    }
}

/// Appends `texts` joined with `sep`.
pub fn push_joined(out: &mut String, texts: &Vec<String>, sep: &str)
    ensures
        final(out)@ == old(out)@ + join(views(texts@), sep@),
{
    let ghost start = out@;
    let mut i: usize = 0;
    while i < texts.len()
        invariant
            i <= texts@.len(),
            out@ == start + join(views(texts@).take(i as int), sep@),
        decreases texts@.len() - i,
    {
        let ghost prev = views(texts@).take(i as int);
        if i > 0 {
            push_str(out, sep);
        }
        push_str(out, texts[i].as_str());
        proof {
            let cur = views(texts@).take(i + 1);
            assert(cur.drop_last() =~= prev);
            assert(cur.last() == texts@[i as int]@);
            if i == 0 {
                assert(prev =~= Seq::<Seq<char>>::empty());
                assert(cur.len() == 1);
            }
        }
        i = i + 1;
    }
    assert(views(texts@).take(texts@.len() as int) =~= views(texts@));
    assert(start + join(Seq::<Seq<char>>::empty(), sep@) =~= start);
}

/// The fields line of `describe`: the names joined by commas, or `(none)`.
pub open spec fn fields_text(fields: Seq<Seq<char>>) -> Seq<char> {
    if fields.len() == 0 {
        "(none)"@
    } else {
        join(fields, ", "@)
    }
}

/// The text of `describe`, with the coverage percentage already rendered.
pub open spec fn describe_text(st: DescribeStats, coverage: Seq<char>) -> Seq<char> {
    rule_line() + "  Vault Statistics\n"@ + "═══════════════════════════════════════\n\n"@ + "  Pages scanned:      "@ + dec(st.total_pages as nat) + "\n"@
        + "  Frontmatter coverage: "@ + coverage + "%\n"@ + "  Graph nodes:        "@ + dec(st.internal_nodes as nat) + " internal + "@
        + dec(st.external_nodes as nat) + " external\n"@ + "  Graph edges:        "@ + dec(st.edges as nat) + "\n"@
        + "  Relationship fields: "@ + fields_text(views(st.fields@)) + "\n"@
}

/// Renders the vault statistics; `coverage` is the frontmatter coverage,
/// already rendered as a whole percentage.
pub fn format_describe_text(st: &DescribeStats, coverage: &str) -> (res: String)
    ensures
        res@ == describe_text(*st, coverage@),
{
    let mut out = String::new();
    push_str(&mut out, "═══════════════════════════════════════\n");
    push_str(&mut out, "  Vault Statistics\n");
    push_str(&mut out, "═══════════════════════════════════════\n\n");
    push_str(&mut out, "  Pages scanned:      ");
    push_dec(&mut out, st.total_pages as u64);
    push_str(&mut out, "\n");
    push_str(&mut out, "  Frontmatter coverage: ");
    push_str(&mut out, coverage);
    push_str(&mut out, "%\n");
    push_str(&mut out, "  Graph nodes:        ");
    push_dec(&mut out, st.internal_nodes as u64);
    push_str(&mut out, " internal + ");
    push_dec(&mut out, st.external_nodes as u64);
    push_str(&mut out, " external\n");
    push_str(&mut out, "  Graph edges:        ");
    push_dec(&mut out, st.edges as u64);
    push_str(&mut out, "\n");
    push_str(&mut out, "  Relationship fields: ");
    let ghost before = out@;
    let fs = &st.fields;
    if fs.len() == 0 {
        push_str(&mut out, "(none)");
    } else {
        let mut i: usize = 0;
        while i < fs.len()
            invariant
                fs@.len() > 0,
                i <= fs@.len(),
                out@ == before + join(views(fs@).take(i as int), ", "@),
            decreases fs@.len() - i,
        {
            let ghost prev = views(fs@).take(i as int);
            if i > 0 {
                push_str(&mut out, ", ");
            }
            push_str(&mut out, fs[i].as_str());
            proof {
                let cur = views(fs@).take(i + 1);
                assert(cur.drop_last() =~= prev);
                assert(cur.last() == fs@[i as int]@);
                if i == 0 {
                    assert(prev =~= Seq::<Seq<char>>::empty());
                    assert(cur.len() == 1);
                }
            }
            i = i + 1;
        }
        assert(views(fs@).take(fs@.len() as int) =~= views(fs@));
    }
    push_str(&mut out, "\n");
    out
}


/// Whether node `v` has no backing page.
pub open spec fn is_external(vg: &VaultGraph, v: usize) -> bool {
    vg.nodes()[v as int].external
}

/// The marker after an edge whose target has no page.
pub open spec fn external_mark(vg: &VaultGraph, v: usize) -> Seq<char> {
    if is_external(vg, v) {
        "  ⚠ external"@
    } else {
        Seq::empty()
    }
}

/// One edge of a query result: `  source ──[field]──▶ target`.
pub open spec fn edge_line(vg: &VaultGraph, e: ResultEdge) -> Seq<char> {
    "  "@ + title_of(vg, e.from) + " ──["@ + e.field@ + "]──▶ "@ + title_of(vg, e.to) + external_mark(vg, e.to) + "\n"@
}

/// The lines of the edges at hop `h`, in result order.
pub open spec fn hop_lines(vg: &VaultGraph, es: Seq<ResultEdge>, h: int) -> Seq<char>
    decreases es.len(),
{
    if es.len() == 0 {
        Seq::empty()
    } else {
        hop_lines(vg, es.drop_last(), h) + if es.last().hop == h {
            edge_line(vg, es.last())
        } else {
            Seq::empty()
        }
    }
}

/// The heading of the section for hop `h`.
pub open spec fn hop_heading(h: nat) -> Seq<char> {
    "\n── Hop "@ + dec(h) + " ─────────────────────────────\n"@
}

/// The sections for hops 1 to `k`, each a heading and its edges.
pub open spec fn hop_sections(vg: &VaultGraph, es: Seq<ResultEdge>, k: nat) -> Seq<char>
    decreases k,
{
    if k == 0 {
        Seq::empty()
    } else {
        hop_sections(vg, es, (k - 1) as nat) + hop_heading(k) + hop_lines(vg, es, k as int)
    }
}

/// The largest hop among the edges (0 when there are none).
pub open spec fn max_hop(es: Seq<ResultEdge>) -> nat
    decreases es.len(),
{
    if es.len() == 0 {
        0
    } else if es.last().hop > max_hop(es.drop_last()) {
        es.last().hop as nat
    } else {
        max_hop(es.drop_last())
    }
}

pub open spec fn direction_name(d: TraversalDirection) -> Seq<char> {
    match d {
        TraversalDirection::Up => "up"@,
        TraversalDirection::Down => "down"@,
        TraversalDirection::Both => "both"@,
    }
}

/// The text of a query result: a header with the center, depth, direction
/// and node count, then one section per hop up to the largest.
pub open spec fn query_text(vg: &VaultGraph, r: QueryResult) -> Seq<char> {
    rule_line() + "  "@ + title_of(vg, r.center) + "\n"@ + "  depth="@ + dec(r.depth as nat) + "  direction="@ + direction_name(r.direction)
        + "  nodes="@ + dec(r.nodes@.len()) + "\n"@ + rule_line() + hop_sections(vg, r.edges@, max_hop(r.edges@))
}

/// Appends the title of node `v`.
fn push_title(out: &mut String, vg: &VaultGraph, v: usize)
    requires
        vg.wf(),
        v < vg.nodes().len(),
    ensures
        final(out)@ == old(out)@ + title_of(vg, v),
{
    push_str(out, crate::pgraph::graph_node(&vg.graph, v).title.as_str());
}

fn push_edge_line(out: &mut String, vg: &VaultGraph, e: &ResultEdge)
    requires
        vg.wf(),
        e.from < vg.nodes().len(),
        e.to < vg.nodes().len(),
    ensures
        final(out)@ == old(out)@ + edge_line(vg, *e),
{
    push_str(out, "  ");
    push_title(out, vg, e.from);
    push_str(out, " ──[");
    push_str(out, e.field.as_str());
    push_str(out, "]──▶ ");
    push_title(out, vg, e.to);
    if crate::pgraph::graph_node(&vg.graph, e.to).external {
        push_str(out, "  ⚠ external");
    }
    push_str(out, "\n");
    assert(final(out)@ =~= old(out)@ + edge_line(vg, *e));
}

/// The largest hop among the edges.
fn largest_hop(es: &Vec<ResultEdge>) -> (res: u32)
    ensures
        res == max_hop(es@),
{
    let mut m: u32 = 0;
    let mut i: usize = 0;
    while i < es.len()
        invariant
            i <= es@.len(),
            m == max_hop(es@.take(i as int)),
        decreases es@.len() - i,
    {
        assert(es@.take(i + 1).drop_last() =~= es@.take(i as int));
        if es[i].hop > m {
            m = es[i].hop;
        }
        i = i + 1;
    }
    assert(es@.take(es@.len() as int) =~= es@);
    m
}

/// Renders a query result as text.
pub fn format_query_text(vg: &VaultGraph, result: &QueryResult) -> (res: String)
    requires
        vg.wf(),
        result_in_graph(vg, *result),
    ensures
        res@ == query_text(vg, *result),
{
    let mut out = String::new();
    push_str(&mut out, "═══════════════════════════════════════\n");
    push_str(&mut out, "  ");
    push_title(&mut out, vg, result.center);
    push_str(&mut out, "\n");
    push_str(&mut out, "  depth=");
    push_dec(&mut out, result.depth as u64);
    push_str(&mut out, "  direction=");
    let dir = match result.direction {
        TraversalDirection::Up => "up",
        TraversalDirection::Down => "down",
        TraversalDirection::Both => "both",
    };
    push_str(&mut out, dir);
    push_str(&mut out, "  nodes=");
    push_dec(&mut out, result.nodes.len() as u64);
    push_str(&mut out, "\n");
    push_str(&mut out, "═══════════════════════════════════════\n");
    let ghost header = out@;
    assert(header =~= rule_line() + "  "@ + title_of(vg, result.center) + "\n"@ + "  depth="@ + dec(result.depth as nat) + "  direction="@
        + direction_name(result.direction) + "  nodes="@ + dec(result.nodes@.len()) + "\n"@ + rule_line());
    let es = &result.edges;
    let max = largest_hop(es);
    let mut h: u32 = 0;
    while h < max
        invariant
            vg.wf(),
            result_in_graph(vg, *result),
            es == &result.edges,
            h <= max,
            out@ == header + hop_sections(vg, es@, h as nat),
        decreases max - h,
    {
        let h1 = h + 1;
        push_str(&mut out, "\n── Hop ");
        push_dec(&mut out, h1 as u64);
        push_str(&mut out, " ─────────────────────────────\n");
        let ghost mid = out@;
        assert(mid =~= header + hop_sections(vg, es@, h as nat) + hop_heading(h1 as nat));
        let mut j: usize = 0;
        while j < es.len()
            invariant
                vg.wf(),
                result_in_graph(vg, *result),
                es == &result.edges,
                j <= es@.len(),
                out@ == mid + hop_lines(vg, es@.take(j as int), h1 as int),
            decreases es@.len() - j,
        {
            assert(es@.take(j + 1).drop_last() =~= es@.take(j as int));
            assert(es@.take(j + 1).last() == es@[j as int]);
            if es[j].hop == h1 {
                push_edge_line(&mut out, vg, &es[j]);
            }
            proof {
                assert(out@ =~= mid + hop_lines(vg, es@.take(j + 1), h1 as int));
            }
            j = j + 1;
        }
        assert(es@.take(es@.len() as int) =~= es@);
        assert(out@ =~= header + hop_sections(vg, es@, h1 as nat));
        h = h1;
    }
    out
}


/// The positions of the nodes of a query result in order of first
/// appearance: the center, then each edge's source and target.
pub open spec fn appearance(c: usize, es: Seq<ResultEdge>) -> Seq<usize>
    decreases es.len(),
{
    if es.len() == 0 {
        seq![c]
    } else {
        let p = appearance(c, es.drop_last());
        let e = es.last();
        let p1 = if p.contains(e.from) { p } else { p.push(e.from) };
        if p1.contains(e.to) { p1 } else { p1.push(e.to) }
    }
}

/// Where `v` stands in `s`.
pub open spec fn position(s: Seq<usize>, v: usize) -> int {
    choose|k: int| 0 <= k < s.len() && s[k] == v
}

/// The Mermaid id of the node first met `k`-th: a letter for the first 26,
/// then `N` and the number.
pub open spec fn mermaid_id(k: int) -> Seq<char> {
    if k < 26 {
        seq!["ABCDEFGHIJKLMNOPQRSTUVWXYZ"@[k]]
    } else {
        "N"@ + dec(k as nat)
    }
}

/// The number a string of decimal digits spells.
pub open spec fn digits_value(s: Seq<char>) -> int
    decreases s.len(),
{
    if s.len() == 0 {
        0
    } else {
        digits_value(s.drop_last()) * 10 + (s.last() as int - '0' as int)
    }
}

proof fn lemma_digit_value(d: nat)
    requires
        d < 10,
    ensures
        digit(d) as int - '0' as int == d,
{
    assert('0' as int == 48 && '1' as int == 49 && '2' as int == 50 && '3' as int == 51 && '4' as int == 52);
    assert('5' as int == 53 && '6' as int == 54 && '7' as int == 55 && '8' as int == 56 && '9' as int == 57);
}

/// The decimal form of `n` is a nonempty string of digits that spells `n`.
pub proof fn lemma_dec_spells(n: nat)
    ensures
        dec(n).len() >= 1,
        digits_value(dec(n)) == n,
    decreases n,
{
    if n < 10 {
        let s = dec(n);
        assert(s == seq![digit(n)]);
        assert(s.drop_last() =~= Seq::<char>::empty());
        assert(s.last() == digit(n));
        lemma_digit_value(n);
        assert(digits_value(s) == digits_value(s.drop_last()) * 10 + (s.last() as int - '0' as int));
    } else {
        let s = dec(n);
        lemma_dec_spells(n / 10);
        assert(s == dec(n / 10).push(digit(n % 10)));
        assert(s.drop_last() =~= dec(n / 10));
        assert(s.last() == digit(n % 10));
        lemma_digit_value(n % 10);
        assert(digits_value(s) == digits_value(s.drop_last()) * 10 + (s.last() as int - '0' as int));
        assert((n / 10) * 10 + n % 10 == n) by (nonlinear_arith);
    }
}

/// Mermaid ids tell nodes apart: the nodes met at two different positions
/// get two different ids.
pub proof fn lemma_mermaid_ids_distinct(j: int, k: int)
    requires
        0 <= j,
        0 <= k,
        j != k,
    ensures
        mermaid_id(j) != mermaid_id(k),
{
    reveal_strlit("ABCDEFGHIJKLMNOPQRSTUVWXYZ");
    reveal_strlit("N");
    let alpha = "ABCDEFGHIJKLMNOPQRSTUVWXYZ"@;
    if j < 26 && k < 26 {
        assert(mermaid_id(j)[0] == alpha[j]);
        assert(mermaid_id(k)[0] == alpha[k]);
        assert(alpha[j] != alpha[k]);
    } else if j < 26 {
        lemma_dec_spells(k as nat);
        assert(mermaid_id(j).len() == 1);
    } else if k < 26 {
        lemma_dec_spells(j as nat);
        assert(mermaid_id(k).len() == 1);
    } else {
        lemma_dec_spells(j as nat);
        lemma_dec_spells(k as nat);
        if mermaid_id(j) == mermaid_id(k) {
            assert(mermaid_id(j).skip(1) =~= dec(j as nat));
            assert(mermaid_id(k).skip(1) =~= dec(k as nat));
        }
    }
}

pub open spec fn mermaid_line(vg: &VaultGraph, order: Seq<usize>, e: ResultEdge) -> Seq<char> {
    "  "@ + mermaid_id(position(order, e.from)) + "[\""@ + title_of(vg, e.from) + "\"] -->|"@ + e.field@ + "| "@ + mermaid_id(
        position(order, e.to),
    ) + "[\""@ + title_of(vg, e.to) + "\"]\n"@
}

pub open spec fn mermaid_lines(vg: &VaultGraph, order: Seq<usize>, es: Seq<ResultEdge>) -> Seq<char>
    decreases es.len(),
{
    if es.len() == 0 {
        Seq::empty()
    } else {
        mermaid_lines(vg, order, es.drop_last()) + mermaid_line(vg, order, es.last())
    }
}

/// A query result as a Mermaid flowchart: one line per edge, nodes named
/// by order of first appearance.
pub open spec fn mermaid_text(vg: &VaultGraph, r: QueryResult) -> Seq<char> {
    "graph LR\n"@ + mermaid_lines(vg, appearance(r.center, r.edges@), r.edges@)
}

proof fn lemma_appearance(c: usize, es: Seq<ResultEdge>)
    ensures
        forall|k: int| 0 <= k < es.len() ==> appearance(c, es).contains((#[trigger] es[k]).from) && appearance(c, es).contains(es[k].to),
    decreases es.len(),
{
    if es.len() > 0 {
        let p = appearance(c, es.drop_last());
        lemma_appearance(c, es.drop_last());
        let e = es.last();
        let p1 = if p.contains(e.from) { p } else { p.push(e.from) };
        let p2 = appearance(c, es);
        assert forall|x: usize| p.contains(x) implies p2.contains(x) by {
            let k = choose|k: int| 0 <= k < p.len() && p[k] == x;
            assert(p1[k] == x);
            assert(p2[k] == x);
        }
        assert(p1.contains(e.from)) by {
            if !p.contains(e.from) {
                assert(p1[p.len() as int] == e.from);
            }
        }
        assert(p2.contains(e.from)) by {
            let k = choose|k: int| 0 <= k < p1.len() && p1[k] == e.from;
            assert(p2[k] == e.from);
        }
        assert(p2.contains(e.to)) by {
            if !p1.contains(e.to) {
                assert(p2[p1.len() as int] == e.to);
            }
        }
        assert forall|k: int| 0 <= k < es.len() implies p2.contains((#[trigger] es[k]).from) && p2.contains(es[k].to) by {
            if k < es.len() - 1 {
                assert(es.drop_last()[k] == es[k]);
            }
        }
    }
}

proof fn lemma_position(s: Seq<usize>, k: int)
    requires
        s.no_duplicates(),
        0 <= k < s.len(),
    ensures
        position(s, s[k]) == k,
{
    let j = position(s, s[k]);
}

/// The id of the node first met `k`-th.
fn push_mermaid_id(out: &mut String, k: usize)
    ensures
        final(out)@ == old(out)@ + mermaid_id(k as int),
{
    if k < 26 {
        let letters = chars_of("ABCDEFGHIJKLMNOPQRSTUVWXYZ");
        proof {
            reveal_strlit("ABCDEFGHIJKLMNOPQRSTUVWXYZ");
        }
        crate::text::push_char(out, letters[k]);
        assert(final(out)@ =~= old(out)@ + mermaid_id(k as int));
    } else {
        push_str(out, "N");
        push_dec(out, k as u64);
    }
}

/// Renders a query result as a Mermaid flowchart.
#[verifier::spinoff_prover]
#[verifier::rlimit(50)]
pub fn format_query_mermaid(vg: &VaultGraph, result: &QueryResult) -> (res: String)
    requires
        vg.wf(),
        result_in_graph(vg, *result),
    ensures
        res@ == mermaid_text(vg, *result),
{
    let n = crate::pgraph::graph_node_count(&vg.graph);
    let mut ids: Vec<Option<usize>> = Vec::new();
    let mut i: usize = 0;
    while i < n
        invariant
            i <= n,
            ids@.len() == i,
            forall|k: int| 0 <= k < i ==> (#[trigger] ids@[k]) is None,
        decreases n - i,
    {
        ids.push(None);
        i = i + 1;
    }
    let es = &result.edges;
    let c = result.center;
    ids.set(c, Some(0));
    let mut next: usize = 1;
    let ghost mut order: Seq<usize> = seq![c];
    proof {
        assert(es@.take(0) =~= Seq::<ResultEdge>::empty());
        assert(order[0] == c);
        assert forall|v: int| 0 <= v < n && (#[trigger] ids@[v]) is Some implies order.contains(v as usize) by {
            assert(v == c as int);
        }
    }
    let mut j: usize = 0;
    while j < es.len()
        invariant
            vg.wf(),
            result_in_graph(vg, *result),
            es == &result.edges,
            c == result.center,
            n == vg.nodes().len(),
            ids@.len() == n,
            j <= es@.len(),
            order == appearance(c, es@.take(j as int)),
            order.no_duplicates(),
            next == order.len(),
            order.len() <= n,
            forall|k: int| 0 <= k < order.len() ==> (#[trigger] order[k]) < n && ids@[order[k] as int] == Some(k as usize),
            forall|v: int| 0 <= v < n && (#[trigger] ids@[v]) is Some ==> order.contains(v as usize),
        decreases es@.len() - j,
    {
        assert(es@.take(j + 1).drop_last() =~= es@.take(j as int));
        assert(es@.take(j + 1).last() == es@[j as int]);
        let e = &es[j];
        let ends: [usize; 2] = [e.from, e.to];
        let mut t: usize = 0;
        let ghost start = order;
        while t < 2
            invariant
                vg.wf(),
                n == vg.nodes().len(),
                ids@.len() == n,
                e.from < n,
                e.to < n,
                ends@ == seq![e.from, e.to],
                t <= 2,
                order == (if t == 0 { start } else if t == 1 { if start.contains(e.from) { start } else { start.push(e.from) } } else {
                    let p1 = if start.contains(e.from) { start } else { start.push(e.from) };
                    if p1.contains(e.to) { p1 } else { p1.push(e.to) }
                }),
                order.no_duplicates(),
                next == order.len(),
                order.len() <= n,
                forall|k: int| 0 <= k < order.len() ==> (#[trigger] order[k]) < n && ids@[order[k] as int] == Some(k as usize),
                forall|v: int| 0 <= v < n && (#[trigger] ids@[v]) is Some ==> order.contains(v as usize),
            decreases 2 - t,
        {
            let v = ends[t];
            let seen = match ids[v] {
                Some(_) => true,
                None => false,
            };
            if !seen {
                proof {
                    assert(!order.contains(v)) by {
                        if order.contains(v) {
                            let k = choose|k: int| 0 <= k < order.len() && order[k] == v;
                            assert(ids@[order[k] as int] == Some(k as usize));
                        }
                    }
                    assert forall|a: int, b: int| 0 <= a < b < order.push(v).len() implies order.push(v)[a] != order.push(v)[b] by {
                        if b == order.len() {
                            assert(order.contains(order[a]));
                        }
                    }
                    assert forall|k: int| 0 <= k < order.push(v).len() implies (#[trigger] order.push(v)[k]) < n by {
                        if k < order.len() {
                            assert(order[k] < n);
                        }
                    }
                    crate::query::lemma_queue_len(order.push(v), n as int);
                }
                let ghost old_order = order;
                ids.set(v, Some(next));
                proof {
                    order = order.push(v);
                    assert forall|k: int| 0 <= k < order.len() implies (#[trigger] order[k]) < n && ids@[order[k] as int] == Some(k as usize) by {
                        if k < old_order.len() {
                            assert(old_order[k] != v) by {
                                assert(old_order.contains(old_order[k]));
                            }
                        }
                    }
                    assert forall|w: int| 0 <= w < n && (#[trigger] ids@[w]) is Some implies order.contains(w as usize) by {
                        if w != v as int {
                            assert(old_order.contains(w as usize));
                            let k = choose|k: int| 0 <= k < old_order.len() && old_order[k] == w as usize;
                            assert(order[k] == w as usize);
                        } else {
                            assert(order[order.len() - 1] == v);
                        }
                    }
                }
                next = next + 1;
            } else {
                proof {
                    assert(order.contains(v));
                }
            }
            t = t + 1;
        }
        j = j + 1;
    }
    assert(es@.take(es@.len() as int) =~= es@);
    let ghost order_all = order;
    proof {
        lemma_appearance(result.center, es@);
    }
    let mut out = String::new();
    push_str(&mut out, "graph LR\n");
    let mut j: usize = 0;
    while j < es.len()
        invariant
            vg.wf(),
            result_in_graph(vg, *result),
            es == &result.edges,
            order_all == appearance(result.center, es@),
            order_all.no_duplicates(),
            order_all.len() <= n,
            n == vg.nodes().len(),
            ids@.len() == n,
            forall|k: int| 0 <= k < order_all.len() ==> (#[trigger] order_all[k]) < n && ids@[order_all[k] as int] == Some(k as usize),
            forall|v: int| 0 <= v < n && (#[trigger] ids@[v]) is Some ==> order_all.contains(v as usize),
            forall|k: int| 0 <= k < es@.len() ==> order_all.contains((#[trigger] es@[k]).from) && order_all.contains(es@[k].to),
            j <= es@.len(),
            out@ == "graph LR\n"@ + mermaid_lines(vg, order_all, es@.take(j as int)),
        decreases es@.len() - j,
    {
        assert(es@.take(j + 1).drop_last() =~= es@.take(j as int));
        assert(es@.take(j + 1).last() == es@[j as int]);
        let e = &es[j];
        let a = match ids[e.from] {
            Some(k) => k,
            None => 0,
        };
        let b = match ids[e.to] {
            Some(k) => k,
            None => 0,
        };
        proof {
            let ka = choose|k: int| 0 <= k < order_all.len() && order_all[k] == e.from;
            lemma_position(order_all, ka);
            let kb = choose|k: int| 0 <= k < order_all.len() && order_all[k] == e.to;
            lemma_position(order_all, kb);
            assert(a == ka);
            assert(b == kb);
        }
        let ghost before = out@;
        push_str(&mut out, "  ");
        push_mermaid_id(&mut out, a);
        push_str(&mut out, "[\"");
        push_title(&mut out, vg, e.from);
        push_str(&mut out, "\"] -->|");
        push_str(&mut out, e.field.as_str());
        push_str(&mut out, "| ");
        push_mermaid_id(&mut out, b);
        push_str(&mut out, "[\"");
        push_title(&mut out, vg, e.to);
        push_str(&mut out, "\"]\n");
        assert(out@ =~= before + mermaid_line(vg, order_all, *e));
        j = j + 1;
    }
    assert(es@.take(es@.len() as int) =~= es@);
    out
}


/// The path of node `v` followed by a newline, or nothing when it has none.
pub open spec fn path_line(vg: &VaultGraph, v: usize) -> Seq<char> {
    match vg.nodes()[v as int].path {
        Some(p) => p@ + "\n"@,
        None => Seq::empty(),
    }
}

/// The paths of the nodes `vs`, one per line, skipping nodes without one.
pub open spec fn path_lines(vg: &VaultGraph, vs: Seq<usize>) -> Seq<char>
    decreases vs.len(),
{
    if vs.len() == 0 {
        Seq::empty()
    } else {
        path_lines(vg, vs.drop_last()) + path_line(vg, vs.last())
    }
}

fn push_path_line(out: &mut String, vg: &VaultGraph, v: usize)
    requires
        vg.wf(),
        v < vg.nodes().len(),
    ensures
        final(out)@ == old(out)@ + path_line(vg, v),
{
    match &crate::pgraph::graph_node(&vg.graph, v).path {
        Some(p) => {
            push_str(out, p.as_str());
            push_str(out, "\n");
        },
        None => {
            assert(old(out)@ + Seq::<char>::empty() =~= old(out)@);
        },
    }
}

/// The nodes of a query result, in result order.
pub open spec fn result_nodes(r: QueryResult) -> Seq<usize> {
    r.nodes@.map_values(|p: (usize, u32)| p.0)
}

/// Renders the paths of a query result's nodes, one per line.
pub fn format_query_paths(vg: &VaultGraph, result: &QueryResult) -> (res: String)
    requires
        vg.wf(),
        result_in_graph(vg, *result),
    ensures
        res@ == path_lines(vg, result_nodes(*result)),
{
    let mut out = String::new();
    let ghost vs = result_nodes(*result);
    let mut i: usize = 0;
    while i < result.nodes.len()
        invariant
            vg.wf(),
            result_in_graph(vg, *result),
            vs == result_nodes(*result),
            i <= result.nodes@.len(),
            out@ == path_lines(vg, vs.take(i as int)),
        decreases result.nodes@.len() - i,
    {
        assert(vs.take(i + 1).drop_last() =~= vs.take(i as int));
        assert(vs.take(i + 1).last() == result.nodes@[i as int].0);
        push_path_line(&mut out, vg, result.nodes[i].0);
        i = i + 1;
    }
    assert(vs.take(vs.len() as int) =~= vs);
    out
}

/// Renders the paths of the orphan nodes, one per line.
pub fn format_orphans_paths(vg: &VaultGraph, orphans: &Vec<usize>) -> (res: String)
    requires
        vg.wf(),
        forall|i: int| 0 <= i < orphans@.len() ==> (#[trigger] orphans@[i]) < vg.nodes().len(),
    ensures
        res@ == path_lines(vg, orphans@),
{
    let mut out = String::new();
    let mut i: usize = 0;
    while i < orphans.len()
        invariant
            vg.wf(),
            forall|i: int| 0 <= i < orphans@.len() ==> (#[trigger] orphans@[i]) < vg.nodes().len(),
            i <= orphans@.len(),
            out@ == path_lines(vg, orphans@.take(i as int)),
        decreases orphans@.len() - i,
    {
        assert(orphans@.take(i + 1).drop_last() =~= orphans@.take(i as int));
        push_path_line(&mut out, vg, orphans[i]);
        i = i + 1;
    }
    assert(orphans@.take(orphans@.len() as int) =~= orphans@);
    out
}

/// One step of a path: `  i. from ──[field]──▶ to`, numbered from 1.
pub open spec fn step_line(vg: &VaultGraph, i: nat, s: (usize, usize, String)) -> Seq<char> {
    "  "@ + dec(i + 1) + ". "@ + title_of(vg, s.0) + " ──["@ + s.2@ + "]──▶ "@ + title_of(vg, s.1) + "\n"@
}

pub open spec fn step_lines(vg: &VaultGraph, path: Seq<(usize, usize, String)>) -> Seq<char>
    decreases path.len(),
{
    if path.len() == 0 {
        Seq::empty()
    } else {
        step_lines(vg, path.drop_last()) + step_line(vg, (path.len() - 1) as nat, path.last())
    }
}

/// The text of a path between two nodes.
pub open spec fn bridge_text(vg: &VaultGraph, from: usize, to: usize, path: Seq<(usize, usize, String)>) -> Seq<char> {
    if path.len() == 0 {
        title_of(vg, from) + " and "@ + title_of(vg, to) + " are the same node.\n"@
    } else {
        "Path from \""@ + title_of(vg, from) + "\" to \""@ + title_of(vg, to) + "\" ("@ + dec(path.len()) + " hops):\n\n"@ + step_lines(vg, path)
    }
}

/// Renders a path between two nodes.
pub fn format_bridge_text(vg: &VaultGraph, from: usize, to: usize, path: &Vec<(usize, usize, String)>) -> (res: String)
    requires
        vg.wf(),
        from < vg.nodes().len(),
        to < vg.nodes().len(),
        forall|i: int| 0 <= i < path@.len() ==> (#[trigger] path@[i]).0 < vg.nodes().len() && path@[i].1 < vg.nodes().len(),
    ensures
        res@ == bridge_text(vg, from, to, path@),
{
    let mut out = String::new();
    if path.len() == 0 {
        push_title(&mut out, vg, from);
        push_str(&mut out, " and ");
        push_title(&mut out, vg, to);
        push_str(&mut out, " are the same node.\n");
        assert(out@ =~= bridge_text(vg, from, to, path@));
        return out;
    }
    push_str(&mut out, "Path from \"");
    push_title(&mut out, vg, from);
    push_str(&mut out, "\" to \"");
    push_title(&mut out, vg, to);
    push_str(&mut out, "\" (");
    push_dec(&mut out, path.len() as u64);
    push_str(&mut out, " hops):\n\n");
    let ghost head = out@;
    let mut i: usize = 0;
    while i < path.len()
        invariant
            vg.wf(),
            forall|i: int| 0 <= i < path@.len() ==> (#[trigger] path@[i]).0 < vg.nodes().len() && path@[i].1 < vg.nodes().len(),
            i <= path@.len(),
            out@ == head + step_lines(vg, path@.take(i as int)),
        decreases path@.len() - i,
    {
        assert(path@.take(i + 1).drop_last() =~= path@.take(i as int));
        let ghost before = out@;
        let s = &path[i];
        push_str(&mut out, "  ");
        push_dec(&mut out, (i + 1) as u64);
        push_str(&mut out, ". ");
        push_title(&mut out, vg, s.0);
        push_str(&mut out, " ──[");
        push_str(&mut out, s.2.as_str());
        push_str(&mut out, "]──▶ ");
        push_title(&mut out, vg, s.1);
        push_str(&mut out, "\n");
        assert(out@ =~= before + step_line(vg, i as nat, path@[i as int]));
        i = i + 1;
    }
    assert(path@.take(path@.len() as int) =~= path@);
    out
}

/// `n` right-aligned in two columns.
pub open spec fn pad2(n: nat) -> Seq<char> {
    if n < 10 {
        " "@ + dec(n)
    } else {
        dec(n)
    }
}

pub open spec fn centrality_line(vg: &VaultGraph, i: nat, e: (usize, usize)) -> Seq<char> {
    "  "@ + pad2(i + 1) + ". "@ + title_of(vg, e.0) + " (degree: "@ + dec(e.1 as nat) + ")"@ + (if is_external(vg, e.0) {
        " ⚠ external"@
    } else {
        Seq::empty()
    }) + "\n"@
}

pub open spec fn centrality_lines(vg: &VaultGraph, es: Seq<(usize, usize)>) -> Seq<char>
    decreases es.len(),
{
    if es.len() == 0 {
        Seq::empty()
    } else {
        centrality_lines(vg, es.drop_last()) + centrality_line(vg, (es.len() - 1) as nat, es.last())
    }
}

/// The text of a centrality ranking.
pub open spec fn centrality_text(vg: &VaultGraph, es: Seq<(usize, usize)>) -> Seq<char> {
    rule_line() + "  Most Connected Nodes\n"@ + "═══════════════════════════════════════\n\n"@ + centrality_lines(vg, es)
}

/// Renders a centrality ranking.
#[verifier::spinoff_prover]
pub fn format_centrality_text(vg: &VaultGraph, results: &Vec<(usize, usize)>) -> (res: String)
    requires
        vg.wf(),
        forall|i: int| 0 <= i < results@.len() ==> (#[trigger] results@[i]).0 < vg.nodes().len(),
    ensures
        res@ == centrality_text(vg, results@),
{
    let mut out = String::new();
    push_str(&mut out, "═══════════════════════════════════════\n");
    push_str(&mut out, "  Most Connected Nodes\n");
    push_str(&mut out, "═══════════════════════════════════════\n\n");
    let ghost head = out@;
    let mut i: usize = 0;
    while i < results.len()
        invariant
            vg.wf(),
            forall|i: int| 0 <= i < results@.len() ==> (#[trigger] results@[i]).0 < vg.nodes().len(),
            i <= results@.len(),
            out@ == head + centrality_lines(vg, results@.take(i as int)),
        decreases results@.len() - i,
    {
        assert(results@.take(i + 1).drop_last() =~= results@.take(i as int));
        let ghost before = out@;
        let (v, d) = results[i];
        push_str(&mut out, "  ");
        if i + 1 < 10 {
            push_str(&mut out, " ");
        }
        push_dec(&mut out, (i + 1) as u64);
        push_str(&mut out, ". ");
        push_title(&mut out, vg, v);
        push_str(&mut out, " (degree: ");
        push_dec(&mut out, d as u64);
        push_str(&mut out, ")");
        if crate::pgraph::graph_node(&vg.graph, v).external {
            push_str(&mut out, " ⚠ external");
        }
        push_str(&mut out, "\n");
        assert(out@ =~= before + centrality_line(vg, i as nat, results@[i as int]));
        i = i + 1;
    }
    assert(results@.take(results@.len() as int) =~= results@);
    out
}

/// The path of node `v`, or nothing.
pub open spec fn path_or_empty(vg: &VaultGraph, v: usize) -> Seq<char> {
    match vg.nodes()[v as int].path {
        Some(p) => p@,
        None => Seq::empty(),
    }
}

pub open spec fn orphan_lines(vg: &VaultGraph, vs: Seq<usize>) -> Seq<char>
    decreases vs.len(),
{
    if vs.len() == 0 {
        Seq::empty()
    } else {
        orphan_lines(vg, vs.drop_last()) + "  "@ + title_of(vg, vs.last()) + " ("@ + path_or_empty(vg, vs.last()) + ")\n"@
    }
}

/// The text of the orphan report.
pub open spec fn orphans_text(vg: &VaultGraph, vs: Seq<usize>) -> Seq<char> {
    if vs.len() == 0 {
        "No orphan pages found.\n"@
    } else {
        "Orphan pages ("@ + dec(vs.len()) + " total):\n\n"@ + orphan_lines(vg, vs)
    }
}

/// Renders the orphan report.
pub fn format_orphans_text(vg: &VaultGraph, orphans: &Vec<usize>) -> (res: String)
    requires
        vg.wf(),
        forall|i: int| 0 <= i < orphans@.len() ==> (#[trigger] orphans@[i]) < vg.nodes().len(),
    ensures
        res@ == orphans_text(vg, orphans@),
{
    let mut out = String::new();
    if orphans.len() == 0 {
        push_str(&mut out, "No orphan pages found.\n");
        assert(out@ =~= orphans_text(vg, orphans@));
        return out;
    }
    push_str(&mut out, "Orphan pages (");
    push_dec(&mut out, orphans.len() as u64);
    push_str(&mut out, " total):\n\n");
    let ghost head = out@;
    let mut i: usize = 0;
    while i < orphans.len()
        invariant
            vg.wf(),
            forall|i: int| 0 <= i < orphans@.len() ==> (#[trigger] orphans@[i]) < vg.nodes().len(),
            i <= orphans@.len(),
            out@ == head + orphan_lines(vg, orphans@.take(i as int)),
        decreases orphans@.len() - i,
    {
        assert(orphans@.take(i + 1).drop_last() =~= orphans@.take(i as int));
        let ghost before = out@;
        let v = orphans[i];
        push_str(&mut out, "  ");
        push_title(&mut out, vg, v);
        push_str(&mut out, " (");
        match &crate::pgraph::graph_node(&vg.graph, v).path {
            Some(p) => push_str(&mut out, p.as_str()),
            None => {},
        }
        push_str(&mut out, ")\n");
        assert(out@ =~= before + "  "@ + title_of(vg, v) + " ("@ + path_or_empty(vg, v) + ")\n"@);
        i = i + 1;
    }
    assert(orphans@.take(orphans@.len() as int) =~= orphans@);
    out
}

pub open spec fn source_lines(vg: &VaultGraph, srcs: Seq<(usize, String)>) -> Seq<char>
    decreases srcs.len(),
{
    if srcs.len() == 0 {
        Seq::empty()
    } else {
        source_lines(vg, srcs.drop_last()) + "      "@ + title_of(vg, srcs.last().0) + " (field: "@ + srcs.last().1@ + ")\n"@
    }
}

pub open spec fn broken_blocks(vg: &VaultGraph, bs: Seq<(usize, Vec<(usize, String)>)>) -> Seq<char>
    decreases bs.len(),
{
    if bs.len() == 0 {
        Seq::empty()
    } else {
        broken_blocks(vg, bs.drop_last()) + "  ⚠ \""@ + title_of(vg, bs.last().0) + "\" referenced by:\n"@ + source_lines(vg, bs.last().1@)
    }
}

/// The text of the broken-link report.
pub open spec fn broken_text(vg: &VaultGraph, bs: Seq<(usize, Vec<(usize, String)>)>) -> Seq<char> {
    if bs.len() == 0 {
        "No broken links found.\n"@
    } else {
        "Broken links ("@ + dec(bs.len()) + " unresolved targets):\n\n"@ + broken_blocks(vg, bs)
    }
}

/// The nodes of a broken-link report belong to the graph.
pub open spec fn broken_in_graph(vg: &VaultGraph, bs: Seq<(usize, Vec<(usize, String)>)>) -> bool {
    forall|i: int| 0 <= i < bs.len() ==> (#[trigger] bs[i]).0 < vg.nodes().len() && forall|j: int|
        0 <= j < bs[i].1@.len() ==> (#[trigger] bs[i].1@[j]).0 < vg.nodes().len()
}

/// Renders the broken-link report.
pub fn format_broken_text(vg: &VaultGraph, broken: &Vec<(usize, Vec<(usize, String)>)>) -> (res: String)
    requires
        vg.wf(),
        broken_in_graph(vg, broken@),
    ensures
        res@ == broken_text(vg, broken@),
{
    let mut out = String::new();
    if broken.len() == 0 {
        push_str(&mut out, "No broken links found.\n");
        assert(out@ =~= broken_text(vg, broken@));
        return out;
    }
    push_str(&mut out, "Broken links (");
    push_dec(&mut out, broken.len() as u64);
    push_str(&mut out, " unresolved targets):\n\n");
    let ghost head = out@;
    let mut i: usize = 0;
    while i < broken.len()
        invariant
            vg.wf(),
            broken_in_graph(vg, broken@),
            i <= broken@.len(),
            out@ == head + broken_blocks(vg, broken@.take(i as int)),
        decreases broken@.len() - i,
    {
        assert(broken@.take(i + 1).drop_last() =~= broken@.take(i as int));
        let (t, srcs) = (&broken[i].0, &broken[i].1);
        assert(broken@[i as int].0 < vg.nodes().len());
        push_str(&mut out, "  ⚠ \"");
        push_title(&mut out, vg, *t);
        push_str(&mut out, "\" referenced by:\n");
        let ghost mid = out@;
        let mut j: usize = 0;
        while j < srcs.len()
            invariant
                vg.wf(),
                broken_in_graph(vg, broken@),
                i < broken@.len(),
                srcs == &broken@[i as int].1,
                j <= srcs@.len(),
                out@ == mid + source_lines(vg, srcs@.take(j as int)),
            decreases srcs@.len() - j,
        {
            assert(srcs@.take(j + 1).drop_last() =~= srcs@.take(j as int));
            assert(broken@[i as int].1@[j as int].0 < vg.nodes().len());
            let ghost before = out@;
            push_str(&mut out, "      ");
            push_title(&mut out, vg, srcs[j].0);
            push_str(&mut out, " (field: ");
            push_str(&mut out, srcs[j].1.as_str());
            push_str(&mut out, ")\n");
            assert(out@ =~= before + "      "@ + title_of(vg, srcs@[j as int].0) + " (field: "@ + srcs@[j as int].1@ + ")\n"@);
            j = j + 1;
        }
        assert(srcs@.take(srcs@.len() as int) =~= srcs@);
        assert(out@ =~= head + broken_blocks(vg, broken@.take(i + 1)));
        i = i + 1;
    }
    assert(broken@.take(broken@.len() as int) =~= broken@);
    out
}

/// A labelled line for an optional attribute, or nothing.
pub open spec fn opt_line(label: Seq<char>, o: Option<String>) -> Seq<char> {
    match o {
        Some(v) => label + v@ + "\n"@,
        None => Seq::empty(),
    }
}

/// The edge line of a runtime edge: `  from ──[type]──▶ to`.
pub open spec fn xedge_head(e: RuntimeEdge) -> Seq<char> {
    "  "@ + e.from@ + " ──["@ + e.edge_type@ + "]──▶ "@ + e.to@ + (if e.external_target {
        "  ⚠ external"@
    } else {
        Seq::empty()
    }) + "\n"@
}

/// The condition line of a runtime edge (`(unconditional)` when it has none).
pub open spec fn condition_line(c: Option<String>) -> Seq<char> {
    "      condition:  "@ + (match c {
        Some(c) => c@,
        None => "(unconditional)"@,
    }) + "\n"@
}

/// One runtime edge: the edge line, then its endpoint (if any), condition
/// and provenance (if any).
pub open spec fn xedge_block(e: RuntimeEdge) -> Seq<char> {
    xedge_head(e) + opt_line("      endpoint:   "@, e.endpoint) + condition_line(e.condition) + opt_line("      provenance: "@, e.provenance)
}

pub open spec fn xedge_blocks(es: Seq<RuntimeEdge>) -> Seq<char>
    decreases es.len(),
{
    if es.len() == 0 {
        Seq::empty()
    } else {
        xedge_blocks(es.drop_last()) + xedge_block(es.last())
    }
}

/// `s` occurs in `t` from position `p` on.
pub open spec fn occurs_at(s: Seq<char>, t: Seq<char>, p: int) -> bool {
    0 <= p && p + s.len() <= t.len() && t.subrange(p, p + s.len()) == s
}

proof fn lemma_blocks_prefix(es: Seq<RuntimeEdge>, n: int)
    requires
        0 <= n <= es.len(),
    ensures
        xedge_blocks(es.take(n)).len() <= xedge_blocks(es).len(),
        xedge_blocks(es).subrange(0, xedge_blocks(es.take(n)).len() as int) == xedge_blocks(es.take(n)),
    decreases es.len(),
{
    if n == es.len() {
        assert(es.take(n) =~= es);
    } else {
        let d = es.drop_last();
        assert(d.take(n) =~= es.take(n));
        lemma_blocks_prefix(d, n);
        assert(xedge_blocks(es) == xedge_blocks(d) + xedge_block(es.last()));
        assert(xedge_blocks(es).subrange(0, xedge_blocks(d).len() as int) =~= xedge_blocks(d));
        assert(xedge_blocks(es).subrange(0, xedge_blocks(es.take(n)).len() as int) =~= xedge_blocks(d).subrange(
            0,
            xedge_blocks(es.take(n)).len() as int,
        ));
    }
}

proof fn lemma_occurs_end(x: Seq<char>, s: Seq<char>)
    ensures
        occurs_at(s, x + s, x.len() as int),
{
    assert((x + s).subrange(x.len() as int, (x.len() + s.len()) as int) =~= s);
}

proof fn lemma_occurs_in_prefix(s: Seq<char>, u: Seq<char>, t: Seq<char>, p: int)
    requires
        occurs_at(s, u, p),
        u.len() <= t.len(),
        t.subrange(0, u.len() as int) == u,
    ensures
        occurs_at(s, t, p),
{
    assert(t.subrange(p, p + s.len()) =~= u.subrange(p, p + s.len()));
}

proof fn lemma_occurs_after(s: Seq<char>, t: Seq<char>, p: int, h: Seq<char>)
    requires
        occurs_at(s, t, p),
    ensures
        occurs_at(s, h + t, h.len() + p),
{
    assert((h + t).subrange(h.len() + p, h.len() + p + s.len()) =~= t.subrange(p, p + s.len()));
}

/// The lines `line(0)`, ..., `line(n - 1)`, one after another.
pub open spec fn concat_lines(n: nat, line: spec_fn(int) -> Seq<char>) -> Seq<char>
    decreases n,
{
    if n == 0 {
        Seq::empty()
    } else {
        concat_lines((n - 1) as nat, line) + line(n - 1)
    }
}

proof fn lemma_concat_occurs(n: nat, line: spec_fn(int) -> Seq<char>, i: int)
    requires
        0 <= i < n,
    ensures
        occurs_at(line(i), concat_lines(n, line), concat_lines(i as nat, line).len() as int),
    decreases n,
{
    let prev = concat_lines((n - 1) as nat, line);
    if i == n - 1 {
        lemma_occurs_end(prev, line(i));
    } else {
        lemma_concat_occurs((n - 1) as nat, line, i);
        assert(concat_lines(n, line).subrange(0, prev.len() as int) =~= prev);
        lemma_occurs_in_prefix(line(i), prev, concat_lines(n, line), concat_lines(i as nat, line).len() as int);
    }
}

proof fn lemma_occurs_within(a: Seq<char>, b: Seq<char>, c: Seq<char>, p: int, q: int)
    requires
        occurs_at(a, b, p),
        occurs_at(b, c, q),
    ensures
        occurs_at(a, c, q + p),
{
    assert(c.subrange(q + p, q + p + a.len()) =~= b.subrange(p, p + a.len()));
}

proof fn lemma_step_lines_concat(vg: &VaultGraph, path: Seq<(usize, usize, String)>, m: nat)
    requires
        m <= path.len(),
    ensures
        step_lines(vg, path.take(m as int)) == concat_lines(m, |k: int| step_line(vg, k as nat, path[k])),
    decreases m,
{
    if m > 0 {
        lemma_step_lines_concat(vg, path, (m - 1) as nat);
        assert(path.take(m as int).drop_last() =~= path.take(m - 1));
    }
}

/// A path of at least one step shows step `i` as the line
/// `  <i + 1>. <source title> ──[<field>]──▶ <target title>`.
pub proof fn lemma_bridge_steps(vg: &VaultGraph, from: usize, to: usize, path: Seq<(usize, usize, String)>, i: int) -> (p: int)
    requires
        0 <= i < path.len(),
    ensures
        occurs_at(
            "  "@ + dec((i + 1) as nat) + ". "@ + title_of(vg, path[i].0) + " ──["@ + path[i].2@ + "]──▶ "@ + title_of(vg, path[i].1) + "\n"@,
            bridge_text(vg, from, to, path),
            p,
        ),
{
    let line = |k: int| step_line(vg, k as nat, path[k]);
    lemma_step_lines_concat(vg, path, path.len());
    assert(path.take(path.len() as int) =~= path);
    lemma_concat_occurs(path.len(), line, i);
    let head = "Path from \""@ + title_of(vg, from) + "\" to \""@ + title_of(vg, to) + "\" ("@ + dec(path.len()) + " hops):\n\n"@;
    let body = step_lines(vg, path);
    assert(bridge_text(vg, from, to, path) == head + body);
    let q = concat_lines(i as nat, line).len() as int;
    lemma_occurs_after(line(i), body, q, head);
    head.len() + q
}

proof fn lemma_centrality_lines_concat(vg: &VaultGraph, es: Seq<(usize, usize)>, m: nat)
    requires
        m <= es.len(),
    ensures
        centrality_lines(vg, es.take(m as int)) == concat_lines(m, |k: int| centrality_line(vg, k as nat, es[k])),
    decreases m,
{
    if m > 0 {
        lemma_centrality_lines_concat(vg, es, (m - 1) as nat);
        assert(es.take(m as int).drop_last() =~= es.take(m - 1));
    }
}

/// A centrality ranking shows entry `i` as the line
/// `  <rank>. <title> (degree: <degree>)`, the rank `i + 1` right-aligned in
/// two columns, marked where the node is external.
pub proof fn lemma_centrality_listing(vg: &VaultGraph, es: Seq<(usize, usize)>, i: int) -> (p: int)
    requires
        0 <= i < es.len(),
    ensures
        occurs_at(
            "  "@ + (if i + 1 < 10 {
                " "@
            } else {
                Seq::<char>::empty()
            }) + dec((i + 1) as nat) + ". "@ + title_of(vg, es[i].0) + " (degree: "@ + dec(es[i].1 as nat) + ")"@ + (if vg.nodes()[es[i].0 as int].external {
                " ⚠ external"@
            } else {
                Seq::<char>::empty()
            }) + "\n"@,
            centrality_text(vg, es),
            p,
        ),
{
    let line = |k: int| centrality_line(vg, k as nat, es[k]);
    lemma_centrality_lines_concat(vg, es, es.len());
    assert(es.take(es.len() as int) =~= es);
    lemma_concat_occurs(es.len(), line, i);
    let head = rule_line() + "  Most Connected Nodes\n"@ + "═══════════════════════════════════════\n\n"@;
    let body = centrality_lines(vg, es);
    assert(centrality_text(vg, es) == head + body);
    let q = concat_lines(i as nat, line).len() as int;
    lemma_occurs_after(line(i), body, q, head);
    assert(line(i) =~= "  "@ + (if i + 1 < 10 {
        " "@
    } else {
        Seq::<char>::empty()
    }) + dec((i + 1) as nat) + ". "@ + title_of(vg, es[i].0) + " (degree: "@ + dec(es[i].1 as nat) + ")"@ + (if vg.nodes()[es[i].0 as int].external {
        " ⚠ external"@
    } else {
        Seq::<char>::empty()
    }) + "\n"@);
    head.len() + q
}

proof fn lemma_max_hop(es: Seq<ResultEdge>)
    ensures
        forall|i: int| 0 <= i < es.len() ==> (#[trigger] es[i]).hop <= max_hop(es),
    decreases es.len(),
{
    if es.len() > 0 {
        lemma_max_hop(es.drop_last());
        assert forall|i: int| 0 <= i < es.len() implies (#[trigger] es[i]).hop <= max_hop(es) by {
            if i < es.len() - 1 {
                assert(es[i] == es.drop_last()[i]);
            }
        }
    }
}

proof fn lemma_hop_lines_concat(vg: &VaultGraph, es: Seq<ResultEdge>, h: int, m: nat)
    requires
        m <= es.len(),
    ensures
        hop_lines(vg, es.take(m as int), h) == concat_lines(
            m,
            |k: int|
                if es[k].hop == h {
                    edge_line(vg, es[k])
                } else {
                    Seq::<char>::empty()
                },
        ),
    decreases m,
{
    if m > 0 {
        lemma_hop_lines_concat(vg, es, h, (m - 1) as nat);
        assert(es.take(m as int).drop_last() =~= es.take(m - 1));
    }
}

proof fn lemma_hop_sections_concat(vg: &VaultGraph, es: Seq<ResultEdge>, k: nat)
    ensures
        hop_sections(vg, es, k) == concat_lines(k, |j: int| hop_heading((j + 1) as nat) + hop_lines(vg, es, j + 1)),
    decreases k,
{
    if k > 0 {
        lemma_hop_sections_concat(vg, es, (k - 1) as nat);
    }
}

/// The text of a query result shows every edge met at hop `h >= 1` as the
/// line `  <source title> ──[<field>]──▶ <target title>` (marked where the
/// target is external), after the heading of hop `h`.
pub proof fn lemma_query_text_edges(vg: &VaultGraph, r: QueryResult, i: int) -> (ps: (int, int))
    requires
        0 <= i < r.edges@.len(),
        r.edges@[i].hop >= 1,
    ensures
        occurs_at("\n── Hop "@ + dec(r.edges@[i].hop as nat) + " ─────────────────────────────\n"@, query_text(vg, r), ps.0),
        occurs_at(
            "  "@ + title_of(vg, r.edges@[i].from) + " ──["@ + r.edges@[i].field@ + "]──▶ "@ + title_of(vg, r.edges@[i].to) + (if vg.nodes()[r.edges@[i].to as int].external {
                "  ⚠ external"@
            } else {
                Seq::<char>::empty()
            }) + "\n"@,
            query_text(vg, r),
            ps.1,
        ),
        ps.0 < ps.1,
{
    let es = r.edges@;
    let e = es[i];
    let h = e.hop as int;
    let lines = |k: int|
        if es[k].hop == h {
            edge_line(vg, es[k])
        } else {
            Seq::<char>::empty()
        };
    lemma_hop_lines_concat(vg, es, h, es.len());
    assert(es.take(es.len() as int) =~= es);
    lemma_concat_occurs(es.len(), lines, i);
    let hl = hop_lines(vg, es, h);
    let q1 = concat_lines(i as nat, lines).len() as int;
    let heading = hop_heading(h as nat);
    let section = heading + hl;
    lemma_occurs_after(edge_line(vg, e), hl, q1, heading);
    lemma_occurs_end(Seq::<char>::empty(), heading);
    assert(Seq::<char>::empty() + heading =~= heading);
    assert(section.subrange(0, heading.len() as int) =~= heading);
    lemma_occurs_in_prefix(heading, heading, section, 0);
    lemma_max_hop(es);
    let kmax = max_hop(es);
    let secs = |j: int| hop_heading((j + 1) as nat) + hop_lines(vg, es, j + 1);
    lemma_hop_sections_concat(vg, es, kmax);
    lemma_concat_occurs(kmax, secs, h - 1);
    assert(secs(h - 1) == section);
    let q2 = concat_lines((h - 1) as nat, secs).len() as int;
    let all = hop_sections(vg, es, kmax);
    lemma_occurs_within(edge_line(vg, e), section, all, heading.len() + q1, q2);
    lemma_occurs_within(heading, section, all, 0, q2);
    let head = rule_line() + "  "@ + title_of(vg, r.center) + "\n"@ + "  depth="@ + dec(r.depth as nat) + "  direction="@ + direction_name(
        r.direction,
    ) + "  nodes="@ + dec(r.nodes@.len()) + "\n"@ + rule_line();
    assert(query_text(vg, r) == head + all);
    lemma_occurs_after(edge_line(vg, e), all, q2 + heading.len() + q1, head);
    lemma_occurs_after(heading, all, q2, head);
    (head.len() + q2, head.len() + q2 + heading.len() + q1)
}

proof fn lemma_orphan_lines_concat(vg: &VaultGraph, vs: Seq<usize>, m: nat)
    requires
        m <= vs.len(),
    ensures
        orphan_lines(vg, vs.take(m as int)) == concat_lines(
            m,
            |k: int| "  "@ + title_of(vg, vs[k]) + " ("@ + path_or_empty(vg, vs[k]) + ")\n"@,
        ),
    decreases m,
{
    if m > 0 {
        lemma_orphan_lines_concat(vg, vs, (m - 1) as nat);
        assert(vs.take(m as int).drop_last() =~= vs.take(m - 1));
    }
}

/// The orphan report shows every listed node as the line
/// `  <title> (<path>)`, its path left empty where it has none.
pub proof fn lemma_orphans_listing(vg: &VaultGraph, vs: Seq<usize>, i: int) -> (p: int)
    requires
        0 <= i < vs.len(),
    ensures
        occurs_at(
            "  "@ + title_of(vg, vs[i]) + " ("@ + (if vg.nodes()[vs[i] as int].path is Some {
                vg.nodes()[vs[i] as int].path->0@
            } else {
                Seq::<char>::empty()
            }) + ")\n"@,
            orphans_text(vg, vs),
            p,
        ),
{
    let line = |k: int| "  "@ + title_of(vg, vs[k]) + " ("@ + path_or_empty(vg, vs[k]) + ")\n"@;
    lemma_orphan_lines_concat(vg, vs, vs.len());
    assert(vs.take(vs.len() as int) =~= vs);
    lemma_concat_occurs(vs.len(), line, i);
    let head = "Orphan pages ("@ + dec(vs.len()) + " total):\n\n"@;
    let body = orphan_lines(vg, vs);
    assert(orphans_text(vg, vs) == head + body);
    let q = concat_lines(i as nat, line).len() as int;
    lemma_occurs_after(line(i), body, q, head);
    head.len() + q
}

proof fn lemma_source_lines_concat(vg: &VaultGraph, srcs: Seq<(usize, String)>, m: nat)
    requires
        m <= srcs.len(),
    ensures
        source_lines(vg, srcs.take(m as int)) == concat_lines(
            m,
            |k: int| "      "@ + title_of(vg, srcs[k].0) + " (field: "@ + srcs[k].1@ + ")\n"@,
        ),
    decreases m,
{
    if m > 0 {
        lemma_source_lines_concat(vg, srcs, (m - 1) as nat);
        assert(srcs.take(m as int).drop_last() =~= srcs.take(m - 1));
    }
}

proof fn lemma_broken_blocks_concat(vg: &VaultGraph, bs: Seq<(usize, Vec<(usize, String)>)>, m: nat)
    requires
        m <= bs.len(),
    ensures
        broken_blocks(vg, bs.take(m as int)) == concat_lines(
            m,
            |k: int| "  ⚠ \""@ + title_of(vg, bs[k].0) + "\" referenced by:\n"@ + source_lines(vg, bs[k].1@),
        ),
    decreases m,
{
    if m > 0 {
        lemma_broken_blocks_concat(vg, bs, (m - 1) as nat);
        assert(bs.take(m as int).drop_last() =~= bs.take(m - 1));
    }
}

/// The broken-link report shows every unresolved target as the line
/// `  ⚠ "<title>" referenced by:`, followed by one line
/// `      <title> (field: <field>)` per page that links to it.
pub proof fn lemma_broken_listing(vg: &VaultGraph, bs: Seq<(usize, Vec<(usize, String)>)>, i: int, j: int) -> (ps: (int, int))
    requires
        0 <= i < bs.len(),
        0 <= j < bs[i].1@.len(),
    ensures
        occurs_at("  ⚠ \""@ + title_of(vg, bs[i].0) + "\" referenced by:\n"@, broken_text(vg, bs), ps.0),
        occurs_at("      "@ + title_of(vg, bs[i].1@[j].0) + " (field: "@ + bs[i].1@[j].1@ + ")\n"@, broken_text(vg, bs), ps.1),
        ps.0 < ps.1,
{
    let srcs = bs[i].1@;
    let sline = |k: int| "      "@ + title_of(vg, srcs[k].0) + " (field: "@ + srcs[k].1@ + ")\n"@;
    lemma_source_lines_concat(vg, srcs, srcs.len());
    assert(srcs.take(srcs.len() as int) =~= srcs);
    lemma_concat_occurs(srcs.len(), sline, j);
    let sl = source_lines(vg, srcs);
    let q1 = concat_lines(j as nat, sline).len() as int;
    let heading = "  ⚠ \""@ + title_of(vg, bs[i].0) + "\" referenced by:\n"@;
    reveal_strlit("\" referenced by:\n");
    let block = heading + sl;
    lemma_occurs_after(sline(j), sl, q1, heading);
    assert(block.subrange(0, heading.len() as int) =~= heading);
    lemma_occurs_end(Seq::<char>::empty(), heading);
    assert(Seq::<char>::empty() + heading =~= heading);
    lemma_occurs_in_prefix(heading, heading, block, 0);
    let bline = |k: int| "  ⚠ \""@ + title_of(vg, bs[k].0) + "\" referenced by:\n"@ + source_lines(vg, bs[k].1@);
    lemma_broken_blocks_concat(vg, bs, bs.len());
    assert(bs.take(bs.len() as int) =~= bs);
    lemma_concat_occurs(bs.len(), bline, i);
    assert(bline(i) == block);
    let q2 = concat_lines(i as nat, bline).len() as int;
    let body = broken_blocks(vg, bs);
    lemma_occurs_within(sline(j), block, body, heading.len() + q1, q2);
    lemma_occurs_within(heading, block, body, 0, q2);
    let head = "Broken links ("@ + dec(bs.len()) + " unresolved targets):\n\n"@;
    assert(broken_text(vg, bs) == head + body);
    lemma_occurs_after(sline(j), body, q2 + heading.len() + q1, head);
    lemma_occurs_after(heading, body, q2, head);
    (head.len() + q2, head.len() + q2 + heading.len() + q1)
}

/// In the listing of runtime edges, every edge shows as its edge line
/// (`  from ──[type]──▶ to`, marked where the target is external), then,
/// right after it, its endpoint line where it names an endpoint, then its
/// condition line (`(unconditional)` where it names none), then its
/// provenance line where it names one.
pub proof fn lemma_xedges_listing(es: Seq<RuntimeEdge>, i: int) -> (p: int)
    requires
        0 <= i < es.len(),
    ensures
            occurs_at(
                "  "@ + es[i].from@ + " ──["@ + es[i].edge_type@ + "]──▶ "@ + es[i].to@ + (if es[i].external_target {
                    "  ⚠ external"@
                } else {
                    Seq::empty()
                }) + "\n"@ + (if es[i].endpoint is Some {
                    "      endpoint:   "@ + es[i].endpoint->0@ + "\n"@
                } else {
                    Seq::empty()
                }) + "      condition:  "@ + (if es[i].condition is Some {
                    es[i].condition->0@
                } else {
                    "(unconditional)"@
                }) + "\n"@ + (if es[i].provenance is Some {
                    "      provenance: "@ + es[i].provenance->0@ + "\n"@
                } else {
                    Seq::empty()
                }),
                xedges_text(es),
                p,
            ),
{
    let e = es[i];
    let block = "  "@ + e.from@ + " ──["@ + e.edge_type@ + "]──▶ "@ + e.to@ + (if e.external_target {
        "  ⚠ external"@
    } else {
        Seq::empty()
    }) + "\n"@ + (match e.endpoint {
        Some(ep) => "      endpoint:   "@ + ep@ + "\n"@,
        None => Seq::empty(),
    }) + "      condition:  "@ + (match e.condition {
        Some(c) => c@,
        None => "(unconditional)"@,
    }) + "\n"@ + (match e.provenance {
        Some(pv) => "      provenance: "@ + pv@ + "\n"@,
        None => Seq::empty(),
    });
    assert(xedge_block(e) =~= block);
    let t = es.take(i + 1);
    assert(t.drop_last() =~= es.take(i));
    assert(t.last() == e);
    let before = xedge_blocks(es.take(i));
    assert(xedge_blocks(t) == before + block);
    let q = before.len() as int;
    lemma_occurs_end(before, block);
    lemma_blocks_prefix(es, i + 1);
    let all = xedge_blocks(es);
    lemma_occurs_in_prefix(block, xedge_blocks(t), all, q);
    let head = rule_line() + "  Cross-service (runtime) edges: "@ + dec(es.len()) + "\n"@ + "═══════════════════════════════════════\n\n"@;
    assert(xedges_text(es) == head + all);
    lemma_occurs_after(block, all, q, head);
    let p = head.len() + q;
    p
}

/// The runtime edges listed by `sel`, in that order.
pub open spec fn selected(vg: &VaultGraph, sel: Seq<usize>) -> Seq<RuntimeEdge> {
    sel.map_values(|k: usize| vg.runtime@[k as int])
}

/// The text of a list of runtime edges.
pub open spec fn xedges_text(es: Seq<RuntimeEdge>) -> Seq<char> {
    rule_line() + "  Cross-service (runtime) edges: "@ + dec(es.len()) + "\n"@ + "═══════════════════════════════════════\n\n"@ + xedge_blocks(es)
}

fn push_opt_line(out: &mut String, label: &str, o: &Option<String>)
    ensures
        final(out)@ == old(out)@ + opt_line(label@, *o),
{
    match o {
        Some(v) => {
            push_str(out, label);
            push_str(out, v.as_str());
            push_str(out, "\n");
            assert(final(out)@ =~= old(out)@ + opt_line(label@, *o));
        },
        None => {
            assert(old(out)@ + Seq::<char>::empty() =~= old(out)@);
        },
    }
}

fn push_xedge_block(out: &mut String, e: &RuntimeEdge)
    ensures
        final(out)@ == old(out)@ + xedge_block(*e),
{
    let ghost start = out@;
    push_str(out, "  ");
    push_str(out, e.from.as_str());
    push_str(out, " ──[");
    push_str(out, e.edge_type.as_str());
    push_str(out, "]──▶ ");
    push_str(out, e.to.as_str());
    if e.external_target {
        push_str(out, "  ⚠ external");
    }
    push_str(out, "\n");
    assert(out@ =~= start + xedge_head(*e));
    let ghost s1 = out@;
    push_opt_line(out, "      endpoint:   ", &e.endpoint);
    let ghost s2 = out@;
    push_str(out, "      condition:  ");
    match &e.condition {
        Some(c) => push_str(out, c.as_str()),
        None => push_str(out, "(unconditional)"),
    }
    push_str(out, "\n");
    assert(out@ =~= s2 + condition_line(e.condition));
    push_opt_line(out, "      provenance: ", &e.provenance);
    assert(final(out)@ =~= old(out)@ + xedge_block(*e));
}

/// Renders the runtime edges listed by `sel` (indices into the runtime layer).
pub fn format_xedges_text(vg: &VaultGraph, sel: &Vec<usize>) -> (res: String)
    requires
        forall|i: int| 0 <= i < sel@.len() ==> (#[trigger] sel@[i]) < vg.runtime@.len(),
    ensures
        res@ == xedges_text(selected(vg, sel@)),
{
    let ghost es = selected(vg, sel@);
    let mut out = String::new();
    push_str(&mut out, "═══════════════════════════════════════\n");
    push_str(&mut out, "  Cross-service (runtime) edges: ");
    push_dec(&mut out, sel.len() as u64);
    push_str(&mut out, "\n");
    push_str(&mut out, "═══════════════════════════════════════\n\n");
    let ghost head = out@;
    let mut i: usize = 0;
    while i < sel.len()
        invariant
            forall|i: int| 0 <= i < sel@.len() ==> (#[trigger] sel@[i]) < vg.runtime@.len(),
            es == selected(vg, sel@),
            i <= sel@.len(),
            out@ == head + xedge_blocks(es.take(i as int)),
        decreases sel@.len() - i,
    {
        assert(es.take(i + 1).drop_last() =~= es.take(i as int));
        let e = &vg.runtime[sel[i]];
        push_xedge_block(&mut out, e);
        assert(es[i as int] == *e);
        i = i + 1;
    }
    assert(es.take(es.len() as int) =~= es);
    out
}

} // verus!
