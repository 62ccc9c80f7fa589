//! The vault graph: one node per page plus one per unresolved link target,
//! one edge per link (two for bidirectional fields).
use vstd::prelude::*;
use vstd::hash_map::StringHashMap;
use petgraph::graph::DiGraph;
use crate::config::{Config, Direction, direction_of, field_allowed, owned};
use crate::pgraph::{
    graph_add_edge, graph_add_node, graph_edges, graph_edges_connecting, graph_new, graph_node,
    graph_nodes, connecting,
};
use crate::resolve::{Resolver, alias_keys, lemma_resolve_in_bound, lowered, resolve_in, stem_keys, title_keys};
use crate::order::{KeyPart, distinct_keys, key_at, key_lt, key_view, sorted_indices};
use crate::text::{chars_of, contains_chars, contains_sub, lowercase, lowercase_of};
use crate::vault::{
    CrossView, FmValue, Page, cross_service_key, field_views, fm_get, link_fields, opt_view, page_aliases, page_cross_edges,
    page_title, page_type, type_key, views, wikilinks,
};

verus! {

/// A node in the vault graph.
pub struct VaultNode {
    /// Display title.
    pub title: String,
    /// Relative path from the vault root (None for external/unresolved nodes).
    pub path: Option<String>,
    /// Whether this node has no backing file in the vault.
    pub external: bool,
    /// The `type` frontmatter field, if present.
    pub node_type: Option<String>,
}

/// An edge in the vault graph.
pub struct VaultEdge {
    /// The frontmatter field that created this edge (e.g., "depends_on").
    pub field: String,
}

/// A node as plain values: (title, path, external, type).
pub type NodeView = (Seq<char>, Option<Seq<char>>, bool, Option<Seq<char>>);

/// An edge as plain values: (source, target, field).
pub type EdgeView = (usize, usize, Seq<char>);

/// The state of graph construction: the lookup index (lower-cased name →
/// node), its keys in insertion order, the nodes, the edges, and the
/// relationship fields in the order they were first met.
pub type BuildState = (Map<Seq<char>, usize>, Seq<Seq<char>>, Seq<NodeView>, Seq<EdgeView>, Seq<Seq<char>>);

pub open spec fn node_view(n: VaultNode) -> NodeView {
    (n.title@, opt_view(n.path), n.external, opt_view(n.node_type))
}

pub open spec fn edge_view(e: (usize, usize, VaultEdge)) -> EdgeView {
    (e.0, e.1, e.2.field@)
}

pub open spec fn empty_state() -> BuildState {
    (Map::empty(), seq![], seq![], seq![], seq![])
}

/// The index with `k` mapped to `v` (replacing any earlier node).
pub open spec fn put(st: BuildState, k: Seq<char>, v: usize) -> BuildState {
    (st.0.insert(k, v), if st.0.contains_key(k) { st.1 } else { st.1.push(k) }, st.2, st.3, st.4)
}

/// The index with `k` mapped to `v` unless `k` is already there.
pub open spec fn put_new(st: BuildState, k: Seq<char>, v: usize) -> BuildState {
    if st.0.contains_key(k) {
        st
    } else {
        put(st, k, v)
    }
}

pub open spec fn put_new_all(st: BuildState, ks: Seq<Seq<char>>, v: usize) -> BuildState
    decreases ks.len(),
{
    if ks.len() == 0 {
        st
    } else {
        put_new_all(put_new(st, ks[0], v), ks.drop_first(), v)
    }
}

pub open spec fn with_node(st: BuildState, n: NodeView) -> BuildState {
    (st.0, st.1, st.2.push(n), st.3, st.4)
}

pub open spec fn with_edge(st: BuildState, a: usize, b: usize, f: Seq<char>) -> BuildState {
    (st.0, st.1, st.2, st.3.push((a, b, f)), st.4)
}

pub open spec fn with_field(st: BuildState, f: Seq<char>) -> BuildState {
    if st.4.contains(f) {
        st
    } else {
        (st.0, st.1, st.2, st.3, st.4.push(f))
    }
}

/// The node of a page: its title, path and type.
pub open spec fn page_node(p: Page, title_field: Seq<char>) -> NodeView {
    (page_title(p, title_field), Some(p.rel_path@), false, page_type(p))
}

/// The node of an unresolved link target.
pub open spec fn external_node(link: Seq<char>) -> NodeView {
    (link, None, true, None)
}

pub open spec fn link_field_name() -> Seq<char> {
    seq!['l', 'i', 'n', 'k']
}

/// Pass 1, from page `i` on: a node per page, indexed by lower-cased title
/// (a later page with the same title takes the key over), then by aliases
/// and stem (the first page keeps those keys).
pub open spec fn pages_pass(pages: Seq<Page>, cfg: Config, st: BuildState, i: nat) -> BuildState
    decreases pages.len() - i,
{
    if i >= pages.len() {
        st
    } else {
        let p = pages[i as int];
        let tf = cfg.resolve.title_field@;
        let s1 = put(with_node(st, page_node(p, tf)), lowercase_of(page_title(p, tf)), i as usize);
        let s2 = put_new_all(s1, lowered(page_aliases(p, cfg.resolve.alias_field@)), i as usize);
        let s3 = put_new(s2, lowercase_of(p.stem@), i as usize);
        pages_pass(pages, cfg, s3, i + 1)
    }
}

/// The node a link leads to, and the state after: the resolved page, else
/// the external node already made for the same lower-cased name, else a
/// new external node.
pub open spec fn target_of(pages: Seq<Page>, cfg: Config, st: BuildState, link: Seq<char>) -> (usize, BuildState) {
    match resolve_in(pages, cfg.resolve.title_field@, cfg.resolve.alias_field@, link) {
        Some(i) => (i, st),
        None => {
            let k = lowercase_of(link);
            if st.0.contains_key(k) {
                (st.0[k], st)
            } else {
                let n = st.2.len() as usize;
                (n, put(with_node(st, external_node(link)), k, n))
            }
        },
    }
}

/// One frontmatter link of page `p` in field `f`: an edge to its target, and
/// one back for a bidirectional field.
pub open spec fn link_step(pages: Seq<Page>, cfg: Config, st: BuildState, p: usize, f: Seq<char>, link: Seq<char>) -> BuildState {
    let (t, s1) = target_of(pages, cfg, st, link);
    let s2 = with_edge(s1, p, t, f);
    if direction_of(cfg.fields.direction@, f) == Direction::Bidirectional {
        with_edge(s2, t, p, f)
    } else {
        s2
    }
}

pub open spec fn links_pass(pages: Seq<Page>, cfg: Config, st: BuildState, p: usize, f: Seq<char>, ls: Seq<Seq<char>>) -> BuildState
    decreases ls.len(),
{
    if ls.len() == 0 {
        st
    } else {
        links_pass(pages, cfg, link_step(pages, cfg, st, p, f, ls[0]), p, f, ls.drop_first())
    }
}

/// The link fields `fs` of page `p`: the fields the configuration allows
/// are recorded and their links followed.
pub open spec fn fields_pass(pages: Seq<Page>, cfg: Config, st: BuildState, p: usize, fs: Seq<(Seq<char>, Seq<Seq<char>>)>) -> BuildState
    decreases fs.len(),
{
    if fs.len() == 0 {
        st
    } else {
        let s1 = if field_allowed(cfg.fields.edges, fs[0].0) {
            links_pass(pages, cfg, with_field(st, fs[0].0), p, fs[0].0, fs[0].1)
        } else {
            st
        };
        fields_pass(pages, cfg, s1, p, fs.drop_first())
    }
}

/// Pass 2, from page `i` on: the frontmatter links of every page.
pub open spec fn fm_pass(pages: Seq<Page>, cfg: Config, st: BuildState, i: nat) -> BuildState
    decreases pages.len() - i,
{
    if i >= pages.len() {
        st
    } else {
        fm_pass(pages, cfg, fields_pass(pages, cfg, st, i as usize, link_fields(pages[i as int].frontmatter@)), i + 1)
    }
}

/// Some edge in `es` goes from `a` to `b`.
pub open spec fn has_edge(es: Seq<EdgeView>, a: usize, b: usize) -> bool {
    exists|i: int| 0 <= i < es.len() && (#[trigger] es[i]).0 == a && es[i].1 == b
}

/// One body link of page `p`: a `link` edge to its target unless an edge
/// from `p` to that target is already there.
pub open spec fn body_step(pages: Seq<Page>, cfg: Config, st: BuildState, p: usize, link: Seq<char>) -> BuildState {
    let (t, s1) = target_of(pages, cfg, st, link);
    if has_edge(s1.3, p, t) {
        s1
    } else {
        with_edge(s1, p, t, link_field_name())
    }
}

pub open spec fn body_links_pass(pages: Seq<Page>, cfg: Config, st: BuildState, p: usize, ls: Seq<Seq<char>>) -> BuildState
    decreases ls.len(),
{
    if ls.len() == 0 {
        st
    } else {
        body_links_pass(pages, cfg, body_step(pages, cfg, st, p, ls[0]), p, ls.drop_first())
    }
}

/// Pass 3, from page `i` on: the body links of every page.
pub open spec fn body_pass(pages: Seq<Page>, cfg: Config, st: BuildState, i: nat) -> BuildState
    decreases pages.len() - i,
{
    if i >= pages.len() {
        st
    } else {
        body_pass(pages, cfg, body_links_pass(pages, cfg, st, i as usize, wikilinks(pages[i as int].body@)), i + 1)
    }
}

/// The graph built from `pages`: pass 1, then pass 2, then (with body links) pass 3.
pub open spec fn built(pages: Seq<Page>, cfg: Config, include_body: bool) -> BuildState {
    let s1 = fm_pass(pages, cfg, pages_pass(pages, cfg, empty_state(), 0), 0);
    if include_body {
        with_field(body_pass(pages, cfg, s1, 0), link_field_name())
    } else {
        s1
    }
}

/// The number of pages with at least one frontmatter field.
pub open spec fn fm_count(pages: Seq<Page>, n: nat) -> nat
    decreases n,
{
    if n == 0 || n > pages.len() {
        0
    } else {
        fm_count(pages, (n - 1) as nat) + if pages[n - 1].frontmatter@.len() > 0 { 1nat } else { 0nat }
    }
}

/// A runtime edge as plain values: (from, to, type, endpoint, condition,
/// provenance, target is external).
pub type RuntimeView = (Seq<char>, Seq<char>, Seq<char>, Option<Seq<char>>, Option<Seq<char>>, Option<Seq<char>>, bool);

/// The runtime edge of page `p` declared by the cross-service edge `e`: its
/// target resolves like a wikilink, to that page's title, or stays as
/// written (an external target).
pub open spec fn runtime_of(pages: Seq<Page>, cfg: Config, p: Page, e: CrossView) -> RuntimeView {
    let tf = cfg.resolve.title_field@;
    let (to, external) = match resolve_in(pages, tf, cfg.resolve.alias_field@, e.0) {
        Some(j) => (page_title(pages[j as int], tf), false),
        None => (e.0, true),
    };
    (page_title(p, tf), to, e.1, e.2, e.3, e.4, external)
}

/// The runtime edges of the first `n` pages, page by page.
pub open spec fn runtime_edges(pages: Seq<Page>, cfg: Config, n: nat) -> Seq<RuntimeView>
    decreases n,
{
    if n == 0 || n > pages.len() {
        seq![]
    } else {
        runtime_edges(pages, cfg, (n - 1) as nat) + page_cross_edges(pages[n - 1]).map_values(
            |e: CrossView| runtime_of(pages, cfg, pages[n - 1], e),
        )
    }
}

/// The properties every state of construction keeps: edges join existing
/// nodes, the index points at existing nodes, and the key list holds each
/// index key once.
pub open spec fn state_ok(st: BuildState) -> bool {
    &&& forall|i: int| 0 <= i < st.3.len() ==> (#[trigger] st.3[i]).0 < st.2.len() && st.3[i].1 < st.2.len()
    &&& forall|k: Seq<char>| #[trigger] st.0.contains_key(k) ==> st.0[k] < st.2.len()
    &&& st.1.no_duplicates()
    &&& forall|k: Seq<char>| st.1.contains(k) <==> #[trigger] st.0.contains_key(k)
    &&& st.4.no_duplicates()
}

} // verus!

verus! {

/// `a` has no more nodes and no more edges than `b`.
pub open spec fn le(a: BuildState, b: BuildState) -> bool {
    a.2.len() <= b.2.len() && a.3.len() <= b.3.len()
}

proof fn lemma_put_new_all_nodes(st: BuildState, ks: Seq<Seq<char>>, v: usize)
    ensures
        put_new_all(st, ks, v).2 == st.2,
        put_new_all(st, ks, v).3 == st.3,
        put_new_all(st, ks, v).4 == st.4,
    decreases ks.len(),
{
    if ks.len() > 0 {
        lemma_put_new_all_nodes(put_new(st, ks[0], v), ks.drop_first(), v);
    }
}

proof fn lemma_pages_pass_len(pages: Seq<Page>, cfg: Config, st: BuildState, i: nat)
    requires
        i <= pages.len(),
    ensures
        pages_pass(pages, cfg, st, i).2.len() == st.2.len() + (pages.len() - i),
        pages_pass(pages, cfg, st, i).3 == st.3,
        pages_pass(pages, cfg, st, i).4 == st.4,
    decreases pages.len() - i,
{
    if i < pages.len() {
        let p = pages[i as int];
        let tf = cfg.resolve.title_field@;
        let s1 = put(with_node(st, page_node(p, tf)), lowercase_of(page_title(p, tf)), i as usize);
        lemma_put_new_all_nodes(s1, lowered(page_aliases(p, cfg.resolve.alias_field@)), i as usize);
        let s2 = put_new_all(s1, lowered(page_aliases(p, cfg.resolve.alias_field@)), i as usize);
        let s3 = put_new(s2, lowercase_of(p.stem@), i as usize);
        lemma_pages_pass_len(pages, cfg, s3, i + 1);
    }
}

proof fn lemma_links_grows(pages: Seq<Page>, cfg: Config, st: BuildState, p: usize, f: Seq<char>, ls: Seq<Seq<char>>)
    ensures
        le(st, links_pass(pages, cfg, st, p, f, ls)),
    decreases ls.len(),
{
    if ls.len() > 0 {
        lemma_links_grows(pages, cfg, link_step(pages, cfg, st, p, f, ls[0]), p, f, ls.drop_first());
    }
}

proof fn lemma_fields_grows(pages: Seq<Page>, cfg: Config, st: BuildState, p: usize, fs: Seq<(Seq<char>, Seq<Seq<char>>)>)
    ensures
        le(st, fields_pass(pages, cfg, st, p, fs)),
    decreases fs.len(),
{
    if fs.len() > 0 {
        let s1 = if field_allowed(cfg.fields.edges, fs[0].0) {
            lemma_links_grows(pages, cfg, with_field(st, fs[0].0), p, fs[0].0, fs[0].1);
            links_pass(pages, cfg, with_field(st, fs[0].0), p, fs[0].0, fs[0].1)
        } else {
            st
        };
        lemma_fields_grows(pages, cfg, s1, p, fs.drop_first());
    }
}

proof fn lemma_fm_grows(pages: Seq<Page>, cfg: Config, st: BuildState, i: nat)
    ensures
        le(st, fm_pass(pages, cfg, st, i)),
    decreases pages.len() - i,
{
    if i < pages.len() {
        let fs = link_fields(pages[i as int].frontmatter@);
        lemma_fields_grows(pages, cfg, st, i as usize, fs);
        lemma_fm_grows(pages, cfg, fields_pass(pages, cfg, st, i as usize, fs), i + 1);
    }
}

proof fn lemma_body_links_grows(pages: Seq<Page>, cfg: Config, st: BuildState, p: usize, ls: Seq<Seq<char>>)
    ensures
        le(st, body_links_pass(pages, cfg, st, p, ls)),
    decreases ls.len(),
{
    if ls.len() > 0 {
        lemma_body_links_grows(pages, cfg, body_step(pages, cfg, st, p, ls[0]), p, ls.drop_first());
    }
}

proof fn lemma_body_grows(pages: Seq<Page>, cfg: Config, st: BuildState, i: nat)
    ensures
        le(st, body_pass(pages, cfg, st, i)),
    decreases pages.len() - i,
{
    if i < pages.len() {
        let ls = wikilinks(pages[i as int].body@);
        lemma_body_links_grows(pages, cfg, st, i as usize, ls);
        lemma_body_grows(pages, cfg, body_links_pass(pages, cfg, st, i as usize, ls), i + 1);
    }
}

/// The nodes of `a` stay in place in `b`, and every node `b` adds is an
/// external one: no path, marked external.
pub open spec fn adds_externals(a: Seq<NodeView>, b: Seq<NodeView>) -> bool {
    &&& a.len() <= b.len()
    &&& forall|i: int| 0 <= i < a.len() ==> #[trigger] b[i] == a[i]
    &&& forall|i: int| a.len() <= i < b.len() ==> (#[trigger] b[i]).2 && b[i].1 is None
}

proof fn lemma_adds_trans(a: Seq<NodeView>, b: Seq<NodeView>, c: Seq<NodeView>)
    requires
        adds_externals(a, b),
        adds_externals(b, c),
    ensures
        adds_externals(a, c),
{
    assert forall|i: int| 0 <= i < a.len() implies #[trigger] c[i] == a[i] by {
        assert(c[i] == b[i]);
    }
    assert forall|i: int| a.len() <= i < c.len() implies (#[trigger] c[i]).2 && c[i].1 is None by {
        if i < b.len() {
            assert(c[i] == b[i]);
        }
    }
}

proof fn lemma_link_step_nodes(pages: Seq<Page>, cfg: Config, st: BuildState, p: usize, f: Seq<char>, link: Seq<char>)
    ensures
        adds_externals(st.2, target_of(pages, cfg, st, link).1.2),
        adds_externals(st.2, link_step(pages, cfg, st, p, f, link).2),
        adds_externals(st.2, body_step(pages, cfg, st, p, link).2),
{
    let t = target_of(pages, cfg, st, link).1;
    assert(adds_externals(st.2, t.2));
}

proof fn lemma_links_nodes(pages: Seq<Page>, cfg: Config, st: BuildState, p: usize, f: Seq<char>, ls: Seq<Seq<char>>)
    ensures
        adds_externals(st.2, links_pass(pages, cfg, st, p, f, ls).2),
        adds_externals(st.2, body_links_pass(pages, cfg, st, p, ls).2),
    decreases ls.len(),
{
    if ls.len() == 0 {
        assert(adds_externals(st.2, st.2));
    } else {
        lemma_link_step_nodes(pages, cfg, st, p, f, ls[0]);
        let s1 = link_step(pages, cfg, st, p, f, ls[0]);
        let b1 = body_step(pages, cfg, st, p, ls[0]);
        lemma_links_nodes(pages, cfg, s1, p, f, ls.drop_first());
        lemma_links_nodes(pages, cfg, b1, p, f, ls.drop_first());
        lemma_adds_trans(st.2, s1.2, links_pass(pages, cfg, s1, p, f, ls.drop_first()).2);
        lemma_adds_trans(st.2, b1.2, body_links_pass(pages, cfg, b1, p, ls.drop_first()).2);
    }
}

proof fn lemma_fields_nodes(pages: Seq<Page>, cfg: Config, st: BuildState, p: usize, fs: Seq<(Seq<char>, Seq<Seq<char>>)>)
    ensures
        adds_externals(st.2, fields_pass(pages, cfg, st, p, fs).2),
    decreases fs.len(),
{
    if fs.len() == 0 {
        assert(adds_externals(st.2, st.2));
    } else {
        let s1 = if field_allowed(cfg.fields.edges, fs[0].0) {
            lemma_links_nodes(pages, cfg, with_field(st, fs[0].0), p, fs[0].0, fs[0].1);
            links_pass(pages, cfg, with_field(st, fs[0].0), p, fs[0].0, fs[0].1)
        } else {
            assert(adds_externals(st.2, st.2));
            st
        };
        lemma_fields_nodes(pages, cfg, s1, p, fs.drop_first());
        lemma_adds_trans(st.2, s1.2, fields_pass(pages, cfg, s1, p, fs.drop_first()).2);
    }
}

proof fn lemma_passes_nodes(pages: Seq<Page>, cfg: Config, st: BuildState, i: nat)
    ensures
        adds_externals(st.2, fm_pass(pages, cfg, st, i).2),
        adds_externals(st.2, body_pass(pages, cfg, st, i).2),
    decreases pages.len() - i,
{
    if i >= pages.len() {
        assert(adds_externals(st.2, st.2));
    } else {
        let fs = link_fields(pages[i as int].frontmatter@);
        let ls = wikilinks(pages[i as int].body@);
        lemma_fields_nodes(pages, cfg, st, i as usize, fs);
        lemma_links_nodes(pages, cfg, st, i as usize, seq![], ls);
        let s1 = fields_pass(pages, cfg, st, i as usize, fs);
        let b1 = body_links_pass(pages, cfg, st, i as usize, ls);
        lemma_passes_nodes(pages, cfg, s1, i + 1);
        lemma_passes_nodes(pages, cfg, b1, i + 1);
        lemma_adds_trans(st.2, s1.2, fm_pass(pages, cfg, s1, i + 1).2);
        lemma_adds_trans(st.2, b1.2, body_pass(pages, cfg, b1, i + 1).2);
    }
}

proof fn lemma_pages_pass_nodes(pages: Seq<Page>, cfg: Config, st: BuildState, i: nat)
    requires
        i <= pages.len(),
        st.2.len() == i,
        forall|j: int| 0 <= j < i ==> #[trigger] st.2[j] == page_node(pages[j], cfg.resolve.title_field@),
    ensures
        pages_pass(pages, cfg, st, i).2.len() == pages.len(),
        forall|j: int| 0 <= j < pages.len() ==> #[trigger] pages_pass(pages, cfg, st, i).2[j] == page_node(pages[j], cfg.resolve.title_field@),
    decreases pages.len() - i,
{
    if i < pages.len() {
        let p = pages[i as int];
        let tf = cfg.resolve.title_field@;
        let s1 = put(with_node(st, page_node(p, tf)), lowercase_of(page_title(p, tf)), i as usize);
        let s2 = put_new_all(s1, lowered(page_aliases(p, cfg.resolve.alias_field@)), i as usize);
        let s3 = put_new(s2, lowercase_of(p.stem@), i as usize);
        lemma_put_new_all_nodes(s1, lowered(page_aliases(p, cfg.resolve.alias_field@)), i as usize);
        assert(s3.2 == st.2.push(page_node(p, tf)));
        lemma_pages_pass_nodes(pages, cfg, s3, i + 1);
    }
}

/// Page `i` becomes node `i`, with its title, path and type; every node
/// after the pages is an external one (marked external, with no path), made
/// for a link that names no page.
pub proof fn lemma_pages_become_nodes(pages: Seq<Page>, cfg: Config, include_body: bool)
    ensures
        pages.len() <= built(pages, cfg, include_body).2.len(),
        forall|i: int| 0 <= i < pages.len() ==> #[trigger] built(pages, cfg, include_body).2[i] == page_node(pages[i], cfg.resolve.title_field@),
        forall|i: int| pages.len() <= i < built(pages, cfg, include_body).2.len() ==> (#[trigger] built(pages, cfg, include_body).2[i]).2
            && built(pages, cfg, include_body).2[i].1 is None,
{
    let s0 = pages_pass(pages, cfg, empty_state(), 0);
    lemma_pages_pass_nodes(pages, cfg, empty_state(), 0);
    let s1 = fm_pass(pages, cfg, s0, 0);
    lemma_passes_nodes(pages, cfg, s0, 0);
    if include_body {
        lemma_passes_nodes(pages, cfg, s1, 0);
        lemma_adds_trans(s0.2, s1.2, body_pass(pages, cfg, s1, 0).2);
    }
    let b = built(pages, cfg, include_body);
    assert(adds_externals(s0.2, b.2));
    assert forall|i: int| 0 <= i < pages.len() implies #[trigger] b.2[i] == page_node(pages[i], cfg.resolve.title_field@) by {
        assert(b.2[i] == s0.2[i]);
    }
}

/// Every edge has a page (an index below `np`) at one end at least, and a
/// field the state lists (or, with `body`, the body-link field).
pub open spec fn edges_placed(st: BuildState, np: nat, body: bool) -> bool {
    forall|i: int| 0 <= i < st.3.len() ==> ((#[trigger] st.3[i]).0 < np || st.3[i].1 < np) && (st.4.contains(st.3[i].2) || (body
        && st.3[i].2 == link_field_name()))
}

proof fn lemma_step_edges(pages: Seq<Page>, cfg: Config, st: BuildState, p: usize, f: Seq<char>, link: Seq<char>, body: bool)
    requires
        edges_placed(st, pages.len(), body),
        p < pages.len(),
    ensures
        st.4.contains(f) ==> edges_placed(link_step(pages, cfg, st, p, f, link), pages.len(), body),
        st.4.contains(f) ==> link_step(pages, cfg, st, p, f, link).4 == st.4,
        body ==> edges_placed(body_step(pages, cfg, st, p, link), pages.len(), body),
        body_step(pages, cfg, st, p, link).4 == st.4,
{
    let (t, s1) = target_of(pages, cfg, st, link);
    assert(s1.3 == st.3 && s1.4 == st.4);
    if st.4.contains(f) {
        let s2 = with_edge(s1, p, t, f);
        assert(edges_placed(s2, pages.len(), body)) by {
            assert forall|i: int| 0 <= i < s2.3.len() implies ((#[trigger] s2.3[i]).0 < pages.len() || s2.3[i].1 < pages.len()) && (s2.4.contains(
                s2.3[i].2,
            ) || (body && s2.3[i].2 == link_field_name())) by {
                if i < st.3.len() {
                    assert(s2.3[i] == st.3[i]);
                }
            }
        }
        if direction_of(cfg.fields.direction@, f) == Direction::Bidirectional {
            let s3 = with_edge(s2, t, p, f);
            assert forall|i: int| 0 <= i < s3.3.len() implies ((#[trigger] s3.3[i]).0 < pages.len() || s3.3[i].1 < pages.len()) && (s3.4.contains(
                s3.3[i].2,
            ) || (body && s3.3[i].2 == link_field_name())) by {
                if i < s2.3.len() {
                    assert(s3.3[i] == s2.3[i]);
                }
            }
        }
    }
    if body && !has_edge(s1.3, p, t) {
        let s2 = with_edge(s1, p, t, link_field_name());
        assert forall|i: int| 0 <= i < s2.3.len() implies ((#[trigger] s2.3[i]).0 < pages.len() || s2.3[i].1 < pages.len()) && (s2.4.contains(
            s2.3[i].2,
        ) || (body && s2.3[i].2 == link_field_name())) by {
            if i < st.3.len() {
                assert(s2.3[i] == st.3[i]);
            }
        }
    }
}

proof fn lemma_links_edges(pages: Seq<Page>, cfg: Config, st: BuildState, p: usize, f: Seq<char>, ls: Seq<Seq<char>>, body: bool)
    requires
        edges_placed(st, pages.len(), body),
        p < pages.len(),
    ensures
        st.4.contains(f) ==> edges_placed(links_pass(pages, cfg, st, p, f, ls), pages.len(), body),
        st.4.contains(f) ==> links_pass(pages, cfg, st, p, f, ls).4 == st.4,
        body ==> edges_placed(body_links_pass(pages, cfg, st, p, ls), pages.len(), body),
        body_links_pass(pages, cfg, st, p, ls).4 == st.4,
    decreases ls.len(),
{
    if ls.len() > 0 {
        lemma_step_edges(pages, cfg, st, p, f, ls[0], body);
        if st.4.contains(f) {
            lemma_links_edges(pages, cfg, link_step(pages, cfg, st, p, f, ls[0]), p, f, ls.drop_first(), body);
        }
        if body {
            lemma_links_edges(pages, cfg, body_step(pages, cfg, st, p, ls[0]), p, f, ls.drop_first(), body);
        } else {
            lemma_body_links_fields(pages, cfg, body_step(pages, cfg, st, p, ls[0]), p, ls.drop_first());
        }
    }
}

proof fn lemma_body_links_fields(pages: Seq<Page>, cfg: Config, st: BuildState, p: usize, ls: Seq<Seq<char>>)
    ensures
        body_links_pass(pages, cfg, st, p, ls).4 == st.4,
    decreases ls.len(),
{
    if ls.len() > 0 {
        let (t, s1) = target_of(pages, cfg, st, ls[0]);
        assert(s1.4 == st.4);
        lemma_body_links_fields(pages, cfg, body_step(pages, cfg, st, p, ls[0]), p, ls.drop_first());
    }
}

proof fn lemma_with_field_contains(st: BuildState, f: Seq<char>)
    ensures
        with_field(st, f).4.contains(f),
        forall|x: Seq<char>| st.4.contains(x) ==> #[trigger] with_field(st, f).4.contains(x),
{
    let w = with_field(st, f);
    if !st.4.contains(f) {
        assert(w.4[st.4.len() as int] == f);
        assert forall|x: Seq<char>| st.4.contains(x) implies #[trigger] w.4.contains(x) by {
            let k = choose|k: int| 0 <= k < st.4.len() && st.4[k] == x;
            assert(w.4[k] == st.4[k]);
        }
    }
}

proof fn lemma_fields_edges(pages: Seq<Page>, cfg: Config, st: BuildState, p: usize, fs: Seq<(Seq<char>, Seq<Seq<char>>)>)
    requires
        edges_placed(st, pages.len(), false),
        p < pages.len(),
    ensures
        edges_placed(fields_pass(pages, cfg, st, p, fs), pages.len(), false),
    decreases fs.len(),
{
    if fs.len() > 0 {
        let s1 = if field_allowed(cfg.fields.edges, fs[0].0) {
            let w = with_field(st, fs[0].0);
            lemma_with_field_contains(st, fs[0].0);
            assert(edges_placed(w, pages.len(), false)) by {
                assert forall|i: int| 0 <= i < w.3.len() implies ((#[trigger] w.3[i]).0 < pages.len() || w.3[i].1 < pages.len()) && (w.4.contains(
                    w.3[i].2,
                ) || (false && w.3[i].2 == link_field_name())) by {
                    assert(st.4.contains(st.3[i].2));
                }
            }
            assert(w.4.contains(fs[0].0));
            lemma_links_edges(pages, cfg, w, p, fs[0].0, fs[0].1, false);
            links_pass(pages, cfg, w, p, fs[0].0, fs[0].1)
        } else {
            st
        };
        lemma_fields_edges(pages, cfg, s1, p, fs.drop_first());
    }
}

proof fn lemma_passes_edges(pages: Seq<Page>, cfg: Config, st: BuildState, i: nat)
    requires
        edges_placed(st, pages.len(), false),
    ensures
        edges_placed(fm_pass(pages, cfg, st, i), pages.len(), false),
        edges_placed(body_pass(pages, cfg, st, i), pages.len(), true),
        body_pass(pages, cfg, st, i).4 == st.4,
    decreases pages.len() - i,
{
    if i < pages.len() {
        let fs = link_fields(pages[i as int].frontmatter@);
        let ls = wikilinks(pages[i as int].body@);
        lemma_fields_edges(pages, cfg, st, i as usize, fs);
        lemma_passes_edges(pages, cfg, fields_pass(pages, cfg, st, i as usize, fs), i + 1);
        assert(edges_placed(st, pages.len(), true));
        lemma_links_edges(pages, cfg, st, i as usize, seq![], ls, true);
        lemma_passes_body(pages, cfg, body_links_pass(pages, cfg, st, i as usize, ls), i + 1);
    } else {
        assert(edges_placed(st, pages.len(), true));
    }
}

proof fn lemma_passes_body(pages: Seq<Page>, cfg: Config, st: BuildState, i: nat)
    requires
        edges_placed(st, pages.len(), true),
    ensures
        edges_placed(body_pass(pages, cfg, st, i), pages.len(), true),
        body_pass(pages, cfg, st, i).4 == st.4,
    decreases pages.len() - i,
{
    if i < pages.len() {
        let ls = wikilinks(pages[i as int].body@);
        lemma_links_edges(pages, cfg, st, i as usize, seq![], ls, true);
        lemma_passes_body(pages, cfg, body_links_pass(pages, cfg, st, i as usize, ls), i + 1);
    }
}

/// Every edge of the graph has a page at one end at least (a link leaves
/// its page; a mirrored edge comes back to it), and its field is one of the
/// relationship fields the graph lists.
pub proof fn lemma_edges_touch_pages(pages: Seq<Page>, cfg: Config, include_body: bool)
    ensures
        forall|i: int| 0 <= i < built(pages, cfg, include_body).3.len() ==> {
            let e = #[trigger] built(pages, cfg, include_body).3[i];
            &&& e.0 < pages.len() || e.1 < pages.len()
            &&& built(pages, cfg, include_body).4.contains(e.2)
        },
{
    let s0 = pages_pass(pages, cfg, empty_state(), 0);
    lemma_pages_pass_len(pages, cfg, empty_state(), 0);
    lemma_passes_edges(pages, cfg, s0, 0);
    let s1 = fm_pass(pages, cfg, s0, 0);
    if include_body {
        lemma_passes_edges(pages, cfg, s1, 0);
        let b = body_pass(pages, cfg, s1, 0);
        let w = with_field(b, link_field_name());
        lemma_with_field_contains(b, link_field_name());
        assert forall|i: int| 0 <= i < w.3.len() implies (#[trigger] w.3[i]).0 < pages.len() || w.3[i].1 < pages.len() by {
            assert(w.3[i] == b.3[i]);
        }
        assert forall|i: int| 0 <= i < w.3.len() implies w.4.contains((#[trigger] w.3[i]).2) by {
            assert(w.3[i] == b.3[i]);
        }
    }
}

/// The number of links in link fields `fs`.
pub open spec fn field_links(fs: Seq<(Seq<char>, Seq<Seq<char>>)>) -> nat
    decreases fs.len(),
{
    if fs.len() == 0 {
        0
    } else {
        fs[0].1.len() + field_links(fs.drop_first())
    }
}

/// The number of frontmatter links of the pages from `i` on.
pub open spec fn fm_links_from(pages: Seq<Page>, i: nat) -> nat
    decreases pages.len() - i,
{
    if i >= pages.len() {
        0
    } else {
        field_links(link_fields(pages[i as int].frontmatter@)) + fm_links_from(pages, i + 1)
    }
}

/// The number of body links of the pages from `i` on.
pub open spec fn body_links_from(pages: Seq<Page>, i: nat) -> nat
    decreases pages.len() - i,
{
    if i >= pages.len() {
        0
    } else {
        wikilinks(pages[i as int].body@).len() + body_links_from(pages, i + 1)
    }
}

/// The body links counted when body links are followed.
pub open spec fn counted_body_links(pages: Seq<Page>, include_body: bool) -> nat {
    if include_body {
        body_links_from(pages, 0)
    } else {
        0
    }
}

/// The bound on the graph's size that the pages and links give (a node per
/// page and per link; two edges per frontmatter link, one per body link)
/// leaves room for the graph's indices and degrees.
pub open spec fn size_fits(pages: Seq<Page>, include_body: bool) -> bool {
    let l = fm_links_from(pages, 0);
    let k = counted_body_links(pages, include_body);
    &&& pages.len() + l + k < u32::MAX
    &&& edge_room(2 * l + k)
}

proof fn lemma_step_size(pages: Seq<Page>, cfg: Config, st: BuildState, p: usize, f: Seq<char>, link: Seq<char>)
    ensures
        link_step(pages, cfg, st, p, f, link).2.len() <= st.2.len() + 1,
        link_step(pages, cfg, st, p, f, link).3.len() <= st.3.len() + 2,
        body_step(pages, cfg, st, p, link).2.len() <= st.2.len() + 1,
        body_step(pages, cfg, st, p, link).3.len() <= st.3.len() + 1,
{
    let (t, s1) = target_of(pages, cfg, st, link);
    assert(s1.2.len() <= st.2.len() + 1 && s1.3 == st.3);
}

proof fn lemma_links_size(pages: Seq<Page>, cfg: Config, st: BuildState, p: usize, f: Seq<char>, ls: Seq<Seq<char>>)
    ensures
        links_pass(pages, cfg, st, p, f, ls).2.len() <= st.2.len() + ls.len(),
        links_pass(pages, cfg, st, p, f, ls).3.len() <= st.3.len() + 2 * ls.len(),
        body_links_pass(pages, cfg, st, p, ls).2.len() <= st.2.len() + ls.len(),
        body_links_pass(pages, cfg, st, p, ls).3.len() <= st.3.len() + ls.len(),
    decreases ls.len(),
{
    if ls.len() > 0 {
        lemma_step_size(pages, cfg, st, p, f, ls[0]);
        lemma_links_size(pages, cfg, link_step(pages, cfg, st, p, f, ls[0]), p, f, ls.drop_first());
        lemma_links_size(pages, cfg, body_step(pages, cfg, st, p, ls[0]), p, f, ls.drop_first());
    }
}

proof fn lemma_fields_size(pages: Seq<Page>, cfg: Config, st: BuildState, p: usize, fs: Seq<(Seq<char>, Seq<Seq<char>>)>)
    ensures
        fields_pass(pages, cfg, st, p, fs).2.len() <= st.2.len() + field_links(fs),
        fields_pass(pages, cfg, st, p, fs).3.len() <= st.3.len() + 2 * field_links(fs),
    decreases fs.len(),
{
    if fs.len() > 0 {
        let s1 = if field_allowed(cfg.fields.edges, fs[0].0) {
            lemma_links_size(pages, cfg, with_field(st, fs[0].0), p, fs[0].0, fs[0].1);
            links_pass(pages, cfg, with_field(st, fs[0].0), p, fs[0].0, fs[0].1)
        } else {
            st
        };
        lemma_fields_size(pages, cfg, s1, p, fs.drop_first());
    }
}

proof fn lemma_passes_size(pages: Seq<Page>, cfg: Config, st: BuildState, i: nat)
    ensures
        fm_pass(pages, cfg, st, i).2.len() <= st.2.len() + fm_links_from(pages, i),
        fm_pass(pages, cfg, st, i).3.len() <= st.3.len() + 2 * fm_links_from(pages, i),
        body_pass(pages, cfg, st, i).2.len() <= st.2.len() + body_links_from(pages, i),
        body_pass(pages, cfg, st, i).3.len() <= st.3.len() + body_links_from(pages, i),
    decreases pages.len() - i,
{
    if i < pages.len() {
        let fs = link_fields(pages[i as int].frontmatter@);
        let ls = wikilinks(pages[i as int].body@);
        lemma_fields_size(pages, cfg, st, i as usize, fs);
        lemma_links_size(pages, cfg, st, i as usize, seq![], ls);
        lemma_passes_size(pages, cfg, fields_pass(pages, cfg, st, i as usize, fs), i + 1);
        lemma_passes_size(pages, cfg, body_links_pass(pages, cfg, st, i as usize, ls), i + 1);
    }
}

/// The graph has at most a node per page and per link it follows, and at
/// most two edges per frontmatter link (one back for a bidirectional field)
/// and one per body link it follows.
pub proof fn lemma_built_size(pages: Seq<Page>, cfg: Config, include_body: bool)
    ensures
        built(pages, cfg, include_body).2.len() <= pages.len() + fm_links_from(pages, 0) + counted_body_links(pages, include_body),
        built(pages, cfg, include_body).3.len() <= 2 * fm_links_from(pages, 0) + counted_body_links(pages, include_body),
{
    let s0 = pages_pass(pages, cfg, empty_state(), 0);
    lemma_pages_pass_len(pages, cfg, empty_state(), 0);
    lemma_passes_size(pages, cfg, s0, 0);
    if include_body {
        lemma_passes_size(pages, cfg, fm_pass(pages, cfg, s0, 0), 0);
    }
}

/// Every external node is what the index gives for its lower-cased title.
pub open spec fn externals_indexed(st: BuildState) -> bool {
    forall|i: int|
        0 <= i < st.2.len() && (#[trigger] st.2[i]).2 ==> st.0.contains_key(lowercase_of(st.2[i].0)) && st.0[lowercase_of(st.2[i].0)]
            == i as usize
}

proof fn lemma_step_indexed(pages: Seq<Page>, cfg: Config, st: BuildState, p: usize, f: Seq<char>, link: Seq<char>)
    requires
        externals_indexed(st),
    ensures
        externals_indexed(target_of(pages, cfg, st, link).1),
        externals_indexed(link_step(pages, cfg, st, p, f, link)),
        externals_indexed(body_step(pages, cfg, st, p, link)),
{
    let (t, s1) = target_of(pages, cfg, st, link);
    if resolve_in(pages, cfg.resolve.title_field@, cfg.resolve.alias_field@, link) is None {
        let k = lowercase_of(link);
        if !st.0.contains_key(k) {
            let n = st.2.len() as usize;
            assert forall|i: int| 0 <= i < s1.2.len() && (#[trigger] s1.2[i]).2 implies s1.0.contains_key(lowercase_of(s1.2[i].0))
                && s1.0[lowercase_of(s1.2[i].0)] == i as usize by {
                assert(s1 == put(with_node(st, external_node(link)), k, n));
                assert(s1.2 == st.2.push(external_node(link)));
                assert(s1.0 == st.0.insert(k, n));
                if i < st.2.len() {
                    assert(s1.2[i] == st.2[i]);
                    assert(st.0.contains_key(lowercase_of(st.2[i].0)));
                    assert(lowercase_of(st.2[i].0) != k);
                } else {
                    assert(s1.2[i] == external_node(link));
                }
            }
        }
    }
    assert(externals_indexed(s1));
}

proof fn lemma_links_indexed(pages: Seq<Page>, cfg: Config, st: BuildState, p: usize, f: Seq<char>, ls: Seq<Seq<char>>)
    requires
        externals_indexed(st),
    ensures
        externals_indexed(links_pass(pages, cfg, st, p, f, ls)),
        externals_indexed(body_links_pass(pages, cfg, st, p, ls)),
    decreases ls.len(),
{
    if ls.len() > 0 {
        lemma_step_indexed(pages, cfg, st, p, f, ls[0]);
        lemma_links_indexed(pages, cfg, link_step(pages, cfg, st, p, f, ls[0]), p, f, ls.drop_first());
        lemma_links_indexed(pages, cfg, body_step(pages, cfg, st, p, ls[0]), p, f, ls.drop_first());
    }
}

proof fn lemma_fields_indexed(pages: Seq<Page>, cfg: Config, st: BuildState, p: usize, fs: Seq<(Seq<char>, Seq<Seq<char>>)>)
    requires
        externals_indexed(st),
    ensures
        externals_indexed(fields_pass(pages, cfg, st, p, fs)),
    decreases fs.len(),
{
    if fs.len() > 0 {
        let s1 = if field_allowed(cfg.fields.edges, fs[0].0) {
            let w = with_field(st, fs[0].0);
            assert(externals_indexed(w));
            lemma_links_indexed(pages, cfg, w, p, fs[0].0, fs[0].1);
            links_pass(pages, cfg, w, p, fs[0].0, fs[0].1)
        } else {
            st
        };
        lemma_fields_indexed(pages, cfg, s1, p, fs.drop_first());
    }
}

proof fn lemma_passes_indexed(pages: Seq<Page>, cfg: Config, st: BuildState, i: nat)
    requires
        externals_indexed(st),
    ensures
        externals_indexed(fm_pass(pages, cfg, st, i)),
        externals_indexed(body_pass(pages, cfg, st, i)),
    decreases pages.len() - i,
{
    if i < pages.len() {
        let fs = link_fields(pages[i as int].frontmatter@);
        let ls = wikilinks(pages[i as int].body@);
        lemma_fields_indexed(pages, cfg, st, i as usize, fs);
        lemma_links_indexed(pages, cfg, st, i as usize, seq![], ls);
        lemma_passes_indexed(pages, cfg, fields_pass(pages, cfg, st, i as usize, fs), i + 1);
        lemma_passes_indexed(pages, cfg, body_links_pass(pages, cfg, st, i as usize, ls), i + 1);
    }
}

/// Links to one unresolved name share one external node: no two external
/// nodes of the graph have titles that lower-case alike (for any graph whose
/// node indices fit a `usize`, as every graph that is built does).
pub proof fn lemma_one_external_per_name(pages: Seq<Page>, cfg: Config, include_body: bool)
    requires
        built(pages, cfg, include_body).2.len() <= usize::MAX,
    ensures
        forall|i: int, j: int|
            0 <= i < j < built(pages, cfg, include_body).2.len() && (#[trigger] built(pages, cfg, include_body).2[i]).2 && (#[trigger] built(
                pages,
                cfg,
                include_body,
            ).2[j]).2 ==> lowercase_of(built(pages, cfg, include_body).2[i].0) != lowercase_of(built(pages, cfg, include_body).2[j].0),
{
    let s0 = pages_pass(pages, cfg, empty_state(), 0);
    lemma_pages_pass_nodes(pages, cfg, empty_state(), 0);
    assert(externals_indexed(s0)) by {
        assert forall|i: int| 0 <= i < s0.2.len() implies !(#[trigger] s0.2[i]).2 by {
            assert(s0.2[i] == page_node(pages[i], cfg.resolve.title_field@));
        }
    }
    lemma_passes_indexed(pages, cfg, s0, 0);
    let s1 = fm_pass(pages, cfg, s0, 0);
    if include_body {
        lemma_passes_indexed(pages, cfg, s1, 0);
        let b = body_pass(pages, cfg, s1, 0);
        assert(externals_indexed(with_field(b, link_field_name())));
    }
    let g = built(pages, cfg, include_body);
    assert(externals_indexed(g));
    assert forall|i: int, j: int| 0 <= i < j < g.2.len() && (#[trigger] g.2[i]).2 && (#[trigger] g.2[j]).2 implies lowercase_of(g.2[i].0)
        != lowercase_of(g.2[j].0) by {
        assert(g.0[lowercase_of(g.2[i].0)] == i as usize);
        assert(g.0[lowercase_of(g.2[j].0)] == j as usize);
    }
}

/// `connecting` lists no edge exactly when no edge goes from `a` to `b`.
proof fn lemma_connecting_empty(es: Seq<(usize, usize, VaultEdge)>, a: usize, b: usize, k: nat)
    requires
        k <= es.len(),
    ensures
        connecting(es, a, b, k).len() == 0 <==> forall|i: int| 0 <= i < k ==> !((#[trigger] es[i]).0 == a && es[i].1 == b),
    decreases k,
{
    if k > 0 {
        lemma_connecting_empty(es, a, b, (k - 1) as nat);
    }
}

/// A copy of an optional string.
pub fn clone_opt(o: &Option<String>) -> (res: Option<String>)
    ensures
        opt_view(res) == opt_view(*o),
{
    match o {
        Some(s) => Some(s.clone()),
        None => None,
    }
}

/// A typed cross-service (runtime) edge, kept apart from the structural graph.
pub struct RuntimeEdge {
    pub from: String,
    pub to: String,
    pub edge_type: String,
    pub endpoint: Option<String>,
    pub condition: Option<String>,
    pub provenance: Option<String>,
    pub external_target: bool,
}

pub open spec fn runtime_view(r: RuntimeEdge) -> RuntimeView {
    (r.from@, r.to@, r.edge_type@, opt_view(r.endpoint), opt_view(r.condition), opt_view(r.provenance), r.external_target)
}

/// The complete vault graph.
pub struct VaultGraph {
    pub graph: DiGraph<VaultNode, VaultEdge>,
    /// Lower-cased title, alias or stem → node, for lookup by name.
    pub title_index: StringHashMap<usize>,
    /// The keys of `title_index`, each once, in insertion order.
    pub title_keys: Vec<String>,
    /// The relationship field names discovered, in discovery order.
    pub fields: Vec<String>,
    /// Total pages scanned (including those without frontmatter links).
    pub total_pages: usize,
    /// Pages with at least one frontmatter field.
    pub pages_with_frontmatter: usize,
    /// The runtime (cross-service) edge layer.
    pub runtime: Vec<RuntimeEdge>,
}

/// Room for `n` edges: below the graph's 32-bit index limit, and few enough
/// that a node's degree (at most two per edge) fits in a `usize`.
pub open spec fn edge_room(n: nat) -> bool {
    n < u32::MAX && 2 * n <= usize::MAX
}

impl VaultGraph {
    /// The graph as plain values.
    pub open spec fn state(&self) -> BuildState {
        (
            self.title_index@,
            views(self.title_keys@),
            graph_nodes(self.graph).map_values(|n: VaultNode| node_view(n)),
            graph_edges(self.graph).map_values(|e: (usize, usize, VaultEdge)| edge_view(e)),
            views(self.fields@),
        )
    }

    /// Well-formedness: the properties construction keeps, room for the
    /// graph's 32-bit indices, and room for every degree in a `usize`.
    pub open spec fn wf(&self) -> bool {
        &&& state_ok(self.state())
        &&& graph_nodes(self.graph).len() < u32::MAX
        &&& edge_room(graph_edges(self.graph).len())
    }

    pub open spec fn nodes(&self) -> Seq<VaultNode> {
        graph_nodes(self.graph)
    }

    pub open spec fn edges(&self) -> Seq<(usize, usize, VaultEdge)> {
        graph_edges(self.graph)
    }

    pub open spec fn frame(&self) -> (usize, usize, Seq<RuntimeView>) {
        (self.total_pages, self.pages_with_frontmatter, self.runtime@.map_values(|r: RuntimeEdge| runtime_view(r)))
    }

    fn put_key(&mut self, k: String, v: usize)
        requires
            v < old(self).state().2.len(),
            state_ok(old(self).state()),
        ensures
            final(self).state() == put(old(self).state(), k@, v),
            state_ok(final(self).state()),
            final(self).frame() == old(self).frame(),
            final(self).graph == old(self).graph,
    {
        let ghost st = self.state();
        if !self.title_index.contains_key(k.as_str()) {
            let kc = k.clone();
            self.title_keys.push(kc);
            assert(views(self.title_keys@) =~= st.1.push(k@));
        }
        self.title_index.insert(k, v);
        proof {
            let s2 = self.state();
            assert(s2 =~= put(st, k@, v));
            assert forall|key: Seq<char>| #[trigger] s2.0.contains_key(key) implies s2.0[key] < s2.2.len() by {
                if key != k@ {
                    assert(st.0.contains_key(key));
                }
            }
            assert forall|key: Seq<char>| s2.1.contains(key) <==> #[trigger] s2.0.contains_key(key) by {
                if !st.0.contains_key(k@) {
                    if key != k@ {
                        assert(s2.1.contains(key) <==> st.1.contains(key)) by {
                            if s2.1.contains(key) {
                                let j = choose|j: int| 0 <= j < s2.1.len() && s2.1[j] == key;
                                assert(j < st.1.len());
                                assert(st.1[j] == key);
                            }
                            if st.1.contains(key) {
                                let j = choose|j: int| 0 <= j < st.1.len() && st.1[j] == key;
                                assert(s2.1[j] == key);
                            }
                        }
                    } else {
                        assert(s2.1[s2.1.len() - 1] == key);
                    }
                }
            }
            if !st.0.contains_key(k@) {
                assert(!st.1.contains(k@));
                assert forall|a: int, b: int| 0 <= a < s2.1.len() && 0 <= b < s2.1.len() && a != b implies s2.1[a] != s2.1[b] by {
                    if a < st.1.len() && b < st.1.len() {
                    } else if a == st.1.len() {
                        assert(st.1[b] == s2.1[b]);
                    } else {
                        assert(st.1[a] == s2.1[a]);
                    }
                }
            }
        }
    }

    fn put_new_key(&mut self, k: String, v: usize)
        requires
            v < old(self).state().2.len(),
            state_ok(old(self).state()),
        ensures
            final(self).state() == put_new(old(self).state(), k@, v),
            state_ok(final(self).state()),
            final(self).frame() == old(self).frame(),
            final(self).graph == old(self).graph,
    {
        if !self.title_index.contains_key(k.as_str()) {
            self.put_key(k, v);
        }
    }

    fn add_field(&mut self, f: &String)
        requires
            state_ok(old(self).state()),
        ensures
            final(self).state() == with_field(old(self).state(), f@),
            state_ok(final(self).state()),
            final(self).frame() == old(self).frame(),
            final(self).graph == old(self).graph,
    {
        let ghost st = self.state();
        let n = self.fields.len();
        let mut i: usize = 0;
        while i < n
            invariant
                n == self.fields@.len(),
                i <= n,
                st == self.state(),
                state_ok(st),
                forall|j: int| 0 <= j < i ==> (#[trigger] self.fields@[j])@ != f@,
            decreases n - i,
        {
            if self.fields[i] == *f {
                assert(st.4[i as int] == f@);
                return;
            }
            i = i + 1;
        }
        assert(!st.4.contains(f@)) by {
            if st.4.contains(f@) {
                let j = choose|j: int| 0 <= j < st.4.len() && st.4[j] == f@;
                assert(self.fields@[j]@ == f@);
            }
        }
        self.fields.push(f.clone());
        proof {
            let s2 = self.state();
            assert(s2.4 =~= st.4.push(f@));
            assert(s2 =~= with_field(st, f@));
            assert forall|a: int, b: int| 0 <= a < s2.4.len() && 0 <= b < s2.4.len() && a != b implies s2.4[a] != s2.4[b] by {
                if a < st.4.len() && b < st.4.len() {
                } else if a == st.4.len() {
                    assert(st.4[b] == s2.4[b]);
                } else {
                    assert(st.4[a] == s2.4[a]);
                }
            }
        }
    }

    fn target_for(&mut self, pages: &[Page], config: &Config, resolver: &Resolver, link: &String) -> (t: usize)
        requires
            state_ok(old(self).state()),
            old(self).state().2.len() >= pages@.len(),
            resolver.indexes(pages@, config.resolve.title_field@, config.resolve.alias_field@),
            target_of(pages@, *config, old(self).state(), link@).1.2.len() < u32::MAX,
        ensures
            (t, final(self).state()) == target_of(pages@, *config, old(self).state(), link@),
            t < final(self).state().2.len(),
            state_ok(final(self).state()),
            final(self).state().2.len() >= pages@.len(),
            final(self).frame() == old(self).frame(),
    {
        proof {
            lemma_resolve_in_bound(pages@, config.resolve.title_field@, config.resolve.alias_field@, link@);
        }
        match resolver.resolve(link.as_str()) {
            Some(i) => i,
            None => {
                let k = lowercase(link.as_str());
                let existing: Option<usize> = match self.title_index.get(k.as_str()) {
                    Some(t) => Some(*t),
                    None => None,
                };
                match existing {
                    Some(t) => t,
                    None => {
                        let ghost st = self.state();
                        let node = VaultNode { title: link.clone(), path: None, external: true, node_type: None };
                        let n = graph_add_node(&mut self.graph, node);
                        assert(self.state() =~= with_node(st, external_node(link@)));
                        proof {
                            let s1 = self.state();
                            assert forall|i: int| 0 <= i < s1.3.len() implies (#[trigger] s1.3[i]).0 < s1.2.len() && s1.3[i].1 < s1.2.len() by {
                                assert(s1.3[i] == st.3[i]);
                            }
                        }
                        self.put_key(k, n);
                        n
                    },
                }
            },
        }
    }

    fn add_link(&mut self, pages: &[Page], config: &Config, resolver: &Resolver, p: usize, field: &String, link: &String)
        requires
            state_ok(old(self).state()),
            p < pages@.len(),
            old(self).state().2.len() >= pages@.len(),
            resolver.indexes(pages@, config.resolve.title_field@, config.resolve.alias_field@),
            link_step(pages@, *config, old(self).state(), p, field@, link@).2.len() < u32::MAX,
            edge_room(link_step(pages@, *config, old(self).state(), p, field@, link@).3.len()),
        ensures
            final(self).state() == link_step(pages@, *config, old(self).state(), p, field@, link@),
            state_ok(final(self).state()),
            final(self).state().2.len() >= pages@.len(),
            final(self).frame() == old(self).frame(),
    {
        let ghost st0 = self.state();
        let t = self.target_for(pages, config, resolver, link);
        let ghost st1 = self.state();
        graph_add_edge(&mut self.graph, p, t, VaultEdge { field: field.clone() });
        assert(self.state() =~= with_edge(st1, p, t, field@));
        if config.direction_for(field.as_str()) == Direction::Bidirectional {
            let ghost st2 = self.state();
            graph_add_edge(&mut self.graph, t, p, VaultEdge { field: field.clone() });
            assert(self.state() =~= with_edge(st2, t, p, field@));
        }
        proof {
            let s = self.state();
            assert forall|i: int| 0 <= i < s.3.len() implies (#[trigger] s.3[i]).0 < s.2.len() && s.3[i].1 < s.2.len() by {
                if i < st1.3.len() {
                    assert(s.3[i] == st1.3[i]);
                }
            }
        }
    }

    fn add_body_link(&mut self, pages: &[Page], config: &Config, resolver: &Resolver, p: usize, link: &String)
        requires
            state_ok(old(self).state()),
            p < pages@.len(),
            old(self).state().2.len() >= pages@.len(),
            resolver.indexes(pages@, config.resolve.title_field@, config.resolve.alias_field@),
            body_step(pages@, *config, old(self).state(), p, link@).2.len() < u32::MAX,
            edge_room(body_step(pages@, *config, old(self).state(), p, link@).3.len()),
        ensures
            final(self).state() == body_step(pages@, *config, old(self).state(), p, link@),
            state_ok(final(self).state()),
            final(self).state().2.len() >= pages@.len(),
            final(self).frame() == old(self).frame(),
    {
        let t = self.target_for(pages, config, resolver, link);
        let ghost st1 = self.state();
        let conn = graph_edges_connecting(&self.graph, p, t);
        proof {
            let es = graph_edges(self.graph);
            lemma_connecting_empty(es, p, t, es.len());
            if has_edge(st1.3, p, t) {
                let i = choose|i: int| 0 <= i < st1.3.len() && (#[trigger] st1.3[i]).0 == p && st1.3[i].1 == t;
                assert(es[i].0 == p && es[i].1 == t);
            }
            if conn@.len() > 0 {
                let i = choose|i: int| 0 <= i < es.len() && !(!((#[trigger] es[i]).0 == p && es[i].1 == t));
                assert(st1.3[i] == edge_view(es[i]));
            }
        }
        if conn.len() == 0 {
            graph_add_edge(&mut self.graph, p, t, VaultEdge { field: owned("link") });
            proof {
                reveal_strlit("link");
            }
            assert("link"@ =~= link_field_name());
            assert(self.state() =~= with_edge(st1, p, t, link_field_name()));
            proof {
                let s = self.state();
                assert forall|i: int| 0 <= i < s.3.len() implies (#[trigger] s.3[i]).0 < s.2.len() && s.3[i].1 < s.2.len() by {
                    if i < st1.3.len() {
                        assert(s.3[i] == st1.3[i]);
                    }
                }
            }
        }
    }
}

} // verus!

verus! {

proof fn lemma_with_node_ok(st: BuildState, nv: NodeView)
    requires
        state_ok(st),
    ensures
        state_ok(with_node(st, nv)),
{
    let s = with_node(st, nv);
    assert forall|i: int| 0 <= i < s.3.len() implies (#[trigger] s.3[i]).0 < s.2.len() && s.3[i].1 < s.2.len() by {
        assert(s.3[i] == st.3[i]);
    }
}

impl VaultGraph {
    /// Build the graph from parsed pages and config: a node per page (in page
    /// order), then the frontmatter link edges (and, with `include_body`, the
    /// body link edges), plus the separate runtime edge layer.
    pub fn build(pages: &[Page], config: &Config, include_body: bool) -> (res: Self)
        requires
            built(pages@, *config, include_body).2.len() < u32::MAX,
            edge_room(built(pages@, *config, include_body).3.len()),
        ensures
            res.state() == built(pages@, *config, include_body),
            res.wf(),
            res.total_pages == pages@.len(),
            res.pages_with_frontmatter == fm_count(pages@, pages@.len()),
            res.runtime@.map_values(|r: RuntimeEdge| runtime_view(r)) == runtime_edges(pages@, *config, pages@.len()),
    {
        let tf = config.resolve.title_field.as_str();
        let af = config.resolve.alias_field.as_str();
        let resolver = Resolver::new(pages, tf, af);
        let mut vg = VaultGraph {
            graph: graph_new(),
            title_index: StringHashMap::new(),
            title_keys: Vec::new(),
            fields: Vec::new(),
            total_pages: pages.len(),
            pages_with_frontmatter: 0,
            runtime: Vec::new(),
        };
        let ghost goal = built(pages@, *config, include_body);
        let ghost s_p1 = pages_pass(pages@, *config, empty_state(), 0);
        let ghost s_fm = fm_pass(pages@, *config, s_p1, 0);
        proof {
            assert(vg.state() =~= empty_state());
            lemma_pages_pass_len(pages@, *config, empty_state(), 0);
            lemma_fm_grows(pages@, *config, s_p1, 0);
            if include_body {
                lemma_body_grows(pages@, *config, s_fm, 0);
            }
        }
        let n = pages.len();
        // First pass: create a node for each page.
        let mut i: usize = 0;
        while i < n
            invariant
                n == pages@.len(),
                i <= n,
                tf@ == config.resolve.title_field@,
                af@ == config.resolve.alias_field@,
                pages_pass(pages@, *config, vg.state(), i as nat) == s_p1,
                vg.state().2.len() == i,
                s_p1.2.len() == n,
                le(s_p1, s_fm),
                le(s_fm, goal),
                goal.2.len() < u32::MAX,
                state_ok(vg.state()),
                vg.total_pages == n,
                vg.pages_with_frontmatter == fm_count(pages@, i as nat),
                vg.pages_with_frontmatter <= i,
            decreases n - i,
        {
            let page = &pages[i];
            let title = page.title(tf);
            let node = VaultNode {
                title: title.clone(),
                path: Some(page.rel_path.clone()),
                external: false,
                node_type: page.node_type(),
            };
            let ghost st = vg.state();
            let idx = graph_add_node(&mut vg.graph, node);
            assert(vg.state() =~= with_node(st, page_node(pages@[i as int], tf@)));
            proof {
                lemma_with_node_ok(st, page_node(pages@[i as int], tf@));
            }
            vg.put_key(lowercase(title.as_str()), idx);
            // Also index by aliases and stem.
            let aliases = page.aliases(af);
            let m = aliases.len();
            let ghost ks = lowered(page_aliases(pages@[i as int], af@));
            let ghost s_al = vg.state();
            let mut j: usize = 0;
            assert(ks.skip(0) =~= ks);
            while j < m
                invariant
                    m == aliases@.len(),
                    j <= m,
                    idx == i,
                    i < n,
                    views(aliases@) == page_aliases(pages@[i as int], af@),
                    ks == lowered(page_aliases(pages@[i as int], af@)),
                    put_new_all(vg.state(), ks.skip(j as int), idx) == put_new_all(s_al, ks, idx),
                    state_ok(vg.state()),
                    vg.state().2.len() == i + 1,
                    vg.total_pages == n,
                    vg.pages_with_frontmatter == fm_count(pages@, i as nat),
                    vg.pages_with_frontmatter <= i,
                decreases m - j,
            {
                assert(ks.skip(j as int).drop_first() =~= ks.skip(j + 1));
                assert(ks.skip(j as int)[0] == lowercase_of(aliases@[j as int]@));
                vg.put_new_key(lowercase(aliases[j].as_str()), idx);
                j = j + 1;
            }
            assert(ks.skip(m as int) =~= seq![]);
            vg.put_new_key(lowercase(page.stem.as_str()), idx);
            if !page.frontmatter.is_empty() {
                vg.pages_with_frontmatter = vg.pages_with_frontmatter + 1;
            }
            i = i + 1;
        }
        // Second pass: create edges from wikilink fields.
        let ghost fr = vg.frame();
        let mut i: usize = 0;
        while i < n
            invariant
                n == pages@.len(),
                i <= n,
                fm_pass(pages@, *config, vg.state(), i as nat) == s_fm,
                state_ok(vg.state()),
                vg.state().2.len() >= n,
                le(s_fm, goal),
                goal.2.len() < u32::MAX,
                edge_room(goal.3.len()),
                resolver.indexes(pages@, config.resolve.title_field@, config.resolve.alias_field@),
                vg.frame() == fr,
            decreases n - i,
        {
            let fs = pages[i].wikilink_fields();
            let ghost fvs = field_views(fs@);
            let nf = fs.len();
            let mut fi: usize = 0;
            assert(fvs.skip(0) =~= fvs);
            while fi < nf
                invariant
                    n == pages@.len(),
                    i < n,
                    nf == fs@.len(),
                    fi <= nf,
                    fvs == field_views(fs@),
                    fm_pass(pages@, *config, fields_pass(pages@, *config, vg.state(), i, fvs.skip(fi as int)), (i + 1) as nat) == s_fm,
                    state_ok(vg.state()),
                    vg.state().2.len() >= n,
                    le(s_fm, goal),
                    goal.2.len() < u32::MAX,
                    edge_room(goal.3.len()),
                    resolver.indexes(pages@, config.resolve.title_field@, config.resolve.alias_field@),
                    vg.frame() == fr,
                decreases nf - fi,
            {
                let field = &fs[fi].0;
                let links = &fs[fi].1;
                assert(fvs.skip(fi as int).drop_first() =~= fvs.skip(fi + 1));
                assert(fvs.skip(fi as int)[0] == (field@, views(links@)));
                if config.fields.allows(field.as_str()) {
                    vg.add_field(field);
                    let ghost lvs = views(links@);
                    let nl = links.len();
                    let mut j: usize = 0;
                    assert(lvs.skip(0) =~= lvs);
                    while j < nl
                        invariant
                            n == pages@.len(),
                            i < n,
                            nl == links@.len(),
                            j <= nl,
                            lvs == views(links@),
                            fm_pass(
                                pages@,
                                *config,
                                fields_pass(
                                    pages@,
                                    *config,
                                    links_pass(pages@, *config, vg.state(), i, field@, lvs.skip(j as int)),
                                    i,
                                    fvs.skip(fi + 1),
                                ),
                                (i + 1) as nat,
                            ) == s_fm,
                            state_ok(vg.state()),
                            vg.state().2.len() >= n,
                            le(s_fm, goal),
                            goal.2.len() < u32::MAX,
                            edge_room(goal.3.len()),
                            resolver.indexes(pages@, config.resolve.title_field@, config.resolve.alias_field@),
                            vg.frame() == fr,
                        decreases nl - j,
                    {
                        assert(lvs.skip(j as int).drop_first() =~= lvs.skip(j + 1));
                        assert(lvs.skip(j as int)[0] == links@[j as int]@);
                        proof {
                            let s1 = link_step(pages@, *config, vg.state(), i, field@, lvs[j as int]);
                            lemma_links_grows(pages@, *config, s1, i, field@, lvs.skip(j + 1));
                            let s2 = links_pass(pages@, *config, s1, i, field@, lvs.skip(j + 1));
                            lemma_fields_grows(pages@, *config, s2, i, fvs.skip(fi + 1));
                            let s3 = fields_pass(pages@, *config, s2, i, fvs.skip(fi + 1));
                            lemma_fm_grows(pages@, *config, s3, (i + 1) as nat);
                        }
                        vg.add_link(pages, config, &resolver, i, field, &links[j]);
                        j = j + 1;
                    }
                    assert(lvs.skip(nl as int) =~= seq![]);
                }
                fi = fi + 1;
            }
            assert(fvs.skip(nf as int) =~= seq![]);
            i = i + 1;
        }
        // Third pass: create edges from body [[WikiLinks]] (if enabled).
        if include_body {
            let ghost s_body = body_pass(pages@, *config, s_fm, 0);
            let mut i: usize = 0;
            while i < n
                invariant
                    n == pages@.len(),
                    i <= n,
                    body_pass(pages@, *config, vg.state(), i as nat) == s_body,
                    s_body == body_pass(pages@, *config, s_fm, 0),
                    goal == with_field(s_body, link_field_name()),
                    state_ok(vg.state()),
                    vg.state().2.len() >= n,
                    goal.2.len() < u32::MAX,
                    edge_room(goal.3.len()),
                    resolver.indexes(pages@, config.resolve.title_field@, config.resolve.alias_field@),
                    vg.frame() == fr,
                decreases n - i,
            {
                let links = pages[i].body_wikilinks();
                let ghost lvs = views(links@);
                let nl = links.len();
                let mut j: usize = 0;
                assert(lvs.skip(0) =~= lvs);
                while j < nl
                    invariant
                        n == pages@.len(),
                        i < n,
                        nl == links@.len(),
                        j <= nl,
                        lvs == views(links@),
                        lvs == wikilinks(pages@[i as int].body@),
                        body_pass(
                            pages@,
                            *config,
                            body_links_pass(pages@, *config, vg.state(), i, lvs.skip(j as int)),
                            (i + 1) as nat,
                        ) == s_body,
                        goal == with_field(s_body, link_field_name()),
                        state_ok(vg.state()),
                        vg.state().2.len() >= n,
                        goal.2.len() < u32::MAX,
                        edge_room(goal.3.len()),
                        resolver.indexes(pages@, config.resolve.title_field@, config.resolve.alias_field@),
                        vg.frame() == fr,
                    decreases nl - j,
                {
                    assert(lvs.skip(j as int).drop_first() =~= lvs.skip(j + 1));
                    assert(lvs.skip(j as int)[0] == links@[j as int]@);
                    proof {
                        let s1 = body_step(pages@, *config, vg.state(), i, lvs[j as int]);
                        lemma_body_links_grows(pages@, *config, s1, i, lvs.skip(j + 1));
                        let s2 = body_links_pass(pages@, *config, s1, i, lvs.skip(j + 1));
                        lemma_body_grows(pages@, *config, s2, (i + 1) as nat);
                    }
                    vg.add_body_link(pages, config, &resolver, i, &links[j]);
                    j = j + 1;
                }
                assert(lvs.skip(nl as int) =~= seq![]);
                i = i + 1;
            }
            let link_name = owned("link");
            proof {
                reveal_strlit("link");
            }
            assert(link_name@ =~= link_field_name());
            vg.add_field(&link_name);
        }
        // The runtime layer, in its own store.
        let mut rt: Vec<RuntimeEdge> = Vec::new();
        let mut i: usize = 0;
        while i < n
            invariant
                n == pages@.len(),
                i <= n,
                tf@ == config.resolve.title_field@,
                resolver.indexes(pages@, config.resolve.title_field@, config.resolve.alias_field@),
                rt@.map_values(|r: RuntimeEdge| runtime_view(r)) == runtime_edges(pages@, *config, i as nat),
            decreases n - i,
        {
            let page = &pages[i];
            let from = page.title(tf);
            let ces = page.cross_service_edges();
            let ghost cvs = ces@.map_values(|e: crate::vault::CrossEdge| crate::vault::cross_view(e));
            let ghost base = rt@.map_values(|r: RuntimeEdge| runtime_view(r));
            let m = ces.len();
            let mut j: usize = 0;
            while j < m
                invariant
                    n == pages@.len(),
                    i < n,
                    m == ces@.len(),
                    j <= m,
                    tf@ == config.resolve.title_field@,
                    from@ == page_title(pages@[i as int], tf@),
                    cvs == ces@.map_values(|e: crate::vault::CrossEdge| crate::vault::cross_view(e)),
                    cvs == page_cross_edges(pages@[i as int]),
                    resolver.indexes(pages@, config.resolve.title_field@, config.resolve.alias_field@),
                    rt@.map_values(|r: RuntimeEdge| runtime_view(r)) == base + cvs.take(j as int).map_values(
                        |e: CrossView| runtime_of(pages@, *config, pages@[i as int], e),
                    ),
                decreases m - j,
            {
                let e = &ces[j];
                proof {
                    lemma_resolve_in_bound(pages@, config.resolve.title_field@, config.resolve.alias_field@, e.target@);
                }
                let (to, external) = match resolver.resolve(e.target.as_str()) {
                    Some(k) => (pages[k].title(tf), false),
                    None => (e.target.clone(), true),
                };
                let ghost before = rt@.map_values(|r: RuntimeEdge| runtime_view(r));
                let r = RuntimeEdge {
                    from: from.clone(),
                    to,
                    edge_type: e.edge_type.clone(),
                    endpoint: clone_opt(&e.endpoint),
                    condition: clone_opt(&e.condition),
                    provenance: clone_opt(&e.provenance),
                    external_target: external,
                };
                assert(cvs[j as int] == crate::vault::cross_view(ces@[j as int]));
                assert(runtime_view(r) == runtime_of(pages@, *config, pages@[i as int], cvs[j as int]));
                rt.push(r);
                assert(rt@.map_values(|r: RuntimeEdge| runtime_view(r)) =~= before.push(runtime_view(r)));
                assert(cvs.take(j + 1).map_values(|e: CrossView| runtime_of(pages@, *config, pages@[i as int], e))
                    =~= cvs.take(j as int).map_values(|e: CrossView| runtime_of(pages@, *config, pages@[i as int], e)).push(
                    runtime_of(pages@, *config, pages@[i as int], cvs[j as int])));
                j = j + 1;
            }
            assert(cvs.take(m as int) =~= cvs);
            i = i + 1;
        }
        vg.runtime = rt;
        vg
    }
}

/// A node reached by a name: the name, lower-cased, is one of its index keys.
pub open spec fn exact_hit(vg: &VaultGraph, name: Seq<char>) -> bool {
    vg.title_index@.contains_key(lowercase_of(name))
}

/// Node `v` is a fuzzy candidate for `lower`: one of its index keys
/// contains `lower`.
pub open spec fn is_candidate(vg: &VaultGraph, lower: Seq<char>, v: usize) -> bool {
    exists|k: Seq<char>| #[trigger] vg.title_index@.contains_key(k) && contains_sub(k, lower) && vg.title_index@[k] == v
}

/// The order of an ambiguous match's candidates: by lower-cased title,
/// then index.
pub open spec fn candidate_key(vg: &VaultGraph, v: usize) -> Seq<(int, Seq<char>)> {
    seq![(-1int, lowercase_of(vg.nodes()[v as int].title@)), (v as int, Seq::<char>::empty())]
}

/// `ns` lists the fuzzy candidates for `lower`, each once, by `candidate_key`.
pub open spec fn candidates_listed(vg: &VaultGraph, lower: Seq<char>, ns: Seq<usize>) -> bool {
    &&& forall|i: int| 0 <= i < ns.len() ==> is_candidate(vg, lower, #[trigger] ns[i])
    &&& forall|v: usize| is_candidate(vg, lower, v) ==> #[trigger] ns.contains(v)
    &&& forall|i: int, j: int| 0 <= i < j < ns.len() ==> key_lt(candidate_key(vg, #[trigger] ns[i]), candidate_key(vg, #[trigger] ns[j]))
}

/// What a fuzzy lookup of `query` answers: the exact match (title, alias
/// or stem, case-insensitive) when there is one; else, over the nodes with
/// an index key containing the lower-cased query, the single one, or as the
/// error their titles in `candidate_key` order (none when there are none).
pub open spec fn fuzzy_answers(vg: &VaultGraph, query: Seq<char>, res: Result<usize, Vec<String>>) -> bool {
    &&& exact_hit(vg, query) ==> res == Ok::<usize, Vec<String>>(vg.title_index@[lowercase_of(query)])
    &&& !exact_hit(vg, query) ==> exists|ns: Seq<usize>| {
        &&& #[trigger] candidates_listed(vg, lowercase_of(query), ns)
        &&& ns.no_duplicates()
        &&& match res {
            Ok(v) => ns == seq![v],
            Err(titles) => ns.len() != 1 && titles@.len() == ns.len() && forall|i: int|
                0 <= i < ns.len() ==> (#[trigger] titles@[i])@ == vg.nodes()[ns[i] as int].title@,
        }
    }
}

/// A node a fuzzy lookup finds is a node of the graph.
pub proof fn lemma_fuzzy_in_graph(vg: &VaultGraph, query: Seq<char>, res: Result<usize, Vec<String>>)
    requires
        vg.wf(),
        fuzzy_answers(vg, query, res),
        res is Ok,
    ensures
        res->Ok_0 < vg.nodes().len(),
{
    let st = vg.state();
    if exact_hit(vg, query) {
        assert(st.0.contains_key(lowercase_of(query)));
    } else {
        let ns = choose|ns: Seq<usize>| {
            &&& #[trigger] candidates_listed(vg, lowercase_of(query), ns)
            &&& ns.no_duplicates()
            &&& match res {
                Ok(v) => ns == seq![v],
                Err(titles) => ns.len() != 1 && titles@.len() == ns.len() && forall|i: int|
                    0 <= i < ns.len() ==> (#[trigger] titles@[i])@ == vg.nodes()[ns[i] as int].title@,
            }
        };
        let v = res->Ok_0;
        assert(ns[0] == v);
        assert(is_candidate(vg, lowercase_of(query), v));
        let k = choose|k: Seq<char>| #[trigger] vg.title_index@.contains_key(k) && contains_sub(k, lowercase_of(query)) && vg.title_index@[k] == v;
        assert(st.0.contains_key(k));
    }
}

impl VaultGraph {
    /// Builds the graph where the size bound the pages and links give leaves
    /// room for the graph's indices and degrees (`size_fits`); `None` where
    /// it does not.
    pub fn build_checked(pages: &[Page], config: &Config, include_body: bool) -> (res: Option<Self>)
        ensures
            res is Some <==> size_fits(pages@, include_body),
            res matches Some(vg) ==> {
                &&& vg.state() == built(pages@, *config, include_body)
                &&& vg.wf()
                &&& vg.total_pages == pages@.len()
                &&& vg.pages_with_frontmatter == fm_count(pages@, pages@.len())
                &&& vg.runtime@.map_values(|r: RuntimeEdge| runtime_view(r)) == runtime_edges(pages@, *config, pages@.len())
            },
    {
        let bound: u64 = 0xffff_ffff;
        let ghost ps = pages@;
        let mut links: u64 = 0;
        let mut blinks: u64 = 0;
        let mut i: usize = 0;
        while i < pages.len()
            invariant
                ps == pages@,
                bound == u32::MAX,
                i <= ps.len(),
                links <= bound,
                blinks <= bound,
                links + fm_links_from(ps, i as nat) == fm_links_from(ps, 0),
                include_body ==> blinks + body_links_from(ps, i as nat) == body_links_from(ps, 0),
                !include_body ==> blinks == 0,
            decreases ps.len() - i,
        {
            let fs = pages[i].wikilink_fields();
            let ghost fv = field_views(fs@);
            assert(fv.skip(0) =~= fv);
            let mut j: usize = 0;
            while j < fs.len()
                invariant
                    ps == pages@,
                    bound == u32::MAX,
                    i < ps.len(),
                    j <= fs@.len(),
                    fv == field_views(fs@),
                    fv == link_fields(ps[i as int].frontmatter@),
                    links <= bound,
                    links + field_links(fv.skip(j as int)) + fm_links_from(ps, i as nat + 1) == fm_links_from(ps, 0),
                decreases fs@.len() - j,
            {
                let c = fs[j].1.len() as u64;
                proof {
                    assert(fv.skip(j as int).drop_first() =~= fv.skip(j as int + 1));
                    assert(fv.skip(j as int)[0].1 == views(fs@[j as int].1@));
                }
                if c > bound - links {
                    return None;
                }
                links = links + c;
                j = j + 1;
            }
            proof {
                assert(fv.skip(fs@.len() as int) =~= Seq::<(Seq<char>, Seq<Seq<char>>)>::empty());
            }
            if include_body {
                let ls = pages[i].body_wikilinks();
                let c = ls.len() as u64;
                proof {
                    assert(views(ls@).len() == ls@.len());
                }
                if c > bound - blinks {
                    return None;
                }
                blinks = blinks + c;
            }
            i = i + 1;
        }
        let n = pages.len() as u64;
        if n >= bound || n + links + blinks >= bound {
            return None;
        }
        let e = 2 * links + blinks;
        if e >= bound || e > (usize::MAX as u64) / 2 {
            return None;
        }
        proof {
            lemma_built_size(pages@, *config, include_body);
        }
        Some(Self::build(pages, config, include_body))
    }

    /// Look up a node by title, alias or file stem (case-insensitive).
    pub fn find_node(&self, title: &str) -> (res: Option<usize>)
        ensures
            res == (if exact_hit(self, title@) { Some(self.title_index@[lowercase_of(title@)]) } else { None::<usize> }),
    {
        let lower = lowercase(title);
        match self.title_index.get(lower.as_str()) {
            Some(v) => Some(*v),
            None => None,
        }
    }

    /// The node with index `idx`.
    pub fn node(&self, idx: usize) -> (res: &VaultNode)
        requires
            idx < self.nodes().len(),
        ensures
            *res == self.nodes()[idx as int],
    {
        crate::pgraph::graph_node(&self.graph, idx)
    }

    /// The fuzzy candidates for `lower`, each once, by `candidate_key`.
    fn fuzzy_candidates(&self, lower: &Vec<char>) -> (res: Vec<usize>)
        requires
            self.wf(),
        ensures
            candidates_listed(self, lower@, res@),
            res@.no_duplicates(),
    {
        let ghost st = self.state();
        let n = crate::pgraph::graph_node_count(&self.graph);
        let mut seen: Vec<bool> = Vec::new();
        let mut i: usize = 0;
        while i < n
            invariant
                i <= n,
                seen@.len() == i,
                forall|k: int| 0 <= k < i ==> !(#[trigger] seen@[k]),
            decreases n - i,
        {
            seen.push(false);
            i = i + 1;
        }
        let mut cands: Vec<usize> = Vec::new();
        let m = self.title_keys.len();
        let mut i: usize = 0;
        while i < m
            invariant
                self.wf(),
                st == self.state(),
                n == self.nodes().len(),
                m == self.title_keys@.len(),
                i <= m,
                seen@.len() == n,
                cands@.no_duplicates(),
                forall|k: int| 0 <= k < cands@.len() ==> (#[trigger] cands@[k]) < n && is_candidate(self, lower@, cands@[k]) && seen@[cands@[k] as int],
                forall|v: int| 0 <= v < n && #[trigger] seen@[v] ==> cands@.contains(v as usize),
                forall|k: int| 0 <= k < i && contains_sub(#[trigger] self.title_keys@[k]@, lower@) ==> cands@.contains(
                    self.title_index@[self.title_keys@[k]@],
                ),
            decreases m - i,
        {
            let key = &self.title_keys[i];
            proof {
                assert(st.1[i as int] == key@);
                assert(st.1.contains(key@));
                assert(st.0.contains_key(key@));
                assert(st.0[key@] < st.2.len());
            }
            let v = match self.title_index.get(key.as_str()) {
                Some(v) => *v,
                None => 0,
            };
            assert(v == self.title_index@[key@] && v < n);
            let hay = chars_of(key.as_str());
            if contains_chars(&hay, lower) && !seen[v] {
                let ghost before = cands@;
                cands.push(v);
                seen.set(v, true);
                proof {
                    assert(is_candidate(self, lower@, v));
                    assert forall|k: int| 0 <= k < cands@.len() implies (#[trigger] cands@[k]) < n && is_candidate(self, lower@, cands@[k]) && seen@[cands@[k] as int] by {
                        if k < before.len() {
                            assert(cands@[k] == before[k]);
                        }
                    }
                    assert forall|w: int| 0 <= w < n && #[trigger] seen@[w] implies cands@.contains(w as usize) by {
                        if w != v {
                            assert(before.contains(w as usize));
                            let j = choose|j: int| 0 <= j < before.len() && before[j] == w as usize;
                            assert(cands@[j] == before[j]);
                        } else {
                            assert(cands@[cands@.len() - 1] == v);
                        }
                    }
                    assert(cands@.no_duplicates()) by {
                        assert forall|a: int, b: int| 0 <= a < b < cands@.len() implies cands@[a] != cands@[b] by {
                            if b == cands@.len() - 1 {
                                assert(cands@[a] == before[a]);
                            } else {
                                assert(cands@[a] == before[a]);
                                assert(cands@[b] == before[b]);
                            }
                        }
                    }
                    assert forall|k: int| 0 <= k < i + 1 && contains_sub(#[trigger] self.title_keys@[k]@, lower@) implies cands@.contains(
                        self.title_index@[self.title_keys@[k]@],
                    ) by {
                        if k < i {
                            let j = choose|j: int| 0 <= j < before.len() && before[j] == self.title_index@[self.title_keys@[k]@];
                            assert(cands@[j] == before[j]);
                        } else {
                            assert(cands@[cands@.len() - 1] == v);
                        }
                    }
                }
            } else {
                proof {
                    assert forall|k: int| 0 <= k < i + 1 && contains_sub(#[trigger] self.title_keys@[k]@, lower@) implies cands@.contains(
                        self.title_index@[self.title_keys@[k]@],
                    ) by {
                        if k == i {
                            assert(seen@[v as int]);
                        }
                    }
                }
            }
            i = i + 1;
        }
        proof {
            assert forall|v: usize| is_candidate(self, lower@, v) implies #[trigger] cands@.contains(v) by {
                let k = choose|k: Seq<char>| #[trigger] self.title_index@.contains_key(k) && contains_sub(k, lower@) && self.title_index@[k] == v;
                assert(st.0.contains_key(k));
                assert(st.1.contains(k));
                let j = choose|j: int| 0 <= j < st.1.len() && st.1[j] == k;
                assert(self.title_keys@[j]@ == k);
            }
        }
        let mut keys: Vec<Vec<KeyPart>> = Vec::new();
        let mut t: usize = 0;
        while t < cands.len()
            invariant
                self.wf(),
                n == self.nodes().len(),
                forall|k: int| 0 <= k < cands@.len() ==> (#[trigger] cands@[k]) < n,
                t <= cands@.len(),
                keys@.len() == t,
                forall|k: int| 0 <= k < t ==> #[trigger] key_at(keys@, k) == candidate_key(self, cands@[k]),
            decreases cands@.len() - t,
        {
            let v = cands[t];
            let lt = lowercase(crate::pgraph::graph_node(&self.graph, v).title.as_str());
            let mut key: Vec<KeyPart> = Vec::new();
            key.push(KeyPart::Text(chars_of(lt.as_str())));
            key.push(KeyPart::Num(v as u64));
            assert(key_view(key@) =~= candidate_key(self, v));
            let ghost before = keys@;
            let ghost kg = key;
            keys.push(key);
            proof {
                assert(keys@[t as int] == kg);
                assert forall|k: int| 0 <= k < t + 1 implies #[trigger] key_at(keys@, k) == candidate_key(self, cands@[k]) by {
                    if k < t {
                        assert(keys@[k] == before[k]);
                        assert(key_at(before, k) == candidate_key(self, cands@[k]));
                    } else {
                        assert(key_at(keys@, k) == key_view(kg@));
                    }
                }
            }
            t = t + 1;
        }
        proof {
            assert forall|a: int, b: int| 0 <= a < keys@.len() && 0 <= b < keys@.len() && a != b implies key_at(keys@, a) != key_at(keys@, b) by {
                assert(cands@[a] != cands@[b]);
                assert(key_at(keys@, a)[1] != key_at(keys@, b)[1]);
            }
            assert(distinct_keys(keys@));
        }
        let order = sorted_indices(&keys);
        let mut res: Vec<usize> = Vec::new();
        let mut t: usize = 0;
        while t < order.len()
            invariant
                order@.len() == cands@.len(),
                keys@.len() == cands@.len(),
                forall|k: int| 0 <= k < order@.len() ==> order@[k] < cands@.len(),
                t <= order@.len(),
                res@.len() == t,
                forall|k: int| 0 <= k < t ==> #[trigger] res@[k] == cands@[order@[k] as int],
            decreases order@.len() - t,
        {
            res.push(cands[order[t]]);
            t = t + 1;
        }
        proof {
            assert forall|k: int| 0 <= k < res@.len() implies is_candidate(self, lower@, #[trigger] res@[k]) by {
                assert(res@[k] == cands@[order@[k] as int]);
            }
            assert forall|v: usize| is_candidate(self, lower@, v) implies #[trigger] res@.contains(v) by {
                assert(cands@.contains(v));
                let c = choose|c: int| 0 <= c < cands@.len() && cands@[c] == v;
                assert(order@.contains(c as usize));
                let k = choose|k: int| 0 <= k < order@.len() && order@[k] == c as usize;
                assert(res@[k] == v);
            }
            assert forall|a: int, b: int| 0 <= a < b < res@.len() implies key_lt(candidate_key(self, #[trigger] res@[a]), candidate_key(self, #[trigger] res@[b])) by {
                assert(key_lt(key_at(keys@, order@[a] as int), key_at(keys@, order@[b] as int)));
            }
            assert(res@.no_duplicates()) by {
                assert forall|a: int, b: int| 0 <= a < b < res@.len() implies res@[a] != res@[b] by {
                    assert(order@[a] != order@[b]);
                    assert(cands@[order@[a] as int] != cands@[order@[b] as int]);
                }
            }
        }
        res
    }

    /// Look up a node by title with fuzzy matching: an exact (case-insensitive)
    /// title, alias or stem first; else the nodes with an index key containing
    /// the lower-cased query. One such node is the answer; none gives an empty
    /// error; several give their titles, by lower-cased title, as the error.
    pub fn fuzzy_find_node(&self, query: &str) -> (res: Result<usize, Vec<String>>)
        requires
            self.wf(),
        ensures
            fuzzy_answers(self, query@, res),

    {
        if let Some(idx) = self.find_node(query) {
            return Ok(idx);
        }
        let lower = lowercase(query);
        let lower_chars = chars_of(lower.as_str());
        let cands = self.fuzzy_candidates(&lower_chars);
        if cands.len() == 1 {
            assert(cands@ =~= seq![cands@[0]]);
            return Ok(cands[0]);
        }
        let mut titles: Vec<String> = Vec::new();
        let mut t: usize = 0;
        while t < cands.len()
            invariant
                self.wf(),
                forall|i: int| 0 <= i < cands@.len() ==> is_candidate(self, lower@, #[trigger] cands@[i]),
                t <= cands@.len(),
                titles@.len() == t,
                forall|i: int| 0 <= i < t ==> (#[trigger] titles@[i])@ == self.nodes()[cands@[i] as int].title@,
            decreases cands@.len() - t,
        {
            let v = cands[t];
            proof {
                assert(is_candidate(self, lower@, v));
                let k = choose|k: Seq<char>| #[trigger] self.title_index@.contains_key(k) && contains_sub(k, lower@) && self.title_index@[k] == v;
                assert(self.state().0.contains_key(k));
            }
            titles.push(crate::pgraph::graph_node(&self.graph, v).title.clone());
            t = t + 1;
        }
        Err(titles)
    }
}

/// Field `f` goes both ways under the overrides `dirs`.
#[verifier::opaque]
pub open spec fn two_way(dirs: Seq<(String, String)>, f: Seq<char>) -> bool {
    direction_of(dirs, f) == Direction::Bidirectional
}

/// Every edge whose field goes both ways has its reverse among the edges.
pub open spec fn mirrored(es: Seq<EdgeView>, dirs: Seq<(String, String)>) -> bool {
    forall|i: int| 0 <= i < es.len() && #[trigger] two_way(dirs, es[i].2) ==> exists|j: int|
        0 <= j < es.len() && es[j] == (es[i].1, es[i].0, es[i].2)
}

proof fn lemma_mirrored_push(es: Seq<EdgeView>, dirs: Seq<(String, String)>, e: EdgeView)
    requires
        mirrored(es, dirs),
        !two_way(dirs, e.2),
    ensures
        mirrored(es.push(e), dirs),
{
    let es2 = es.push(e);
    assert forall|i: int| 0 <= i < es2.len() && #[trigger] two_way(dirs, es2[i].2) implies exists|j: int|
        0 <= j < es2.len() && es2[j] == (es2[i].1, es2[i].0, es2[i].2) by {
        if i == es.len() {
            assert(es2[i] == e);
        }
        assert(es2[i] == es[i]);
        let j = choose|j: int| 0 <= j < es.len() && es[j] == (es[i].1, es[i].0, es[i].2);
        assert(es2[j] == es[j]);
    }
}

proof fn lemma_mirrored_pair(es: Seq<EdgeView>, dirs: Seq<(String, String)>, a: usize, b: usize, f: Seq<char>)
    requires
        mirrored(es, dirs),
    ensures
        mirrored(es.push((a, b, f)).push((b, a, f)), dirs),
{
    let es2 = es.push((a, b, f)).push((b, a, f));
    assert forall|i: int| 0 <= i < es2.len() && #[trigger] two_way(dirs, es2[i].2) implies exists|j: int|
        0 <= j < es2.len() && es2[j] == (es2[i].1, es2[i].0, es2[i].2) by {
        if i == es.len() {
            assert(es2[es.len() as int + 1] == (b, a, f));
        } else if i == es.len() + 1 {
            assert(es2[es.len() as int] == (a, b, f));
        } else {
            assert(es2[i] == es[i]);
            let j = choose|j: int| 0 <= j < es.len() && es[j] == (es[i].1, es[i].0, es[i].2);
            assert(es2[j] == es[j]);
        }
    }
}

proof fn lemma_links_pass_mirrored(pages: Seq<Page>, cfg: Config, st: BuildState, p: usize, f: Seq<char>, ls: Seq<Seq<char>>)
    requires
        mirrored(st.3, cfg.fields.direction@),
    ensures
        mirrored(links_pass(pages, cfg, st, p, f, ls).3, cfg.fields.direction@),
    decreases ls.len(),
{
    if ls.len() > 0 {
        let dirs = cfg.fields.direction@;
        let (t, s1) = target_of(pages, cfg, st, ls[0]);
        assert(s1.3 == st.3);
        reveal(two_way);
        if direction_of(dirs, f) == Direction::Bidirectional {
            lemma_mirrored_pair(st.3, dirs, p, t, f);
        } else {
            lemma_mirrored_push(st.3, dirs, (p, t, f));
        }
        lemma_links_pass_mirrored(pages, cfg, link_step(pages, cfg, st, p, f, ls[0]), p, f, ls.drop_first());
    }
}

proof fn lemma_fields_pass_mirrored(pages: Seq<Page>, cfg: Config, st: BuildState, p: usize, fs: Seq<(Seq<char>, Seq<Seq<char>>)>)
    requires
        mirrored(st.3, cfg.fields.direction@),
    ensures
        mirrored(fields_pass(pages, cfg, st, p, fs).3, cfg.fields.direction@),
    decreases fs.len(),
{
    if fs.len() > 0 {
        let s1 = if field_allowed(cfg.fields.edges, fs[0].0) {
            assert(with_field(st, fs[0].0).3 == st.3);
            lemma_links_pass_mirrored(pages, cfg, with_field(st, fs[0].0), p, fs[0].0, fs[0].1);
            links_pass(pages, cfg, with_field(st, fs[0].0), p, fs[0].0, fs[0].1)
        } else {
            st
        };
        lemma_fields_pass_mirrored(pages, cfg, s1, p, fs.drop_first());
    }
}

proof fn lemma_fm_pass_mirrored(pages: Seq<Page>, cfg: Config, st: BuildState, i: nat)
    requires
        mirrored(st.3, cfg.fields.direction@),
    ensures
        mirrored(fm_pass(pages, cfg, st, i).3, cfg.fields.direction@),
    decreases pages.len() - i,
{
    if i < pages.len() {
        lemma_fields_pass_mirrored(pages, cfg, st, i as usize, link_fields(pages[i as int].frontmatter@));
        lemma_fm_pass_mirrored(pages, cfg, fields_pass(pages, cfg, st, i as usize, link_fields(pages[i as int].frontmatter@)), i + 1);
    }
}

proof fn lemma_body_pass_mirrored(pages: Seq<Page>, cfg: Config, st: BuildState, i: nat)
    requires
        mirrored(st.3, cfg.fields.direction@),
        direction_of(cfg.fields.direction@, link_field_name()) != Direction::Bidirectional,
    ensures
        mirrored(body_pass(pages, cfg, st, i).3, cfg.fields.direction@),
    decreases pages.len() - i,
{
    if i < pages.len() {
        lemma_body_links_mirrored(pages, cfg, st, i as usize, wikilinks(pages[i as int].body@));
        lemma_body_pass_mirrored(pages, cfg, body_links_pass(pages, cfg, st, i as usize, wikilinks(pages[i as int].body@)), i + 1);
    }
}

proof fn lemma_body_links_mirrored(pages: Seq<Page>, cfg: Config, st: BuildState, p: usize, ls: Seq<Seq<char>>)
    requires
        mirrored(st.3, cfg.fields.direction@),
        direction_of(cfg.fields.direction@, link_field_name()) != Direction::Bidirectional,
    ensures
        mirrored(body_links_pass(pages, cfg, st, p, ls).3, cfg.fields.direction@),
    decreases ls.len(),
{
    if ls.len() > 0 {
        let (t, s1) = target_of(pages, cfg, st, ls[0]);
        assert(s1.3 == st.3);
        if !has_edge(s1.3, p, t) {
            reveal(two_way);
            lemma_mirrored_push(st.3, cfg.fields.direction@, (p, t, link_field_name()));
        }
        lemma_body_links_mirrored(pages, cfg, body_step(pages, cfg, st, p, ls[0]), p, ls.drop_first());
    }
}

proof fn lemma_pages_pass_edges(pages: Seq<Page>, cfg: Config, st: BuildState, i: nat)
    ensures
        pages_pass(pages, cfg, st, i).3 == st.3,
    decreases pages.len() - i,
{
    if i < pages.len() {
        let p = pages[i as int];
        let tf = cfg.resolve.title_field@;
        let s1 = put(with_node(st, page_node(p, tf)), lowercase_of(page_title(p, tf)), i as usize);
        let s2 = put_new_all(s1, lowered(page_aliases(p, cfg.resolve.alias_field@)), i as usize);
        lemma_put_new_all_edges(s1, lowered(page_aliases(p, cfg.resolve.alias_field@)), i as usize);
        let s3 = put_new(s2, lowercase_of(p.stem@), i as usize);
        lemma_pages_pass_edges(pages, cfg, s3, i + 1);
    }
}

proof fn lemma_put_new_all_edges(st: BuildState, ks: Seq<Seq<char>>, v: usize)
    ensures
        put_new_all(st, ks, v).3 == st.3,
    decreases ks.len(),
{
    if ks.len() > 0 {
        lemma_put_new_all_edges(put_new(st, ks[0], v), ks.drop_first(), v);
    }
}

/// Fields that go both ways give edges both ways: in the built graph every
/// edge whose field is bidirectional (by the configuration's overrides or
/// by default, as `related_to` and `seeAlso` are) has its reverse edge too.
/// With body links, this holds as long as the `link` field they use is not
/// itself made bidirectional.
pub proof fn lemma_bidirectional_fields(pages: Seq<Page>, cfg: Config, include_body: bool)
    requires
        include_body ==> direction_of(cfg.fields.direction@, link_field_name()) != Direction::Bidirectional,
    ensures
        mirrored(built(pages, cfg, include_body).3, cfg.fields.direction@),
{
    let dirs = cfg.fields.direction@;
    let s0 = pages_pass(pages, cfg, empty_state(), 0);
    lemma_pages_pass_edges(pages, cfg, empty_state(), 0);
    assert(mirrored(s0.3, dirs));
    lemma_fm_pass_mirrored(pages, cfg, s0, 0);
    if include_body {
        let s1 = fm_pass(pages, cfg, s0, 0);
        lemma_body_pass_mirrored(pages, cfg, s1, 0);
        assert(with_field(body_pass(pages, cfg, s1, 0), link_field_name()).3 == body_pass(pages, cfg, s1, 0).3);
    }
}

/// What graph construction reads of a page: title, aliases, type, stem,
/// path, link fields and body links.
pub open spec fn structure(p: Page, cfg: Config) -> (Seq<char>, Seq<Seq<char>>, Option<Seq<char>>, Seq<char>, Seq<char>, Seq<(Seq<char>, Seq<Seq<char>>)>, Seq<Seq<char>>) {
    (
        page_title(p, cfg.resolve.title_field@),
        page_aliases(p, cfg.resolve.alias_field@),
        page_type(p),
        p.stem@,
        p.rel_path@,
        link_fields(p.frontmatter@),
        wikilinks(p.body@),
    )
}

/// Two page lists that construction cannot tell apart.
pub open spec fn same_structure(a: Seq<Page>, b: Seq<Page>, cfg: Config) -> bool {
    a.len() == b.len() && forall|i: int| 0 <= i < a.len() ==> structure(#[trigger] a[i], cfg) == structure(b[i], cfg)
}

proof fn lemma_keys_same(a: Seq<Page>, b: Seq<Page>, cfg: Config, n: nat)
    requires
        same_structure(a, b, cfg),
        n <= a.len(),
    ensures
        title_keys(a, cfg.resolve.title_field@, n) == title_keys(b, cfg.resolve.title_field@, n),
        alias_keys(a, cfg.resolve.alias_field@, n) == alias_keys(b, cfg.resolve.alias_field@, n),
        stem_keys(a, n) == stem_keys(b, n),
    decreases n,
{
    if n > 0 {
        lemma_keys_same(a, b, cfg, (n - 1) as nat);
        assert(structure(a[n - 1], cfg) == structure(b[n - 1], cfg));
    }
}

proof fn lemma_target_same(a: Seq<Page>, b: Seq<Page>, cfg: Config, st: BuildState, link: Seq<char>)
    requires
        same_structure(a, b, cfg),
    ensures
        target_of(a, cfg, st, link) == target_of(b, cfg, st, link),
{
    lemma_keys_same(a, b, cfg, a.len());
}

proof fn lemma_pages_pass_same(a: Seq<Page>, b: Seq<Page>, cfg: Config, st: BuildState, i: nat)
    requires
        same_structure(a, b, cfg),
    ensures
        pages_pass(a, cfg, st, i) == pages_pass(b, cfg, st, i),
    decreases a.len() - i,
{
    if i < a.len() {
        assert(structure(a[i as int], cfg) == structure(b[i as int], cfg));
        let tf = cfg.resolve.title_field@;
        assert(page_node(a[i as int], tf) == page_node(b[i as int], tf));
        let p = a[i as int];
        let s1 = put(with_node(st, page_node(p, tf)), lowercase_of(page_title(p, tf)), i as usize);
        let s2 = put_new_all(s1, lowered(page_aliases(p, cfg.resolve.alias_field@)), i as usize);
        let s3 = put_new(s2, lowercase_of(p.stem@), i as usize);
        lemma_pages_pass_same(a, b, cfg, s3, i + 1);
    }
}

proof fn lemma_links_pass_same(a: Seq<Page>, b: Seq<Page>, cfg: Config, st: BuildState, p: usize, f: Seq<char>, ls: Seq<Seq<char>>)
    requires
        same_structure(a, b, cfg),
    ensures
        links_pass(a, cfg, st, p, f, ls) == links_pass(b, cfg, st, p, f, ls),
    decreases ls.len(),
{
    if ls.len() > 0 {
        lemma_target_same(a, b, cfg, st, ls[0]);
        lemma_links_pass_same(a, b, cfg, link_step(a, cfg, st, p, f, ls[0]), p, f, ls.drop_first());
    }
}

proof fn lemma_fields_pass_same(a: Seq<Page>, b: Seq<Page>, cfg: Config, st: BuildState, p: usize, fs: Seq<(Seq<char>, Seq<Seq<char>>)>)
    requires
        same_structure(a, b, cfg),
    ensures
        fields_pass(a, cfg, st, p, fs) == fields_pass(b, cfg, st, p, fs),
    decreases fs.len(),
{
    if fs.len() > 0 {
        lemma_links_pass_same(a, b, cfg, with_field(st, fs[0].0), p, fs[0].0, fs[0].1);
        let s1 = if field_allowed(cfg.fields.edges, fs[0].0) {
            links_pass(a, cfg, with_field(st, fs[0].0), p, fs[0].0, fs[0].1)
        } else {
            st
        };
        lemma_fields_pass_same(a, b, cfg, s1, p, fs.drop_first());
    }
}

proof fn lemma_fm_pass_same(a: Seq<Page>, b: Seq<Page>, cfg: Config, st: BuildState, i: nat)
    requires
        same_structure(a, b, cfg),
    ensures
        fm_pass(a, cfg, st, i) == fm_pass(b, cfg, st, i),
    decreases a.len() - i,
{
    if i < a.len() {
        assert(structure(a[i as int], cfg) == structure(b[i as int], cfg));
        let fs = link_fields(a[i as int].frontmatter@);
        lemma_fields_pass_same(a, b, cfg, st, i as usize, fs);
        lemma_fm_pass_same(a, b, cfg, fields_pass(a, cfg, st, i as usize, fs), i + 1);
    }
}

proof fn lemma_body_links_same(a: Seq<Page>, b: Seq<Page>, cfg: Config, st: BuildState, p: usize, ls: Seq<Seq<char>>)
    requires
        same_structure(a, b, cfg),
    ensures
        body_links_pass(a, cfg, st, p, ls) == body_links_pass(b, cfg, st, p, ls),
    decreases ls.len(),
{
    if ls.len() > 0 {
        lemma_target_same(a, b, cfg, st, ls[0]);
        lemma_body_links_same(a, b, cfg, body_step(a, cfg, st, p, ls[0]), p, ls.drop_first());
    }
}

proof fn lemma_body_pass_same(a: Seq<Page>, b: Seq<Page>, cfg: Config, st: BuildState, i: nat)
    requires
        same_structure(a, b, cfg),
    ensures
        body_pass(a, cfg, st, i) == body_pass(b, cfg, st, i),
    decreases a.len() - i,
{
    if i < a.len() {
        assert(structure(a[i as int], cfg) == structure(b[i as int], cfg));
        let ls = wikilinks(a[i as int].body@);
        lemma_body_links_same(a, b, cfg, st, i as usize, ls);
        lemma_body_pass_same(a, b, cfg, body_links_pass(a, cfg, st, i as usize, ls), i + 1);
    }
}

/// Construction reads nothing of a page beyond its structure: page lists
/// with the same structures build the same graph.
pub proof fn lemma_built_by_structure(a: Seq<Page>, b: Seq<Page>, cfg: Config, include_body: bool)
    requires
        same_structure(a, b, cfg),
    ensures
        built(a, cfg, include_body) == built(b, cfg, include_body),
{
    lemma_pages_pass_same(a, b, cfg, empty_state(), 0);
    let s0 = pages_pass(a, cfg, empty_state(), 0);
    lemma_fm_pass_same(a, b, cfg, s0, 0);
    if include_body {
        lemma_body_pass_same(a, b, cfg, fm_pass(a, cfg, s0, 0), 0);
    }
}

/// A frontmatter without its `cross_service` entries.
pub open spec fn drop_runtime(fm: Seq<(String, FmValue)>) -> Seq<(String, FmValue)>
    decreases fm.len(),
{
    if fm.len() == 0 {
        fm
    } else if fm[0].0@ == cross_service_key() {
        drop_runtime(fm.drop_first())
    } else {
        seq![fm[0]] + drop_runtime(fm.drop_first())
    }
}

proof fn lemma_drop_runtime(fm: Seq<(String, FmValue)>, k: Seq<char>)
    requires
        k != cross_service_key(),
    ensures
        fm_get(drop_runtime(fm), k) == fm_get(fm, k),
        link_fields(drop_runtime(fm)) == link_fields(fm),
    decreases fm.len(),
{
    if fm.len() > 0 {
        lemma_drop_runtime(fm.drop_first(), k);
        if fm[0].0@ != cross_service_key() {
            let d = seq![fm[0]] + drop_runtime(fm.drop_first());
            assert(d[0] == fm[0]);
            assert(d.drop_first() =~= drop_runtime(fm.drop_first()));
        }
    }
}

proof fn lemma_fm_count_same(a: Seq<Page>, b: Seq<Page>, n: nat)
    requires
        a.len() == b.len(),
        forall|i: int| 0 <= i < a.len() ==> ((#[trigger] a[i]).frontmatter@.len() > 0) == (b[i].frontmatter@.len() > 0),
    ensures
        fm_count(a, n) == fm_count(b, n),
    decreases n,
{
    if n > 0 && n <= a.len() {
        lemma_fm_count_same(a, b, (n - 1) as nat);
        assert((a[n - 1].frontmatter@.len() > 0) == (b[n - 1].frontmatter@.len() > 0));
    }
}

/// The runtime layer stays apart from the structural graph: pages that
/// differ only in their `cross_service` entries build the same graph (same
/// nodes, edges, name index and relationship fields), so every structural
/// query answers alike whether or not runtime edges are declared; and where
/// no page gains or loses its whole frontmatter that way, the count of pages
/// with frontmatter is the same too. This needs the title and alias fields
/// to be other keys than `cross_service`.
pub proof fn lemma_runtime_layer_apart(pages: Seq<Page>, other: Seq<Page>, cfg: Config, include_body: bool)
    requires
        pages.len() == other.len(),
        forall|i: int| 0 <= i < pages.len() ==> {
            &&& (#[trigger] other[i]).rel_path@ == pages[i].rel_path@
            &&& other[i].stem@ == pages[i].stem@
            &&& other[i].body@ == pages[i].body@
            &&& drop_runtime(other[i].frontmatter@) == drop_runtime(pages[i].frontmatter@)
        },
        cfg.resolve.title_field@ != cross_service_key(),
        cfg.resolve.alias_field@ != cross_service_key(),
    ensures
        built(pages, cfg, include_body) == built(other, cfg, include_body),
        (forall|i: int| 0 <= i < pages.len() ==> ((#[trigger] pages[i]).frontmatter@.len() > 0) == (other[i].frontmatter@.len() > 0))
            ==> fm_count(pages, pages.len()) == fm_count(other, other.len()),
{
    assert forall|i: int| 0 <= i < pages.len() implies structure(#[trigger] pages[i], cfg) == structure(other[i], cfg) by {
        let fm = pages[i].frontmatter@;
        let fo = other[i].frontmatter@;
        lemma_drop_runtime(fm, cfg.resolve.title_field@);
        lemma_drop_runtime(fm, cfg.resolve.alias_field@);
        lemma_drop_runtime(fm, type_key());
        lemma_drop_runtime(fo, cfg.resolve.title_field@);
        lemma_drop_runtime(fo, cfg.resolve.alias_field@);
        lemma_drop_runtime(fo, type_key());
    }
    lemma_built_by_structure(pages, other, cfg, include_body);
    if forall|i: int| 0 <= i < pages.len() ==> ((#[trigger] pages[i]).frontmatter@.len() > 0) == (other[i].frontmatter@.len() > 0) {
        lemma_fm_count_same(pages, other, pages.len());
    }
}

} // verus!
