//! Graph queries: multi-hop traversal, shortest path, degree centrality,
//! orphans and broken links.
use vstd::prelude::*;
use crate::graph::{VaultEdge, VaultGraph};
use crate::pgraph::{graph_edge, graph_edges_directed, graph_node_count, incident};
use crate::order::{KeyPart, distinct_keys, key_at, key_lt, key_view, lemma_sorted_unique, sorted_indices, strictly_sorted};
use crate::text::{chars_of, lowercase, lowercase_of};
use crate::vault::views;

verus! {

/// Traversal direction for queries.
#[derive(Debug, Clone, Copy, PartialEq, Eq, Structural)]
pub enum TraversalDirection {
    /// Follow outgoing edges (A depends_on B → go from A to B).
    Up,
    /// Follow incoming edges (who depends on this node?).
    Down,
    /// Follow both directions.
    Both,
}

/// A single edge in a query result.
pub struct ResultEdge {
    pub from: usize,
    pub to: usize,
    pub field: String,
    pub hop: u32,
}

/// Result of a multi-hop query.
pub struct QueryResult {
    pub center: usize,
    pub depth: u32,
    pub direction: TraversalDirection,
    /// Nodes discovered, with their hop distance.
    pub nodes: Vec<(usize, u32)>,
    /// Edges discovered, with hop number.
    pub edges: Vec<ResultEdge>,
}

pub type Edges = Seq<(usize, usize, VaultEdge)>;

pub open spec fn goes_up(d: TraversalDirection) -> bool {
    d == TraversalDirection::Up || d == TraversalDirection::Both
}

pub open spec fn goes_down(d: TraversalDirection) -> bool {
    d == TraversalDirection::Down || d == TraversalDirection::Both
}

/// A field passes the filter: no filter, or one that lists it.
pub open spec fn allowed_field(fv: Option<Seq<Seq<char>>>, f: Seq<char>) -> bool {
    match fv {
        None => true,
        Some(list) => list.contains(f),
    }
}

pub open spec fn fields_view(fields: Option<&Vec<String>>) -> Option<Seq<Seq<char>>> {
    match fields {
        Some(v) => Some(views(v@)),
        None => None,
    }
}

/// Edge `i` exists and its field passes the filter.
pub open spec fn edge_ok(es: Edges, fv: Option<Seq<Seq<char>>>, i: int) -> bool {
    0 <= i < es.len() && allowed_field(fv, es[i].2.field@)
}

/// `v` can be reached from `c` in at most `k` steps, a step following an
/// edge whose field passes the filter: forward (source to target) when the
/// direction goes up, backward when it goes down.
pub open spec fn within(es: Edges, d: TraversalDirection, fv: Option<Seq<Seq<char>>>, c: usize, k: nat, v: usize) -> bool
    decreases k,
{
    if k == 0 {
        v == c
    } else {
        within(es, d, fv, c, (k - 1) as nat, v)
            || (goes_up(d) && exists|i: int| #[trigger] edge_ok(es, fv, i) && es[i].1 == v && within(es, d, fv, c, (k - 1) as nat, es[i].0))
            || (goes_down(d) && exists|i: int| #[trigger] edge_ok(es, fv, i) && es[i].0 == v && within(es, d, fv, c, (k - 1) as nat, es[i].1))
    }
}

/// `v` is exactly `h` steps from `c`: within `h`, and not within fewer.
pub open spec fn at_hop(es: Edges, d: TraversalDirection, fv: Option<Seq<Seq<char>>>, c: usize, h: int, v: usize) -> bool {
    h >= 0 && within(es, d, fv, c, h as nat, v) && (h == 0 || !within(es, d, fv, c, (h - 1) as nat, v))
}

/// Some edge from `from` to `to` with field `f` passes the filter.
pub open spec fn has_key_edge(es: Edges, fv: Option<Seq<Seq<char>>>, from: usize, to: usize, f: Seq<char>) -> bool {
    exists|i: int| #[trigger] edge_ok(es, fv, i) && es[i].0 == from && es[i].1 == to && es[i].2.field@ == f
}

/// The edge key (from, to, f) is met by a traversal expanding the nodes
/// within `k` steps: an edge with that key passes the filter and its source
/// is within `k` (going up) or its target is (going down).
pub open spec fn hit(es: Edges, d: TraversalDirection, fv: Option<Seq<Seq<char>>>, c: usize, from: usize, to: usize, f: Seq<char>, k: int) -> bool {
    k >= 0 && has_key_edge(es, fv, from, to, f) && ((goes_up(d) && within(es, d, fv, c, k as nat, from)) || (goes_down(d) && within(
        es,
        d,
        fv,
        c,
        k as nat,
        to,
    )))
}

/// The edge key (from, to, f) is first met at hop `h` by a traversal of
/// depth `depth`: met when expanding the nodes within `h - 1` steps, and not
/// within fewer.
pub open spec fn key_at_hop(es: Edges, d: TraversalDirection, fv: Option<Seq<Seq<char>>>, c: usize, depth: int, from: usize, to: usize, f: Seq<char>, h: int) -> bool {
    &&& 1 <= h <= depth
    &&& hit(es, d, fv, c, from, to, f, h - 1)
    &&& (h == 1 || !hit(es, d, fv, c, from, to, f, h - 2))
}

/// A result edge carries the hop at which its key is first met.
pub open spec fn edge_at_hop(es: Edges, d: TraversalDirection, fv: Option<Seq<Seq<char>>>, c: usize, depth: int, e: ResultEdge) -> bool {
    key_at_hop(es, d, fv, c, depth, e.from, e.to, e.field@, e.hop as int)
}

/// Two result edges with the same source, target and field.
pub open spec fn same_key(a: ResultEdge, b: ResultEdge) -> bool {
    a.from == b.from && a.to == b.to && a.field@ == b.field@
}

pub proof fn lemma_within_mono(es: Edges, d: TraversalDirection, fv: Option<Seq<Seq<char>>>, c: usize, k: nat, k2: nat, v: usize)
    requires
        k <= k2,
        within(es, d, fv, c, k, v),
    ensures
        within(es, d, fv, c, k2, v),
    decreases k2 - k,
{
    if k < k2 {
        lemma_within_mono(es, d, fv, c, k, (k2 - 1) as nat, v);
    }
}

/// Nodes reached through edges are nodes of the graph.
pub proof fn lemma_within_bound(es: Edges, d: TraversalDirection, fv: Option<Seq<Seq<char>>>, c: usize, k: nat, v: usize, n: int)
    requires
        c < n,
        forall|i: int| 0 <= i < es.len() ==> (#[trigger] es[i]).0 < n && es[i].1 < n,
        within(es, d, fv, c, k, v),
    ensures
        v < n,
    decreases k,
{
    if k > 0 {
        if within(es, d, fv, c, (k - 1) as nat, v) {
            lemma_within_bound(es, d, fv, c, (k - 1) as nat, v, n);
        } else if goes_up(d) && exists|i: int| #[trigger] edge_ok(es, fv, i) && es[i].1 == v && within(es, d, fv, c, (k - 1) as nat, es[i].0) {
            let i = choose|i: int| #[trigger] edge_ok(es, fv, i) && es[i].1 == v && within(es, d, fv, c, (k - 1) as nat, es[i].0);
            assert(es[i].1 < n);
        } else {
            let i = choose|i: int| #[trigger] edge_ok(es, fv, i) && es[i].0 == v && within(es, d, fv, c, (k - 1) as nat, es[i].1);
            assert(es[i].0 < n);
        }
    }
}

pub proof fn lemma_incident(es: Edges, n: usize, outgoing: bool, k: nat)
    requires
        k <= es.len(),
        es.len() <= usize::MAX,
    ensures
        forall|j: int| 0 <= j < incident(es, n, outgoing, k).len() ==> {
            let t = #[trigger] incident(es, n, outgoing, k)[j];
            &&& t.0 < k
            &&& es[t.0 as int].0 == t.1
            &&& es[t.0 as int].1 == t.2
            &&& (if outgoing { t.1 == n } else { t.2 == n })
        },
        forall|e: int| 0 <= e < k && (if outgoing { (#[trigger] es[e]).0 == n } else { es[e].1 == n }) ==> exists|j: int|
            0 <= j < incident(es, n, outgoing, k).len() && (#[trigger] incident(es, n, outgoing, k)[j]).0 == e,
    decreases k,
{
    if k > 0 {
        lemma_incident(es, n, outgoing, (k - 1) as nat);
        let rest = incident(es, n, outgoing, (k - 1) as nat);
        let cur = incident(es, n, outgoing, k);
        let e = es[k - 1];
        if (outgoing && e.0 == n) || (!outgoing && e.1 == n) {
            assert(cur == seq![((k - 1) as usize, e.0, e.1)] + rest);
            assert forall|x: int| 0 <= x < k && (if outgoing { (#[trigger] es[x]).0 == n } else { es[x].1 == n }) implies exists|j: int|
                0 <= j < cur.len() && (#[trigger] cur[j]).0 == x by {
                if x == k - 1 {
                    assert(cur[0].0 == x);
                } else {
                    let j = choose|j: int| 0 <= j < rest.len() && (#[trigger] rest[j]).0 == x;
                    assert(cur[j + 1] == rest[j]);
                }
            }
            assert forall|j: int| 0 <= j < cur.len() implies {
                let t = #[trigger] cur[j];
                &&& t.0 < k
                &&& es[t.0 as int].0 == t.1
                &&& es[t.0 as int].1 == t.2
                &&& (if outgoing { t.1 == n } else { t.2 == n })
            } by {
                if j > 0 {
                    assert(cur[j] == rest[j - 1]);
                }
            }
        } else {
            assert(cur == rest);
        }
    }
}

pub open spec fn hop_of(hops: Seq<Option<u32>>, v: usize) -> int {
    hops[v as int]->0 as int
}

/// The state of a breadth-first traversal from `c` limited to `depth`
/// hops: `q` is the queue of visited nodes (the first `head` of them
/// expanded), `hops` the hop of every visited node.
pub open spec fn bfs_inv(
    es: Edges,
    d: TraversalDirection,
    fv: Option<Seq<Seq<char>>>,
    c: usize,
    depth: int,
    n: int,
    q: Seq<usize>,
    head: int,
    hops: Seq<Option<u32>>,
) -> bool {
    &&& hops.len() == n
    &&& c < n
    &&& 0 <= head <= q.len()
    &&& q.len() > 0 && q[0] == c
    &&& q.no_duplicates()
    &&& forall|i: int| 0 <= i < q.len() ==> (#[trigger] q[i]) < n && hops[q[i] as int] is Some
    &&& forall|v: usize| v < n && (#[trigger] hops[v as int]) is Some ==> q.contains(v)
    &&& forall|v: usize| v < n && (#[trigger] hops[v as int]) is Some ==> at_hop(es, d, fv, c, hop_of(hops, v), v) && hop_of(hops, v) <= depth
    &&& forall|i: int, j: int| 0 <= i < j < q.len() ==> hop_of(hops, #[trigger] q[i]) <= hop_of(hops, #[trigger] q[j])
    &&& forall|i: int| 0 <= i < q.len() ==> hop_of(hops, #[trigger] q[i]) <= i
    &&& head < q.len() ==> forall|i: int| 0 <= i < q.len() ==> hop_of(hops, #[trigger] q[i]) <= hop_of(hops, q[head]) + 1
    &&& forall|i: int, e: int| #![trigger q[i], edge_ok(es, fv, e)]
        0 <= i < head && hop_of(hops, q[i]) < depth && edge_ok(es, fv, e) && goes_up(d) && es[e].0 == q[i] ==> hops[es[e].1 as int] is Some
    &&& forall|i: int, e: int| #![trigger q[i], edge_ok(es, fv, e)]
        0 <= i < head && hop_of(hops, q[i]) < depth && edge_ok(es, fv, e) && goes_down(d) && es[e].1 == q[i] ==> hops[es[e].0 as int] is Some
}

/// Every visited node but the center records the node it was first met
/// from and the edge it was met by, one hop closer.
pub open spec fn parents_ok(
    es: Edges,
    d: TraversalDirection,
    fv: Option<Seq<Seq<char>>>,
    c: usize,
    n: int,
    hops: Seq<Option<u32>>,
    parents: Seq<Option<(usize, usize)>>,
) -> bool {
    &&& parents.len() == n
    &&& forall|v: usize| v < n && v != c && (#[trigger] hops[v as int]) is Some ==> {
        let (p, e) = parents[v as int]->0;
        &&& parents[v as int] is Some
        &&& edge_ok(es, fv, e as int)
        &&& p < n
        &&& hops[p as int] is Some
        &&& hop_of(hops, v) == hop_of(hops, p) + 1
        &&& ((goes_up(d) && es[e as int].0 == p && es[e as int].1 == v) || (goes_down(d) && es[e as int].1 == p && es[e as int].0 == v))
    }
}

pub open spec fn edges_in(es: Edges, n: int) -> bool {
    forall|i: int| 0 <= i < es.len() ==> (#[trigger] es[i]).0 < n && es[i].1 < n
}

/// Before expanding `q[head]` at hop `fh`, every node within fewer hops is
/// visited, at its distance, and already expanded.
proof fn lemma_frontier(
    es: Edges,
    d: TraversalDirection,
    fv: Option<Seq<Seq<char>>>,
    c: usize,
    depth: int,
    n: int,
    q: Seq<usize>,
    head: int,
    hops: Seq<Option<u32>>,
    k: nat,
)
    requires
        bfs_inv(es, d, fv, c, depth, n, q, head, hops),
        edges_in(es, n),
        head < q.len(),
        k < hop_of(hops, q[head]),
    ensures
        forall|x: usize| #[trigger] within(es, d, fv, c, k, x) ==> x < n && hops[x as int] is Some && hop_of(hops, x) <= k
            && exists|i: int| 0 <= i < head && q[i] == x,
    decreases k,
{
    let fh = hop_of(hops, q[head]);
    assert(hops[q[head] as int] is Some);
    assert forall|x: usize| #[trigger] within(es, d, fv, c, k, x) implies x < n && hops[x as int] is Some && hop_of(hops, x) <= k
        && exists|i: int| 0 <= i < head && q[i] == x by {
        lemma_within_bound(es, d, fv, c, k, x, n);
        if k == 0 {
            assert(x == c);
            assert(q[0] == c);
        } else {
            lemma_frontier(es, d, fv, c, depth, n, q, head, hops, (k - 1) as nat);
            if !within(es, d, fv, c, (k - 1) as nat, x) {
                if goes_up(d) && exists|e: int| #[trigger] edge_ok(es, fv, e) && es[e].1 == x && within(es, d, fv, c, (k - 1) as nat, es[e].0) {
                    let e = choose|e: int| #[trigger] edge_ok(es, fv, e) && es[e].1 == x && within(es, d, fv, c, (k - 1) as nat, es[e].0);
                    let w = es[e].0;
                    let i = choose|i: int| 0 <= i < head && q[i] == w;
                    assert(hop_of(hops, q[i]) < depth);
                } else {
                    let e = choose|e: int| #[trigger] edge_ok(es, fv, e) && es[e].0 == x && within(es, d, fv, c, (k - 1) as nat, es[e].1);
                    let w = es[e].1;
                    let i = choose|i: int| 0 <= i < head && q[i] == w;
                    assert(hop_of(hops, q[i]) < depth);
                }
            }
        }
        assert(hops[x as int] is Some);
        let h = hop_of(hops, x);
        if h > k {
            lemma_within_mono(es, d, fv, c, k, (h - 1) as nat, x);
        }
        assert(q.contains(x));
        let i = choose|i: int| 0 <= i < q.len() && q[i] == x;
        if i >= head {
            if i > head {
                assert(hop_of(hops, q[head]) <= hop_of(hops, q[i]));
            }
        }
    }
}

/// A node first met from `q[head]` (at hop `h`) is at hop `h + 1`.
proof fn lemma_new_node(
    es: Edges,
    d: TraversalDirection,
    fv: Option<Seq<Seq<char>>>,
    c: usize,
    depth: int,
    n: int,
    q: Seq<usize>,
    head: int,
    hops: Seq<Option<u32>>,
    e: int,
    v: usize,
)
    requires
        bfs_inv(es, d, fv, c, depth, n, q, head, hops),
        edges_in(es, n),
        head < q.len(),
        hop_of(hops, q[head]) < depth,
        edge_ok(es, fv, e),
        (goes_up(d) && es[e].0 == q[head] && es[e].1 == v) || (goes_down(d) && es[e].1 == q[head] && es[e].0 == v),
        v < n,
        hops[v as int] is None,
    ensures
        at_hop(es, d, fv, c, hop_of(hops, q[head]) + 1, v),
{
    let h = hop_of(hops, q[head]);
    let u = q[head];
    assert(hops[u as int] is Some);
    assert(within(es, d, fv, c, h as nat, u));
    assert(within(es, d, fv, c, (h + 1) as nat, v));
    if within(es, d, fv, c, h as nat, v) {
        if h == 0 {
            assert(v == c);
            assert(hops[q[0] as int] is Some);
        } else {
            lemma_frontier(es, d, fv, c, depth, n, q, head, hops, (h - 1) as nat);
            if within(es, d, fv, c, (h - 1) as nat, v) {
            } else if goes_up(d) && exists|e2: int| #[trigger] edge_ok(es, fv, e2) && es[e2].1 == v && within(es, d, fv, c, (h - 1) as nat, es[e2].0) {
                let e2 = choose|e2: int| #[trigger] edge_ok(es, fv, e2) && es[e2].1 == v && within(es, d, fv, c, (h - 1) as nat, es[e2].0);
                let i = choose|i: int| 0 <= i < head && q[i] == es[e2].0;
                assert(hop_of(hops, q[i]) < depth);
            } else {
                let e2 = choose|e2: int| #[trigger] edge_ok(es, fv, e2) && es[e2].0 == v && within(es, d, fv, c, (h - 1) as nat, es[e2].1);
                let i = choose|i: int| 0 <= i < head && q[i] == es[e2].1;
                assert(hop_of(hops, q[i]) < depth);
            }
        }
    }
}

/// After the traversal, every node within `k` hops is visited, when `k`
/// is within the depth or every visited node was expanded.
proof fn lemma_complete(
    es: Edges,
    d: TraversalDirection,
    fv: Option<Seq<Seq<char>>>,
    c: usize,
    depth: int,
    n: int,
    q: Seq<usize>,
    hops: Seq<Option<u32>>,
    k: nat,
)
    requires
        bfs_inv(es, d, fv, c, depth, n, q, q.len() as int, hops),
        edges_in(es, n),
        k <= depth || forall|v: usize| v < n && (#[trigger] hops[v as int]) is Some ==> hop_of(hops, v) < depth,
    ensures
        forall|x: usize| #[trigger] within(es, d, fv, c, k, x) ==> x < n && hops[x as int] is Some && hop_of(hops, x) <= k,
    decreases k,
{
    assert forall|x: usize| #[trigger] within(es, d, fv, c, k, x) implies x < n && hops[x as int] is Some && hop_of(hops, x) <= k by {
        lemma_within_bound(es, d, fv, c, k, x, n);
        if k == 0 {
            assert(q[0] == c);
        } else {
            lemma_complete(es, d, fv, c, depth, n, q, hops, (k - 1) as nat);
            if !within(es, d, fv, c, (k - 1) as nat, x) {
                if goes_up(d) && exists|e: int| #[trigger] edge_ok(es, fv, e) && es[e].1 == x && within(es, d, fv, c, (k - 1) as nat, es[e].0) {
                    let e = choose|e: int| #[trigger] edge_ok(es, fv, e) && es[e].1 == x && within(es, d, fv, c, (k - 1) as nat, es[e].0);
                    let w = es[e].0;
                    assert(q.contains(w));
                    let i = choose|i: int| 0 <= i < q.len() && q[i] == w;
                    assert(hop_of(hops, q[i]) < depth);
                } else {
                    let e = choose|e: int| #[trigger] edge_ok(es, fv, e) && es[e].0 == x && within(es, d, fv, c, (k - 1) as nat, es[e].1);
                    let w = es[e].1;
                    assert(q.contains(w));
                    let i = choose|i: int| 0 <= i < q.len() && q[i] == w;
                    assert(hop_of(hops, q[i]) < depth);
                }
            }
        }
        let h = hop_of(hops, x);
        if h > k {
            lemma_within_mono(es, d, fv, c, k, (h - 1) as nat, x);
        }
    }
}

/// A queue of distinct node indices is no longer than the number of nodes.
pub proof fn lemma_queue_len(q: Seq<usize>, n: int)
    requires
        q.no_duplicates(),
        forall|i: int| 0 <= i < q.len() ==> (#[trigger] q[i]) < n,
        0 <= n,
    ensures
        q.len() <= n,
{
    let qi = q.map_values(|x: usize| x as int);
    assert(qi.no_duplicates()) by {
        assert forall|a: int, b: int| 0 <= a < qi.len() && 0 <= b < qi.len() && a != b implies qi[a] != qi[b] by {
            assert(q[a] != q[b]);
        }
    }
    qi.unique_seq_to_set();
    vstd::set_lib::lemma_int_range(0, n);
    assert(qi.to_set().subset_of(vstd::set_lib::set_int_range(0, n))) by {
        assert forall|x: int| qi.to_set().contains(x) implies vstd::set_lib::set_int_range(0, n).contains(x) by {
            assert(qi.contains(x));
            let i = choose|i: int| 0 <= i < qi.len() && qi[i] == x;
            assert(q[i] < n);
        }
    }
    vstd::set_lib::lemma_len_subset(qi.to_set(), vstd::set_lib::set_int_range(0, n));
}

} // verus!

verus! {

/// Some raw edge has key (from, to, f) and hop `h`.
pub open spec fn raw_has(raw: Seq<ResultEdge>, from: usize, to: usize, f: Seq<char>, h: int) -> bool {
    exists|j: int| 0 <= j < raw.len() && (#[trigger] raw[j]).from == from && raw[j].to == to && raw[j].field@ == f && raw[j].hop == h
}

/// The raw edges come in nondecreasing hop order, none past hop `b`.
pub open spec fn raw_hops_ok(raw: Seq<ResultEdge>, b: int) -> bool {
    &&& forall|i: int, j: int| 0 <= i < j < raw.len() ==> (#[trigger] raw[i]).hop <= (#[trigger] raw[j]).hop
    &&& forall|i: int| 0 <= i < raw.len() ==> (#[trigger] raw[i]).hop <= b
}

/// Every raw edge is met by the traversal at its hop.
pub open spec fn raw_sound(es: Edges, d: TraversalDirection, fv: Option<Seq<Seq<char>>>, c: usize, depth: int, raw: Seq<ResultEdge>) -> bool {
    forall|j: int| 0 <= j < raw.len() ==> 1 <= (#[trigger] raw[j]).hop <= depth && hit(es, d, fv, c, raw[j].from, raw[j].to, raw[j].field@, raw[j].hop - 1)
}

/// Every edge at an expanded node is among the raw edges, at the next hop.
pub open spec fn raw_complete(es: Edges, d: TraversalDirection, fv: Option<Seq<Seq<char>>>, depth: int, q: Seq<usize>, head: int, hops: Seq<Option<u32>>, raw: Seq<ResultEdge>) -> bool {
    forall|i: int, e: int| #![trigger q[i], edge_ok(es, fv, e)]
        0 <= i < head && hop_of(hops, q[i]) < depth && edge_ok(es, fv, e) && ((goes_up(d) && es[e].0 == q[i]) || (goes_down(d) && es[e].1 == q[i]))
            ==> raw_has(raw, es[e].0, es[e].1, es[e].2.field@, hop_of(hops, q[i]) + 1)
}

/// The field filter: without a list every field passes; with one, a field
/// passes exactly when some entry of the list, at any position, is that field.
pub proof fn lemma_field_filter(fv: Option<Seq<Seq<char>>>, f: Seq<char>)
    ensures
        fv is None ==> allowed_field(fv, f),
        fv matches Some(list) ==> (allowed_field(fv, f) <==> exists|i: int| 0 <= i < list.len() && #[trigger] list[i] == f),
{
    if let Some(list) = fv {
        if exists|i: int| 0 <= i < list.len() && #[trigger] list[i] == f {
            let i = choose|i: int| 0 <= i < list.len() && #[trigger] list[i] == f;
            assert(list.contains(f));
        }
    }
}

/// Whether `f` passes the field filter.
pub fn field_passes(fields: Option<&Vec<String>>, f: &String) -> (res: bool)
    ensures
        res == allowed_field(fields_view(fields), f@),
{
    match fields {
        None => true,
        Some(list) => {
            let n = list.len();
            let mut i: usize = 0;
            while i < n
                invariant
                    fields == Some(list),
                    n == list@.len(),
                    i <= n,
                    forall|j: int| 0 <= j < i ==> (#[trigger] list@[j])@ != f@,
                decreases n - i,
            {
                if list[i] == *f {
                    assert(views(list@)[i as int] == f@);
                    return true;
                }
                i = i + 1;
            }
            assert(!views(list@).contains(f@)) by {
                if views(list@).contains(f@) {
                    let j = choose|j: int| 0 <= j < views(list@).len() && views(list@)[j] == f@;
                    assert(list@[j]@ == f@);
                }
            }
            false
        },
    }
}

/// Expands node `queue[head]` along its outgoing (or incoming) edges: every
/// edge that passes the filter becomes a raw edge at the next hop, and every
/// neighbor not yet visited is visited at that hop.
#[verifier::spinoff_prover]
fn expand(
    vg: &VaultGraph,
    fields: Option<&Vec<String>>,
    direction: TraversalDirection,
    depth: u32,
    center: usize,
    hops: &mut Vec<Option<u32>>,
    parents: &mut Vec<Option<(usize, usize)>>,
    queue: &mut Vec<usize>,
    raw: &mut Vec<ResultEdge>,
    head: usize,
    outgoing: bool,
)
    requires
        vg.wf(),
        parents_ok(vg.edges(), direction, fields_view(fields), center, vg.nodes().len() as int, old(hops)@, old(parents)@),
        bfs_inv(vg.edges(), direction, fields_view(fields), center, depth as int, vg.nodes().len() as int, old(queue)@, head as int, old(hops)@),
        head < old(queue)@.len(),
        hop_of(old(hops)@, old(queue)@[head as int]) < depth,
        outgoing ==> goes_up(direction),
        !outgoing ==> goes_down(direction),
        raw_sound(vg.edges(), direction, fields_view(fields), center, depth as int, old(raw)@),
        raw_hops_ok(old(raw)@, hop_of(old(hops)@, old(queue)@[head as int]) + 1),
    ensures
        bfs_inv(vg.edges(), direction, fields_view(fields), center, depth as int, vg.nodes().len() as int, final(queue)@, head as int, final(hops)@),
        final(queue)@.len() >= old(queue)@.len(),
        final(queue)@.take(old(queue)@.len() as int) == old(queue)@,
        forall|v: int| 0 <= v < old(hops)@.len() && (#[trigger] old(hops)@[v]) is Some ==> final(hops)@[v] == old(hops)@[v],
        raw_sound(vg.edges(), direction, fields_view(fields), center, depth as int, final(raw)@),
        final(raw)@.len() >= old(raw)@.len(),
        raw_hops_ok(final(raw)@, hop_of(old(hops)@, old(queue)@[head as int]) + 1),
        final(raw)@.take(old(raw)@.len() as int) == old(raw)@,
        parents_ok(vg.edges(), direction, fields_view(fields), center, vg.nodes().len() as int, final(hops)@, final(parents)@),
        forall|e: int| #[trigger] edge_ok(vg.edges(), fields_view(fields), e) && (if outgoing { vg.edges()[e].0 == old(queue)@[head as int] } else { vg.edges()[e].1 == old(queue)@[head as int] })
            ==> final(hops)@[(if outgoing { vg.edges()[e].1 } else { vg.edges()[e].0 }) as int] is Some
                && raw_has(final(raw)@, vg.edges()[e].0, vg.edges()[e].1, vg.edges()[e].2.field@, hop_of(old(hops)@, old(queue)@[head as int]) + 1),
{
    let ghost es = vg.edges();
    let ghost fv = fields_view(fields);
    let ghost n = vg.nodes().len() as int;
    let ghost q0 = queue@;
    let ghost hops0 = hops@;
    let ghost raw0 = raw@;
    let u = queue[head];
    let h = match hops[u] {
        Some(h) => h,
        None => 0,
    };
    assert(h == hop_of(hops0, u));
    let next = h + 1;
    let list = graph_edges_directed(&vg.graph, u, outgoing);
    proof {
        lemma_wf_edges(vg);
        lemma_incident(es, u, outgoing, es.len());
    }
    let m = list.len();
    let mut j: usize = 0;
    while j < m
        invariant
            m == list@.len(),
            j <= m,
            list@ == incident(es, u, outgoing, es.len()),
            es == vg.edges(),
            fv == fields_view(fields),
            n == vg.nodes().len(),
            vg.wf(),
            edges_in(es, n),
            es.len() < u32::MAX,
            u == q0[head as int],
            head < q0.len(),
            queue@[head as int] == u,
            hops@[u as int] == Some(h),
            h == hop_of(hops0, u),
            hops0.len() == n,
            h < depth,
            next == h + 1,
            outgoing ==> goes_up(direction),
            !outgoing ==> goes_down(direction),
            forall|jj: int| 0 <= jj < list@.len() ==> {
                let t = #[trigger] list@[jj];
                &&& t.0 < es.len()
                &&& es[t.0 as int].0 == t.1
                &&& es[t.0 as int].1 == t.2
                &&& (if outgoing { t.1 == u } else { t.2 == u })
            },
            bfs_inv(es, direction, fv, center, depth as int, n, queue@, head as int, hops@),
            parents_ok(es, direction, fv, center, n, hops@, parents@),
            queue@.len() >= q0.len(),
            queue@.take(q0.len() as int) == q0,
            forall|v: int| 0 <= v < hops0.len() && (#[trigger] hops0[v]) is Some ==> hops@[v] == hops0[v],
            raw_sound(es, direction, fv, center, depth as int, raw@),
            raw_hops_ok(raw@, next as int),
            raw@.len() >= raw0.len(),
            raw@.take(raw0.len() as int) == raw0,
            forall|jj: int| 0 <= jj < j && #[trigger] edge_ok(es, fv, list@[jj].0 as int) ==> {
                let t = list@[jj];
                &&& hops@[(if outgoing { t.2 } else { t.1 }) as int] is Some
                &&& raw_has(raw@, t.1, t.2, es[t.0 as int].2.field@, next as int)
            },
        decreases m - j,
    {
        let (eid, src, tgt) = list[j];
        let field = &crate::pgraph::graph_edge(&vg.graph, eid).field;
        if field_passes(fields, field) {
            assert(edge_ok(es, fv, eid as int));
            let neighbor = if outgoing { tgt } else { src };
            assert(neighbor < n);
            let ghost raw_before = raw@;
            raw.push(ResultEdge { from: src, to: tgt, field: field.clone(), hop: next });
            proof {
                assert(raw@.take(raw_before.len() as int) =~= raw_before);
                assert(raw@.take(raw0.len() as int) =~= raw0) by {
                    assert forall|x: int| 0 <= x < raw0.len() implies raw@[x] == raw0[x] by {
                        assert(raw_before[x] == raw0[x]) by {
                            assert(raw_before.take(raw0.len() as int)[x] == raw0[x]);
                        }
                    }
                }
                let last = raw@[raw@.len() - 1];
                assert(has_key_edge(es, fv, src, tgt, field@)) by {
                    assert(edge_ok(es, fv, eid as int) && es[eid as int].0 == src && es[eid as int].1 == tgt && es[eid as int].2.field@ == field@);
                }
                assert(within(es, direction, fv, center, h as nat, u));
                assert(raw_sound(es, direction, fv, center, depth as int, raw@)) by {
                    assert forall|x: int| 0 <= x < raw@.len() implies 1 <= (#[trigger] raw@[x]).hop <= depth && hit(es, direction, fv, center, raw@[x].from, raw@[x].to, raw@[x].field@, raw@[x].hop - 1) by {
                        if x < raw_before.len() {
                            assert(raw@[x] == raw_before[x]);
                        }
                    }
                }
                assert forall|jj: int| 0 <= jj < j && #[trigger] edge_ok(es, fv, list@[jj].0 as int) implies raw_has(raw@, list@[jj].1, list@[jj].2, es[list@[jj].0 as int].2.field@, next as int) by {
                    let k = choose|k: int| 0 <= k < raw_before.len() && (#[trigger] raw_before[k]).from == list@[jj].1 && raw_before[k].to == list@[jj].2 && raw_before[k].field@ == es[list@[jj].0 as int].2.field@ && raw_before[k].hop == next;
                    assert(raw@[k] == raw_before[k]);
                }
                assert(raw@[raw@.len() - 1].from == src);
                assert(raw_hops_ok(raw@, next as int)) by {
                    assert forall|a: int, b: int| 0 <= a < b < raw@.len() implies (#[trigger] raw@[a]).hop <= (#[trigger] raw@[b]).hop by {
                        assert(raw@[a] == raw_before[a]);
                        if b < raw_before.len() {
                            assert(raw@[b] == raw_before[b]);
                        }
                    }
                    assert forall|a: int| 0 <= a < raw@.len() implies (#[trigger] raw@[a]).hop <= next by {
                        if a < raw_before.len() {
                            assert(raw@[a] == raw_before[a]);
                        }
                    }
                }
            }
            let seen = match hops[neighbor] {
                Some(_) => true,
                None => false,
            };
            if !seen {
                proof {
                    lemma_new_node(es, direction, fv, center, depth as int, n, queue@, head as int, hops@, eid as int, neighbor);
                    lemma_queue_len(queue@, n);
                    assert(!queue@.contains(neighbor));
                }
                let ghost q1 = queue@;
                let ghost hops1 = hops@;
                let ghost parents1 = parents@;
                hops.set(neighbor, Some(next));
                parents.set(neighbor, Some((u, eid)));
                queue.push(neighbor);
                proof {
                    assert(hop_of(hops@, neighbor) == next);
                    assert forall|i: int| 0 <= i < queue@.len() implies hop_of(hops@, #[trigger] queue@[i]) <= i by {
                        if i < q1.len() {
                            assert(queue@[i] == q1[i]);
                            assert(hops1[q1[i] as int] is Some);
                        } else {
                            assert(hop_of(hops1, q1[head as int]) <= head);
                        }
                    }
                    assert forall|v: usize| v < n && v != center && (#[trigger] hops@[v as int]) is Some implies {
                        let (p, e) = parents@[v as int]->0;
                        &&& parents@[v as int] is Some
                        &&& edge_ok(es, fv, e as int)
                        &&& p < n
                        &&& hops@[p as int] is Some
                        &&& hop_of(hops@, v) == hop_of(hops@, p) + 1
                        &&& ((goes_up(direction) && es[e as int].0 == p && es[e as int].1 == v) || (goes_down(direction) && es[e as int].1 == p && es[e as int].0 == v))
                    } by {
                        if v != neighbor {
                            assert(hops1[v as int] is Some);
                            let (p, e) = parents1[v as int]->0;
                            assert(hops1[p as int] is Some);
                        } else {
                            assert(u < n);
                        }
                    }
                    assert forall|v: usize| v < n && (#[trigger] hops@[v as int]) is Some implies queue@.contains(v) by {
                        if v != neighbor {
                            assert(hops1[v as int] is Some);
                            let i = choose|i: int| 0 <= i < q1.len() && q1[i] == v;
                            assert(queue@[i] == v);
                        } else {
                            assert(queue@[queue@.len() - 1] == v);
                        }
                    }
                    assert forall|i: int| 0 <= i < queue@.len() implies (#[trigger] queue@[i]) < n && hops@[queue@[i] as int] is Some by {
                        if i < q1.len() {
                            assert(queue@[i] == q1[i]);
                        }
                    }
                    assert forall|v: usize| v < n && (#[trigger] hops@[v as int]) is Some implies at_hop(es, direction, fv, center, hop_of(hops@, v), v) && hop_of(hops@, v) <= depth by {
                        if v != neighbor {
                            assert(hops1[v as int] is Some);
                        }
                    }
                    assert forall|i: int, k: int| 0 <= i < k < queue@.len() implies hop_of(hops@, #[trigger] queue@[i]) <= hop_of(hops@, #[trigger] queue@[k]) by {
                        assert(queue@[i] == q1[i]);
                        assert(hops1[q1[i] as int] is Some);
                        if k < q1.len() {
                            assert(queue@[k] == q1[k]);
                            assert(hops1[q1[k] as int] is Some);
                        } else {
                            assert(hop_of(hops1, q1[i]) <= hop_of(hops1, q1[head as int]) + 1);
                        }
                    }
                    assert forall|i: int| 0 <= i < queue@.len() implies hop_of(hops@, #[trigger] queue@[i]) <= hop_of(hops@, queue@[head as int]) + 1 by {
                        assert(queue@[head as int] == q1[head as int]);
                        assert(hops1[q1[head as int] as int] is Some);
                        if i < q1.len() {
                            assert(queue@[i] == q1[i]);
                            assert(hops1[q1[i] as int] is Some);
                        }
                    }
                    assert(queue@.no_duplicates()) by {
                        assert forall|a: int, b: int| 0 <= a < queue@.len() && 0 <= b < queue@.len() && a != b implies queue@[a] != queue@[b] by {
                            if a < q1.len() && b < q1.len() {
                                assert(queue@[a] == q1[a]);
                                assert(queue@[b] == q1[b]);
                            } else if a < q1.len() {
                                assert(queue@[a] == q1[a]);
                                assert(q1.contains(q1[a]));
                            } else if b < q1.len() {
                                assert(queue@[b] == q1[b]);
                                assert(q1.contains(q1[b]));
                            }
                        }
                    }
                    assert forall|i: int, e: int| #![trigger queue@[i], edge_ok(es, fv, e)]
                        0 <= i < head && hop_of(hops@, queue@[i]) < depth && edge_ok(es, fv, e) && goes_up(direction) && es[e].0 == queue@[i] implies hops@[es[e].1 as int] is Some by {
                        assert(queue@[i] == q1[i]);
                        assert(hops1[q1[i] as int] is Some);
                        assert(q1[i] == q1[i] && edge_ok(es, fv, e));
                    }
                    assert forall|i: int, e: int| #![trigger queue@[i], edge_ok(es, fv, e)]
                        0 <= i < head && hop_of(hops@, queue@[i]) < depth && edge_ok(es, fv, e) && goes_down(direction) && es[e].1 == queue@[i] implies hops@[es[e].0 as int] is Some by {
                        assert(queue@[i] == q1[i]);
                        assert(hops1[q1[i] as int] is Some);
                        assert(q1[i] == q1[i] && edge_ok(es, fv, e));
                    }
                    assert(queue@.take(q0.len() as int) =~= q0) by {
                        assert forall|x: int| 0 <= x < q0.len() implies queue@[x] == q0[x] by {
                            assert(q1.take(q0.len() as int)[x] == q0[x]);
                        }
                    }
                    assert forall|v: int| 0 <= v < hops0.len() && (#[trigger] hops0[v]) is Some implies hops@[v] == hops0[v] by {
                        assert(hops1[v] == hops0[v]);
                        if v == neighbor {
                            assert(hops1[v] is None);
                        }
                    }
                    assert forall|jj: int| 0 <= jj < j && #[trigger] edge_ok(es, fv, list@[jj].0 as int) implies hops@[(if outgoing { list@[jj].2 } else { list@[jj].1 }) as int] is Some by {
                        let t = list@[jj];
                        let w = if outgoing { t.2 } else { t.1 };
                        assert(w < n);
                        assert(hops1[w as int] is Some);
                    }
                }
            }
        }
        j = j + 1;
    }
    proof {
        assert forall|e: int| #[trigger] edge_ok(es, fv, e) && (if outgoing { es[e].0 == u } else { es[e].1 == u })
            implies hops@[(if outgoing { es[e].1 } else { es[e].0 }) as int] is Some
                && raw_has(raw@, es[e].0, es[e].1, es[e].2.field@, h + 1) by {
            assert(if outgoing { (#[trigger] es[e]).0 == u } else { es[e].1 == u });
            let jj = choose|jj: int| 0 <= jj < incident(es, u, outgoing, es.len()).len() && (#[trigger] incident(es, u, outgoing, es.len())[jj]).0 == e;
            assert(list@[jj].0 == e);
            assert(edge_ok(es, fv, list@[jj].0 as int));
        }
    }
}

/// Raw edges kept in a longer list that starts with them are still there.
proof fn lemma_raw_prefix(raw0: Seq<ResultEdge>, raw1: Seq<ResultEdge>)
    requires
        raw1.len() >= raw0.len(),
        raw1.take(raw0.len() as int) == raw0,
    ensures
        forall|from: usize, to: usize, f: Seq<char>, h: int| #[trigger] raw_has(raw0, from, to, f, h) ==> raw_has(raw1, from, to, f, h),
{
    assert forall|from: usize, to: usize, f: Seq<char>, h: int| #[trigger] raw_has(raw0, from, to, f, h) implies raw_has(raw1, from, to, f, h) by {
        let j = choose|j: int| 0 <= j < raw0.len() && (#[trigger] raw0[j]).from == from && raw0[j].to == to && raw0[j].field@ == f && raw0[j].hop == h;
        assert(raw1.take(raw0.len() as int)[j] == raw1[j]);
    }
}

/// Expands node `queue[head]` in the traversal's direction (up, down or both).
#[verifier::spinoff_prover]
#[verifier::rlimit(80)]
fn expand_node(
    vg: &VaultGraph,
    fields: Option<&Vec<String>>,
    direction: TraversalDirection,
    depth: u32,
    center: usize,
    hops: &mut Vec<Option<u32>>,
    parents: &mut Vec<Option<(usize, usize)>>,
    queue: &mut Vec<usize>,
    raw: &mut Vec<ResultEdge>,
    head: usize,
)
    requires
        vg.wf(),
        parents_ok(vg.edges(), direction, fields_view(fields), center, vg.nodes().len() as int, old(hops)@, old(parents)@),
        bfs_inv(vg.edges(), direction, fields_view(fields), center, depth as int, vg.nodes().len() as int, old(queue)@, head as int, old(hops)@),
        head < old(queue)@.len(),
        hop_of(old(hops)@, old(queue)@[head as int]) < depth,
        raw_sound(vg.edges(), direction, fields_view(fields), center, depth as int, old(raw)@),
        raw_hops_ok(old(raw)@, hop_of(old(hops)@, old(queue)@[head as int]) + 1),
    ensures
        bfs_inv(vg.edges(), direction, fields_view(fields), center, depth as int, vg.nodes().len() as int, final(queue)@, head as int, final(hops)@),
        final(queue)@.len() >= old(queue)@.len(),
        final(queue)@.take(old(queue)@.len() as int) == old(queue)@,
        forall|v: int| 0 <= v < old(hops)@.len() && (#[trigger] old(hops)@[v]) is Some ==> final(hops)@[v] == old(hops)@[v],
        raw_sound(vg.edges(), direction, fields_view(fields), center, depth as int, final(raw)@),
        final(raw)@.len() >= old(raw)@.len(),
        final(raw)@.take(old(raw)@.len() as int) == old(raw)@,
        raw_hops_ok(final(raw)@, hop_of(old(hops)@, old(queue)@[head as int]) + 1),
        parents_ok(vg.edges(), direction, fields_view(fields), center, vg.nodes().len() as int, final(hops)@, final(parents)@),
        forall|e: int| #[trigger] edge_ok(vg.edges(), fields_view(fields), e) && ((goes_up(direction) && vg.edges()[e].0 == old(queue)@[head as int]) || (
        goes_down(direction) && vg.edges()[e].1 == old(queue)@[head as int])) ==> raw_has(
            final(raw)@,
            vg.edges()[e].0,
            vg.edges()[e].1,
            vg.edges()[e].2.field@,
            hop_of(old(hops)@, old(queue)@[head as int]) + 1,
        ),
        forall|e: int| #[trigger] edge_ok(vg.edges(), fields_view(fields), e) && goes_up(direction) && vg.edges()[e].0 == old(queue)@[head as int]
            ==> final(hops)@[vg.edges()[e].1 as int] is Some,
        forall|e: int| #[trigger] edge_ok(vg.edges(), fields_view(fields), e) && goes_down(direction) && vg.edges()[e].1 == old(queue)@[head as int]
            ==> final(hops)@[vg.edges()[e].0 as int] is Some,
{
    let ghost es = vg.edges();
    let ghost fv = fields_view(fields);
    let ghost q0 = queue@;
    let ghost hops0 = hops@;
    let ghost raw0 = raw@;
    let ghost u = q0[head as int];
    let ghost h = hop_of(hops0, u);
    if direction == TraversalDirection::Up || direction == TraversalDirection::Both {
        expand(vg, fields, direction, depth, center, hops, parents, queue, raw, head, true);
    } else {
        assert(queue@.take(q0.len() as int) =~= q0);
        assert(raw@.take(raw0.len() as int) =~= raw0);
    }
    let ghost q1 = queue@;
    let ghost hops1 = hops@;
    let ghost raw1 = raw@;
    proof {
        assert(q1[head as int] == u) by {
            assert(q1.take(q0.len() as int)[head as int] == q1[head as int]);
        }
        assert(hops0[u as int] is Some);
        assert(hops1[u as int] == hops0[u as int]);
    }
    if direction == TraversalDirection::Down || direction == TraversalDirection::Both {
        expand(vg, fields, direction, depth, center, hops, parents, queue, raw, head, false);
    } else {
        assert(queue@.take(q1.len() as int) =~= q1);
        assert(raw@.take(raw1.len() as int) =~= raw1);
    }
    proof {
        assert(queue@.take(q0.len() as int) =~= q0) by {
            assert forall|x: int| 0 <= x < q0.len() implies queue@[x] == q0[x] by {
                assert(queue@.take(q1.len() as int)[x] == q1[x]);
                assert(q1.take(q0.len() as int)[x] == q0[x]);
            }
        }
        assert(raw@.take(raw0.len() as int) =~= raw0) by {
            assert forall|x: int| 0 <= x < raw0.len() implies raw@[x] == raw0[x] by {
                assert(raw@.take(raw1.len() as int)[x] == raw1[x]);
                assert(raw1.take(raw0.len() as int)[x] == raw0[x]);
            }
        }
        assert forall|v: int| 0 <= v < hops0.len() && (#[trigger] hops0[v]) is Some implies hops@[v] == hops0[v] by {
            assert(hops1[v] == hops0[v]);
        }
        lemma_raw_prefix(raw1, raw@);
        assert forall|e: int| #[trigger] edge_ok(es, fv, e) && goes_up(direction) && es[e].0 == u implies hops@[es[e].1 as int] is Some by {
            assert(hops1[es[e].1 as int] is Some);
            lemma_wf_edges(vg);
        }
    }
}

/// Moving the traversal's head past `q0[head]` once it is expanded (or at
/// the depth limit) keeps the traversal's invariant.
proof fn lemma_advance(
    es: Edges,
    d: TraversalDirection,
    fv: Option<Seq<Seq<char>>>,
    c: usize,
    depth: int,
    n: int,
    q0: Seq<usize>,
    hops0: Seq<Option<u32>>,
    raw0: Seq<ResultEdge>,
    q: Seq<usize>,
    hops: Seq<Option<u32>>,
    raw: Seq<ResultEdge>,
    head: int,
)
    requires
        edges_in(es, n),
        0 <= head < q0.len(),
        bfs_inv(es, d, fv, c, depth, n, q0, head, hops0),
        raw_complete(es, d, fv, depth, q0, head, hops0, raw0),
        raw_hops_ok(raw0, hop_of(hops0, q0[head]) + 1),
        forall|j: int| 0 <= j < raw0.len() ==> (#[trigger] raw0[j]).hop <= depth,
        bfs_inv(es, d, fv, c, depth, n, q, head, hops),
        q.len() >= q0.len(),
        q.take(q0.len() as int) == q0,
        forall|v: int| 0 <= v < hops0.len() && (#[trigger] hops0[v]) is Some ==> hops[v] == hops0[v],
        raw_sound(es, d, fv, c, depth, raw),
        raw.len() >= raw0.len(),
        raw.take(raw0.len() as int) == raw0,
        raw_hops_ok(raw, hop_of(hops0, q0[head]) + 1),
        hop_of(hops0, q0[head]) < depth ==> forall|e: int| #[trigger] edge_ok(es, fv, e) && ((goes_up(d) && es[e].0 == q0[head]) || (goes_down(d)
            && es[e].1 == q0[head])) ==> raw_has(raw, es[e].0, es[e].1, es[e].2.field@, hop_of(hops0, q0[head]) + 1),
        hop_of(hops0, q0[head]) < depth ==> forall|e: int| #[trigger] edge_ok(es, fv, e) && goes_up(d) && es[e].0 == q0[head]
            ==> hops[es[e].1 as int] is Some,
        hop_of(hops0, q0[head]) < depth ==> forall|e: int| #[trigger] edge_ok(es, fv, e) && goes_down(d) && es[e].1 == q0[head]
            ==> hops[es[e].0 as int] is Some,
    ensures
        bfs_inv(es, d, fv, c, depth, n, q, head + 1, hops),
        raw_complete(es, d, fv, depth, q, head + 1, hops, raw),
        raw_hops_ok(raw, if head + 1 < q.len() { hop_of(hops, q[head + 1]) + 1 } else { depth }),
        forall|j: int| 0 <= j < raw.len() ==> (#[trigger] raw[j]).hop <= depth,
{
    let u = q0[head];
    assert(q[head] == u) by {
        assert(q.take(q0.len() as int)[head] == q[head]);
    }
    assert(hops0[u as int] is Some);
    assert(hops[u as int] == hops0[u as int]);
    lemma_raw_prefix(raw0, raw);
    assert forall|i: int| 0 <= i < head + 1 implies #[trigger] q[i] == q0[i] && hops[q[i] as int] == hops0[q0[i] as int] by {
        assert(q.take(q0.len() as int)[i] == q[i]);
        assert(hops0[q0[i] as int] is Some);
    }
    assert forall|i: int, e: int| #![trigger q[i], edge_ok(es, fv, e)]
        0 <= i < head + 1 && hop_of(hops, q[i]) < depth && edge_ok(es, fv, e) && ((goes_up(d) && es[e].0 == q[i]) || (goes_down(d) && es[e].1
            == q[i])) implies raw_has(raw, es[e].0, es[e].1, es[e].2.field@, hop_of(hops, q[i]) + 1) by {
        assert(q[i] == q0[i]);
        if i < head {
            assert(q0[i] == q0[i] && edge_ok(es, fv, e));
        }
    }
    assert forall|i: int, e: int| #![trigger q[i], edge_ok(es, fv, e)]
        0 <= i < head + 1 && hop_of(hops, q[i]) < depth && edge_ok(es, fv, e) && goes_up(d) && es[e].0 == q[i] implies hops[es[e].1 as int] is Some by {
        assert(q[i] == q0[i]);
        if i < head {
            assert(q0[i] == q0[i] && edge_ok(es, fv, e));
            assert(hops0[es[e].1 as int] is Some);
        }
    }
    assert forall|i: int, e: int| #![trigger q[i], edge_ok(es, fv, e)]
        0 <= i < head + 1 && hop_of(hops, q[i]) < depth && edge_ok(es, fv, e) && goes_down(d) && es[e].1 == q[i] implies hops[es[e].0 as int] is Some by {
        assert(q[i] == q0[i]);
        if i < head {
            assert(q0[i] == q0[i] && edge_ok(es, fv, e));
            assert(hops0[es[e].0 as int] is Some);
        }
    }
    if head + 1 < q.len() {
        assert(hops[q[head + 1] as int] is Some);
        assert(hop_of(hops, q[head]) <= hop_of(hops, q[head + 1]));
        assert forall|i: int| 0 <= i < q.len() implies hop_of(hops, #[trigger] q[i]) <= hop_of(hops, q[head + 1]) + 1 by {
            assert(hop_of(hops, q[i]) <= hop_of(hops, q[head]) + 1);
        }
    }
    assert forall|j: int| 0 <= j < raw.len() implies (#[trigger] raw[j]).hop <= depth by {
        assert(1 <= raw[j].hop <= depth);
    }
}

/// The state of a traversal from `center` before any node is expanded:
/// only the center visited, at hop 0.
fn start_traversal(vg: &VaultGraph, center: usize, depth: u32, direction: TraversalDirection, fields: Option<&Vec<String>>) -> (res: (
    Vec<Option<u32>>,
    Vec<Option<(usize, usize)>>,
    Vec<usize>,
    Vec<ResultEdge>,
))
    requires
        vg.wf(),
        center < vg.nodes().len(),
    ensures
        bfs_inv(vg.edges(), direction, fields_view(fields), center, depth as int, vg.nodes().len() as int, res.2@, 0, res.0@),
        parents_ok(vg.edges(), direction, fields_view(fields), center, vg.nodes().len() as int, res.0@, res.1@),
        res.3@.len() == 0,
        res.2@ == seq![center],
{
    let ghost es = vg.edges();
    let ghost fv = fields_view(fields);
    let n = graph_node_count(&vg.graph);
    let mut hops: Vec<Option<u32>> = Vec::new();
    let mut i: usize = 0;
    while i < n
        invariant
            i <= n,
            hops@.len() == i,
            forall|k: int| 0 <= k < i ==> (#[trigger] hops@[k]) is None,
        decreases n - i,
    {
        hops.push(None);
        i = i + 1;
    }
    hops.set(center, Some(0));
    let mut parents: Vec<Option<(usize, usize)>> = Vec::new();
    let mut i: usize = 0;
    while i < n
        invariant
            i <= n,
            parents@.len() == i,
        decreases n - i,
    {
        parents.push(None);
        i = i + 1;
    }
    let mut queue: Vec<usize> = Vec::new();
    queue.push(center);
    let mut raw: Vec<ResultEdge> = Vec::new();
    proof {
        assert(within(es, direction, fv, center, 0, center));
        assert forall|v: usize| v < n && (#[trigger] hops@[v as int]) is Some implies queue@.contains(v) by {
            assert(v == center);
            assert(queue@[0] == center);
        }
        assert forall|v: usize| v < n && (#[trigger] hops@[v as int]) is Some implies at_hop(es, direction, fv, center, hop_of(hops@, v), v)
            && hop_of(hops@, v) <= depth by {
            assert(v == center);
        }
    }
    (hops, parents, queue, raw)
}

/// Breadth-first traversal from `center`, at most `depth` hops, along the
/// edges that pass the field filter. Returns the hop of every node (`None`
/// for those not reached), the reached nodes in visiting order, and every
/// edge met while expanding a node, at the next hop, in the order met.
fn traverse(vg: &VaultGraph, center: usize, depth: u32, direction: TraversalDirection, fields: Option<&Vec<String>>) -> (res: (
    Vec<Option<u32>>,
    Vec<usize>,
    Vec<ResultEdge>,
))
    requires
        vg.wf(),
        center < vg.nodes().len(),
    ensures
        bfs_inv(vg.edges(), direction, fields_view(fields), center, depth as int, vg.nodes().len() as int, res.1@, res.1@.len() as int, res.0@),
        raw_sound(vg.edges(), direction, fields_view(fields), center, depth as int, res.2@),
        raw_complete(vg.edges(), direction, fields_view(fields), depth as int, res.1@, res.1@.len() as int, res.0@, res.2@),
        raw_hops_ok(res.2@, depth as int),
{
    let ghost es = vg.edges();
    let ghost fv = fields_view(fields);
    proof {
        lemma_wf_edges(vg);
    }
    let n = graph_node_count(&vg.graph);
    let (mut hops, mut parents, mut queue, mut raw) = start_traversal(vg, center, depth, direction, fields);
    let mut head: usize = 0;
    while head < queue.len()
        invariant
            es == vg.edges(),
            fv == fields_view(fields),
            n == vg.nodes().len(),
            vg.wf(),
            state_ok_edges(vg),
            center < n,
            head <= queue@.len(),
            bfs_inv(es, direction, fv, center, depth as int, n as int, queue@, head as int, hops@),
            parents_ok(es, direction, fv, center, n as int, hops@, parents@),
            raw_sound(es, direction, fv, center, depth as int, raw@),
            raw_complete(es, direction, fv, depth as int, queue@, head as int, hops@, raw@),
            raw_hops_ok(raw@, if head < queue@.len() { hop_of(hops@, queue@[head as int]) + 1 } else { depth as int }),
            forall|j: int| 0 <= j < raw@.len() ==> (#[trigger] raw@[j]).hop <= depth,
        decreases n - head,
    {
        proof {
            lemma_queue_len(queue@, n as int);
        }
        let ghost q0 = queue@;
        let ghost hops0 = hops@;
        let ghost raw0 = raw@;
        let u = queue[head];
        let h = match hops[u] {
            Some(h) => h,
            None => 0,
        };
        assert(hops0[u as int] is Some);
        if h < depth {
            expand_node(vg, fields, direction, depth, center, &mut hops, &mut parents, &mut queue, &mut raw, head);
        } else {
            assert(queue@.take(q0.len() as int) =~= q0);
            assert(raw@.take(raw0.len() as int) =~= raw0);
        }
        proof {
            lemma_advance(es, direction, fv, center, depth as int, n as int, q0, hops0, raw0, queue@, hops@, raw@, head as int);
        }
        head = head + 1;
    }
    (hops, queue, raw)
}

/// Raw edge `j` is the first raw edge with its key.
pub open spec fn first_occ(raw: Seq<ResultEdge>, j: int) -> bool {
    forall|k: int| 0 <= k < j ==> !same_key(#[trigger] raw[k], raw[j])
}

proof fn lemma_hit_mono(es: Edges, d: TraversalDirection, fv: Option<Seq<Seq<char>>>, c: usize, from: usize, to: usize, f: Seq<char>, k: int, k2: int)
    requires
        0 <= k <= k2,
        hit(es, d, fv, c, from, to, f, k),
    ensures
        hit(es, d, fv, c, from, to, f, k2),
{
    if goes_up(d) && within(es, d, fv, c, k as nat, from) {
        lemma_within_mono(es, d, fv, c, k as nat, k2 as nat, from);
    } else {
        lemma_within_mono(es, d, fv, c, k as nat, k2 as nat, to);
    }
}

/// A node has one distance.
pub proof fn lemma_at_hop_unique(es: Edges, d: TraversalDirection, fv: Option<Seq<Seq<char>>>, c: usize, h1: int, h2: int, v: usize)
    requires
        at_hop(es, d, fv, c, h1, v),
        at_hop(es, d, fv, c, h2, v),
    ensures
        h1 == h2,
{
    if h1 < h2 {
        lemma_within_mono(es, d, fv, c, h1 as nat, (h2 - 1) as nat, v);
    } else if h2 < h1 {
        lemma_within_mono(es, d, fv, c, h2 as nat, (h1 - 1) as nat, v);
    }
}

/// An edge key is first met at one hop.
pub proof fn lemma_key_hop_unique(
    es: Edges,
    d: TraversalDirection,
    fv: Option<Seq<Seq<char>>>,
    c: usize,
    depth: int,
    from: usize,
    to: usize,
    f: Seq<char>,
    h1: int,
    h2: int,
)
    requires
        key_at_hop(es, d, fv, c, depth, from, to, f, h1),
        key_at_hop(es, d, fv, c, depth, from, to, f, h2),
    ensures
        h1 == h2,
{
    if h1 < h2 {
        lemma_hit_mono(es, d, fv, c, from, to, f, h1 - 1, h2 - 2);
    } else if h2 < h1 {
        lemma_hit_mono(es, d, fv, c, from, to, f, h2 - 1, h1 - 2);
    }
}

/// The traversal, finished: every node was expanded, every edge met was
/// recorded.
pub open spec fn traversal_done(
    es: Edges,
    d: TraversalDirection,
    fv: Option<Seq<Seq<char>>>,
    c: usize,
    depth: int,
    n: int,
    q: Seq<usize>,
    hops: Seq<Option<u32>>,
    raw: Seq<ResultEdge>,
) -> bool {
    &&& edges_in(es, n)
    &&& depth >= 0
    &&& bfs_inv(es, d, fv, c, depth, n, q, q.len() as int, hops)
    &&& raw_sound(es, d, fv, c, depth, raw)
    &&& raw_complete(es, d, fv, depth, q, q.len() as int, hops, raw)
    &&& raw_hops_ok(raw, depth)
}

/// A key met at hop `h` by an edge at a node within fewer steps is recorded
/// at a hop no later than `h`.
proof fn lemma_met_earlier(
    es: Edges,
    d: TraversalDirection,
    fv: Option<Seq<Seq<char>>>,
    c: usize,
    depth: int,
    n: int,
    q: Seq<usize>,
    hops: Seq<Option<u32>>,
    raw: Seq<ResultEdge>,
    from: usize,
    to: usize,
    f: Seq<char>,
    k: int,
) -> (m: int)
    requires
        traversal_done(es, d, fv, c, depth, n, q, hops, raw),
        0 <= k < depth,
        hit(es, d, fv, c, from, to, f, k),
    ensures
        0 <= m < raw.len(),
        raw[m].from == from && raw[m].to == to && raw[m].field@ == f,
        raw[m].hop <= k + 1,
{
    lemma_complete(es, d, fv, c, depth, n, q, hops, k as nat);
    let e = choose|e: int| #[trigger] edge_ok(es, fv, e) && es[e].0 == from && es[e].1 == to && es[e].2.field@ == f;
    let x = if goes_up(d) && within(es, d, fv, c, k as nat, from) { from } else { to };
    assert(within(es, d, fv, c, k as nat, x));
    assert(q.contains(x));
    let i = choose|i: int| 0 <= i < q.len() && q[i] == x;
    assert(q[i] == x && edge_ok(es, fv, e));
    assert(raw_has(raw, es[e].0, es[e].1, es[e].2.field@, hop_of(hops, q[i]) + 1));
    let m = choose|m: int| 0 <= m < raw.len() && (#[trigger] raw[m]).from == from && raw[m].to == to && raw[m].field@ == f && raw[m].hop == hop_of(hops, q[i]) + 1;
    m
}

/// The first raw edge with a key carries the hop at which the key is first met.
proof fn lemma_first_sound(
    es: Edges,
    d: TraversalDirection,
    fv: Option<Seq<Seq<char>>>,
    c: usize,
    depth: int,
    n: int,
    q: Seq<usize>,
    hops: Seq<Option<u32>>,
    raw: Seq<ResultEdge>,
    j: int,
)
    requires
        traversal_done(es, d, fv, c, depth, n, q, hops, raw),
        0 <= j < raw.len(),
        first_occ(raw, j),
    ensures
        edge_at_hop(es, d, fv, c, depth, raw[j]),
{
    let r = raw[j];
    let h = r.hop as int;
    assert(1 <= raw[j].hop <= depth && hit(es, d, fv, c, raw[j].from, raw[j].to, raw[j].field@, raw[j].hop - 1));
    if h >= 2 && hit(es, d, fv, c, r.from, r.to, r.field@, h - 2) {
        let m = lemma_met_earlier(es, d, fv, c, depth, n, q, hops, raw, r.from, r.to, r.field@, h - 2);
        if m >= j {
            assert(raw[j].hop <= raw[m].hop);
        }
        assert(same_key(raw[m], raw[j]));
    }
}

/// Every raw edge has a first raw edge with its key, at or before it.
proof fn lemma_first_index(raw: Seq<ResultEdge>, m: int) -> (j: int)
    requires
        0 <= m < raw.len(),
    ensures
        0 <= j <= m,
        same_key(raw[j], raw[m]),
        first_occ(raw, j),
    decreases m,
{
    if first_occ(raw, m) {
        m
    } else {
        let k = choose|k: int| 0 <= k < m && #[trigger] same_key(raw[k], raw[m]);
        lemma_first_index(raw, k)
    }
}

/// Every key first met at some hop is the key of a first raw edge, at that hop.
proof fn lemma_key_found(
    es: Edges,
    d: TraversalDirection,
    fv: Option<Seq<Seq<char>>>,
    c: usize,
    depth: int,
    n: int,
    q: Seq<usize>,
    hops: Seq<Option<u32>>,
    raw: Seq<ResultEdge>,
    from: usize,
    to: usize,
    f: Seq<char>,
    h: int,
) -> (j: int)
    requires
        traversal_done(es, d, fv, c, depth, n, q, hops, raw),
        key_at_hop(es, d, fv, c, depth, from, to, f, h),
    ensures
        0 <= j < raw.len(),
        first_occ(raw, j),
        raw[j].from == from && raw[j].to == to && raw[j].field@ == f && raw[j].hop == h,
{
    let m = lemma_met_earlier(es, d, fv, c, depth, n, q, hops, raw, from, to, f, h - 1);
    let j = lemma_first_index(raw, m);
    lemma_first_sound(es, d, fv, c, depth, n, q, hops, raw, j);
    lemma_key_hop_unique(es, d, fv, c, depth, from, to, f, raw[j].hop as int, h);
    j
}

/// The nodes reached are exactly those within the depth, each at its distance.
proof fn lemma_nodes_found(
    es: Edges,
    d: TraversalDirection,
    fv: Option<Seq<Seq<char>>>,
    c: usize,
    depth: int,
    n: int,
    q: Seq<usize>,
    hops: Seq<Option<u32>>,
    raw: Seq<ResultEdge>,
    v: usize,
    h: int,
)
    requires
        traversal_done(es, d, fv, c, depth, n, q, hops, raw),
        0 <= h <= depth,
        at_hop(es, d, fv, c, h, v),
    ensures
        q.contains(v),
        hops[v as int] is Some,
        hop_of(hops, v) == h,
{
    lemma_complete(es, d, fv, c, depth, n, q, hops, h as nat);
    assert(within(es, d, fv, c, h as nat, v));
    lemma_at_hop_unique(es, d, fv, c, hop_of(hops, v), h, v);
}

/// Indices of the raw edges that are the first with their key, in order.
fn first_occurrences(raw: &Vec<ResultEdge>) -> (kept: Vec<usize>)
    ensures
        forall|i: int| 0 <= i < kept@.len() ==> (#[trigger] kept@[i]) < raw@.len() && first_occ(raw@, kept@[i] as int),
        forall|j: int| 0 <= j < raw@.len() && first_occ(raw@, j) ==> kept@.contains(j as usize),
        forall|a: int, b: int| 0 <= a < b < kept@.len() ==> kept@[a] < kept@[b],
{
    let n = raw.len();
    let mut kept: Vec<usize> = Vec::new();
    let mut j: usize = 0;
    while j < n
        invariant
            n == raw@.len(),
            j <= n,
            forall|i: int| 0 <= i < kept@.len() ==> (#[trigger] kept@[i]) < j && first_occ(raw@, kept@[i] as int),
            forall|x: int| 0 <= x < j && first_occ(raw@, x) ==> kept@.contains(x as usize),
            forall|a: int, b: int| 0 <= a < b < kept@.len() ==> kept@[a] < kept@[b],
        decreases n - j,
    {
        let mut k: usize = 0;
        let mut dup = false;
        while k < j
            invariant
                n == raw@.len(),
                j < n,
                k <= j,
                dup == exists|x: int| 0 <= x < k && #[trigger] same_key(raw@[x], raw@[j as int]),
            decreases j - k,
        {
            if raw[k].from == raw[j].from && raw[k].to == raw[j].to && raw[k].field == raw[j].field {
                assert(same_key(raw@[k as int], raw@[j as int]));
                dup = true;
            }
            k = k + 1;
        }
        let ghost before = kept@;
        if !dup {
            kept.push(j);
            proof {
                assert forall|x: int| 0 <= x < j + 1 && first_occ(raw@, x) implies kept@.contains(x as usize) by {
                    if x < j {
                        let i = choose|i: int| 0 <= i < before.len() && before[i] == x as usize;
                        assert(kept@[i] == before[i]);
                    } else {
                        assert(kept@[kept@.len() - 1] == j);
                    }
                }
            }
        } else {
            proof {
                assert forall|x: int| 0 <= x < j + 1 && first_occ(raw@, x) implies kept@.contains(x as usize) by {
                    if x == j {
                        let y = choose|y: int| 0 <= y < j && #[trigger] same_key(raw@[y], raw@[j as int]);
                    }
                }
            }
        }
        j = j + 1;
    }
    kept
}

/// The title of node `v`.
pub open spec fn title_of(vg: &VaultGraph, v: usize) -> Seq<char> {
    vg.nodes()[v as int].title@
}

/// The order of the nodes of a query result: by hop, then title, then index.
pub open spec fn node_key(vg: &VaultGraph, v: usize, h: int) -> Seq<(int, Seq<char>)> {
    seq![(h, Seq::<char>::empty()), (-1int, title_of(vg, v)), (v as int, Seq::<char>::empty())]
}

/// The order of the edges of a query result: by hop, then source title,
/// then target title, then field, then source index, then target index.
pub open spec fn edge_key(vg: &VaultGraph, e: ResultEdge) -> Seq<(int, Seq<char>)> {
    seq![
        (e.hop as int, Seq::<char>::empty()),
        (-1int, title_of(vg, e.from)),
        (-1int, title_of(vg, e.to)),
        (-1int, e.field@),
        (e.from as int, Seq::<char>::empty()),
        (e.to as int, Seq::<char>::empty()),
    ]
}

/// The visited nodes with their hops, sorted by `node_key`.
fn sorted_nodes(vg: &VaultGraph, queue: &Vec<usize>, hops: &Vec<Option<u32>>) -> (res: Vec<(usize, u32)>)
    requires
        vg.wf(),
        hops@.len() == vg.nodes().len(),
        queue@.no_duplicates(),
        forall|i: int| 0 <= i < queue@.len() ==> (#[trigger] queue@[i]) < vg.nodes().len() && hops@[queue@[i] as int] is Some,
    ensures
        res@.len() == queue@.len(),
        forall|k: int| 0 <= k < res@.len() ==> queue@.contains((#[trigger] res@[k]).0) && res@[k].1 == hop_of(hops@, res@[k].0),
        forall|v: usize| #[trigger] queue@.contains(v) ==> exists|k: int| 0 <= k < res@.len() && (#[trigger] res@[k]).0 == v,
        forall|a: int, b: int| 0 <= a < b < res@.len() ==> key_lt(
            node_key(vg, (#[trigger] res@[a]).0, res@[a].1 as int),
            node_key(vg, (#[trigger] res@[b]).0, res@[b].1 as int),
        ),
{
    let mut keys: Vec<Vec<KeyPart>> = Vec::new();
    let mut i: usize = 0;
    while i < queue.len()
        invariant
            vg.wf(),
            hops@.len() == vg.nodes().len(),
            forall|i: int| 0 <= i < queue@.len() ==> (#[trigger] queue@[i]) < vg.nodes().len() && hops@[queue@[i] as int] is Some,
            i <= queue@.len(),
            keys@.len() == i,
            forall|k: int| 0 <= k < i ==> #[trigger] key_at(keys@, k) == node_key(vg, queue@[k], hop_of(hops@, queue@[k])),
        decreases queue@.len() - i,
    {
        let v = queue[i];
        let h = match hops[v] {
            Some(h) => h,
            None => 0,
        };
        let title = chars_of(crate::pgraph::graph_node(&vg.graph, v).title.as_str());
        let mut key: Vec<KeyPart> = Vec::new();
        key.push(KeyPart::Num(h as u64));
        key.push(KeyPart::Text(title));
        key.push(KeyPart::Num(v as u64));
        assert(key_view(key@) =~= node_key(vg, v, h as int));
        let ghost before = keys@;
        let ghost kg = key;
        keys.push(key);
        proof {
            assert(keys@[i as int] == kg);
            assert forall|k: int| 0 <= k < i + 1 implies #[trigger] key_at(keys@, k) == node_key(vg, queue@[k], hop_of(hops@, queue@[k])) by {
                if k < i {
                    assert(keys@[k] == before[k]);
                    assert(key_at(before, k) == node_key(vg, queue@[k], hop_of(hops@, queue@[k])));
                } else {
                    assert(key_at(keys@, k) == key_view(kg@));
                }
            }
        }
        i = i + 1;
    }
    proof {
        assert forall|a: int, b: int| 0 <= a < keys@.len() && 0 <= b < keys@.len() && a != b implies key_at(keys@, a) != key_at(keys@, b) by {
            assert(queue@[a] != queue@[b]);
            assert(key_at(keys@, a)[2] != key_at(keys@, b)[2]);
        }
        assert(distinct_keys(keys@));
    }
    let order = sorted_indices(&keys);
    let mut res: Vec<(usize, u32)> = Vec::new();
    let mut t: usize = 0;
    while t < order.len()
        invariant
            order@.len() == keys@.len(),
            keys@.len() == queue@.len(),
            forall|i: int| 0 <= i < order@.len() ==> order@[i] < keys@.len(),
            forall|i: int| 0 <= i < queue@.len() ==> (#[trigger] queue@[i]) < vg.nodes().len() && hops@[queue@[i] as int] is Some,
            hops@.len() == vg.nodes().len(),
            t <= order@.len(),
            res@.len() == t,
            forall|k: int| 0 <= k < t ==> (#[trigger] res@[k]).0 == queue@[order@[k] as int] && res@[k].1 == hop_of(hops@, res@[k].0),
        decreases order@.len() - t,
    {
        let v = queue[order[t]];
        let h = match hops[v] {
            Some(h) => h,
            None => 0,
        };
        res.push((v, h));
        t = t + 1;
    }
    proof {
        assert forall|k: int| 0 <= k < res@.len() implies queue@.contains((#[trigger] res@[k]).0) && res@[k].1 == hop_of(hops@, res@[k].0) by {
            assert(queue@[order@[k] as int] == res@[k].0);
        }
        assert forall|v: usize| #[trigger] queue@.contains(v) implies exists|k: int| 0 <= k < res@.len() && (#[trigger] res@[k]).0 == v by {
            let i = choose|i: int| 0 <= i < queue@.len() && queue@[i] == v;
            assert(order@.contains(i as usize));
            let k = choose|k: int| 0 <= k < order@.len() && order@[k] == i as usize;
            assert(res@[k].0 == queue@[i]);
        }
        assert forall|a: int, b: int| 0 <= a < b < res@.len() implies key_lt(
            node_key(vg, (#[trigger] res@[a]).0, res@[a].1 as int),
            node_key(vg, (#[trigger] res@[b]).0, res@[b].1 as int),
        ) by {
            assert(key_lt(key_at(keys@, order@[a] as int), key_at(keys@, order@[b] as int)));
        }
    }
    res
}

/// What sorting the kept raw edges by key gives.
proof fn lemma_sorted_edges(
    vg: &VaultGraph,
    raw: Seq<ResultEdge>,
    kept: Seq<usize>,
    keys: Seq<Vec<KeyPart>>,
    order: Seq<usize>,
    res: Seq<ResultEdge>,
)
    requires
        keys.len() == kept.len(),
        forall|k: int| 0 <= k < keys.len() ==> #[trigger] key_at(keys, k) == edge_key(vg, raw[kept[k] as int]),
        forall|a: int, b: int| 0 <= a < b < kept.len() ==> !same_key(raw[#[trigger] kept[a] as int], raw[#[trigger] kept[b] as int]),
        order.len() == keys.len(),
        order.no_duplicates(),
        forall|i: int| 0 <= i < order.len() ==> order[i] < keys.len(),
        forall|i: usize| i < keys.len() ==> #[trigger] order.contains(i),
        forall|i: int, j: int| 0 <= i < j < order.len() ==> key_lt(key_at(keys, order[i] as int), key_at(keys, order[j] as int)),
        res.len() == order.len(),
        forall|k: int| 0 <= k < res.len() ==> #[trigger] res[k] == raw[kept[order[k] as int] as int],
    ensures
        forall|a: int, b: int| 0 <= a < b < res.len() ==> !same_key(#[trigger] res[a], #[trigger] res[b]),
        forall|a: int, b: int| 0 <= a < b < res.len() ==> key_lt(edge_key(vg, #[trigger] res[a]), edge_key(vg, #[trigger] res[b])),
{
        assert forall|a: int, b: int| 0 <= a < b < res.len() implies !same_key(#[trigger] res[a], #[trigger] res[b]) by {
            let ta = order[a] as int;
            let tb = order[b] as int;
            assert(ta != tb);
            if ta < tb {
                assert(!same_key(raw[kept[ta] as int], raw[kept[tb] as int]));
            } else {
                assert(!same_key(raw[kept[tb] as int], raw[kept[ta] as int]));
            }
        }
        assert forall|a: int, b: int| 0 <= a < b < res.len() implies key_lt(edge_key(vg, #[trigger] res[a]), edge_key(vg, #[trigger] res[b])) by {
            assert(key_lt(key_at(keys, order[a] as int), key_at(keys, order[b] as int)));
        }
}

/// The kept raw edges, sorted by `edge_key`.
fn sorted_edges(vg: &VaultGraph, raw: &Vec<ResultEdge>, kept: &Vec<usize>) -> (res: (Vec<ResultEdge>, Vec<usize>))
    requires
        vg.wf(),
        forall|t: int| 0 <= t < kept@.len() ==> (#[trigger] kept@[t]) < raw@.len(),
        forall|j: int| 0 <= j < raw@.len() ==> (#[trigger] raw@[j]).from < vg.nodes().len() && raw@[j].to < vg.nodes().len(),
        forall|a: int, b: int| 0 <= a < b < kept@.len() ==> !same_key(raw@[#[trigger] kept@[a] as int], raw@[#[trigger] kept@[b] as int]),
    ensures
        res.0@.len() == kept@.len(),
        res.1@.len() == kept@.len(),
        res.1@.no_duplicates(),
        forall|k: int| 0 <= k < res.1@.len() ==> #[trigger] res.1@[k] < kept@.len(),
        forall|t: usize| t < kept@.len() ==> #[trigger] res.1@.contains(t),
        forall|k: int| 0 <= k < res.0@.len() ==> #[trigger] res.0@[k] == raw@[kept@[res.1@[k] as int] as int],
        forall|a: int, b: int| 0 <= a < b < res.0@.len() ==> !same_key(#[trigger] res.0@[a], #[trigger] res.0@[b]),
        forall|a: int, b: int| 0 <= a < b < res.0@.len() ==> key_lt(edge_key(vg, #[trigger] res.0@[a]), edge_key(vg, #[trigger] res.0@[b])),
{
    let mut keys: Vec<Vec<KeyPart>> = Vec::new();
    let mut i: usize = 0;
    while i < kept.len()
        invariant
            vg.wf(),
            forall|t: int| 0 <= t < kept@.len() ==> (#[trigger] kept@[t]) < raw@.len(),
            forall|j: int| 0 <= j < raw@.len() ==> (#[trigger] raw@[j]).from < vg.nodes().len() && raw@[j].to < vg.nodes().len(),
            i <= kept@.len(),
            keys@.len() == i,
            forall|k: int| 0 <= k < i ==> #[trigger] key_at(keys@, k) == edge_key(vg, raw@[kept@[k] as int]),
        decreases kept@.len() - i,
    {
        let e = &raw[kept[i]];
        let from_title = chars_of(crate::pgraph::graph_node(&vg.graph, e.from).title.as_str());
        let to_title = chars_of(crate::pgraph::graph_node(&vg.graph, e.to).title.as_str());
        let field = chars_of(e.field.as_str());
        let mut key: Vec<KeyPart> = Vec::new();
        key.push(KeyPart::Num(e.hop as u64));
        key.push(KeyPart::Text(from_title));
        key.push(KeyPart::Text(to_title));
        key.push(KeyPart::Text(field));
        key.push(KeyPart::Num(e.from as u64));
        key.push(KeyPart::Num(e.to as u64));
        assert(key_view(key@) =~= edge_key(vg, raw@[kept@[i as int] as int]));
        let ghost before = keys@;
        let ghost kg = key;
        keys.push(key);
        proof {
            assert(keys@[i as int] == kg);
            assert forall|k: int| 0 <= k < i + 1 implies #[trigger] key_at(keys@, k) == edge_key(vg, raw@[kept@[k] as int]) by {
                if k < i {
                    assert(keys@[k] == before[k]);
                    assert(key_at(before, k) == edge_key(vg, raw@[kept@[k] as int]));
                } else {
                    assert(key_at(keys@, k) == key_view(kg@));
                }
            }
        }
        i = i + 1;
    }
    proof {
        assert forall|a: int, b: int| 0 <= a < keys@.len() && 0 <= b < keys@.len() && a != b implies key_at(keys@, a) != key_at(keys@, b) by {
            let ea = raw@[kept@[a] as int];
            let eb = raw@[kept@[b] as int];
            if a < b {
                assert(!same_key(raw@[kept@[a] as int], raw@[kept@[b] as int]));
            } else {
                assert(!same_key(raw@[kept@[b] as int], raw@[kept@[a] as int]));
            }
            if ea.from != eb.from {
                assert(key_at(keys@, a)[4] != key_at(keys@, b)[4]);
            } else if ea.to != eb.to {
                assert(key_at(keys@, a)[5] != key_at(keys@, b)[5]);
            } else {
                assert(key_at(keys@, a)[3] != key_at(keys@, b)[3]);
            }
        }
        assert(distinct_keys(keys@));
    }
    let order = sorted_indices(&keys);
    let mut res: Vec<ResultEdge> = Vec::new();
    let mut t: usize = 0;
    while t < order.len()
        invariant
            order@.len() == keys@.len(),
            keys@.len() == kept@.len(),
            forall|i: int| 0 <= i < order@.len() ==> order@[i] < keys@.len(),
            forall|t: int| 0 <= t < kept@.len() ==> (#[trigger] kept@[t]) < raw@.len(),
            t <= order@.len(),
            res@.len() == t,
            forall|k: int| 0 <= k < t ==> #[trigger] res@[k] == raw@[kept@[order@[k] as int] as int],
        decreases order@.len() - t,
    {
        let e = &raw[kept[order[t]]];
        res.push(ResultEdge { from: e.from, to: e.to, field: e.field.clone(), hop: e.hop });
        t = t + 1;
    }
    proof {
        lemma_sorted_edges(vg, raw@, kept@, keys@, order@, res@);
    }
    (res, order)
}

/// The nodes and edges of a query result belong to the graph.
pub open spec fn result_in_graph(vg: &VaultGraph, r: QueryResult) -> bool {
    &&& r.center < vg.nodes().len()
    &&& forall|i: int| 0 <= i < r.nodes@.len() ==> (#[trigger] r.nodes@[i]).0 < vg.nodes().len()
    &&& forall|i: int| 0 <= i < r.edges@.len() ==> (#[trigger] r.edges@[i]).from < vg.nodes().len() && r.edges@[i].to < vg.nodes().len()
}

/// What a query answers: the result records its center, depth and
/// direction; its nodes are those within `depth` steps, each once with its
/// distance, in `node_key` order; its edges are the distinct keys met
/// while expanding the nodes closer than `depth`, each with the hop it is
/// first met at, in strict `edge_key` order; and all of them belong to the graph.
pub open spec fn query_answers(
    vg: &VaultGraph,
    center: usize,
    depth: u32,
    direction: TraversalDirection,
    fv: Option<Seq<Seq<char>>>,
    res: QueryResult,
) -> bool {
    &&& res.center == center
    &&& res.depth == depth
    &&& res.direction == direction
    &&& forall|i: int| 0 <= i < res.nodes@.len() ==> {
        let (v, h) = #[trigger] res.nodes@[i];
        h <= depth && at_hop(vg.edges(), direction, fv, center, h as int, v)
    }
    &&& forall|v: usize, h: int| 0 <= h <= depth && #[trigger] at_hop(vg.edges(), direction, fv, center, h, v) ==> exists|i: int|
        0 <= i < res.nodes@.len() && (#[trigger] res.nodes@[i]).0 == v && res.nodes@[i].1 == h
    &&& forall|i: int, j: int| 0 <= i < j < res.nodes@.len() ==> key_lt(
        node_key(vg, (#[trigger] res.nodes@[i]).0, res.nodes@[i].1 as int),
        node_key(vg, (#[trigger] res.nodes@[j]).0, res.nodes@[j].1 as int),
    )
    &&& forall|i: int| 0 <= i < res.edges@.len() ==> #[trigger] edge_at_hop(vg.edges(), direction, fv, center, depth as int, res.edges@[i])
    &&& forall|from: usize, to: usize, f: Seq<char>, h: int| #[trigger] key_at_hop(vg.edges(), direction, fv, center, depth as int, from, to, f, h)
        ==> exists|i: int| 0 <= i < res.edges@.len() && (#[trigger] res.edges@[i]).from == from && res.edges@[i].to == to && res.edges@[i].field@ == f
            && res.edges@[i].hop == h
    &&& forall|i: int, j: int| 0 <= i < j < res.edges@.len() ==> !same_key(#[trigger] res.edges@[i], #[trigger] res.edges@[j])
    &&& forall|i: int, j: int| 0 <= i < j < res.edges@.len() ==> key_lt(edge_key(vg, #[trigger] res.edges@[i]), edge_key(vg, #[trigger] res.edges@[j]))
    &&& result_in_graph(vg, res)
}

/// The node keys of a query result's nodes, in order.
pub open spec fn node_keys(vg: &VaultGraph, ns: Seq<(usize, u32)>) -> Seq<Seq<(int, Seq<char>)>> {
    ns.map_values(|x: (usize, u32)| node_key(vg, x.0, x.1 as int))
}

/// The edge keys of a query result's edges, in order.
pub open spec fn edge_keys(vg: &VaultGraph, es: Seq<ResultEdge>) -> Seq<Seq<(int, Seq<char>)>> {
    es.map_values(|e: ResultEdge| edge_key(vg, e))
}

proof fn lemma_result_keys(vg: &VaultGraph, center: usize, depth: u32, direction: TraversalDirection, fv: Option<Seq<Seq<char>>>, r1: QueryResult, r2: QueryResult)
    requires
        query_answers(vg, center, depth, direction, fv, r1),
        query_answers(vg, center, depth, direction, fv, r2),
    ensures
        strictly_sorted(node_keys(vg, r1.nodes@)),
        strictly_sorted(edge_keys(vg, r1.edges@)),
        forall|i: int| 0 <= i < r1.nodes@.len() ==> node_keys(vg, r2.nodes@).contains(#[trigger] node_keys(vg, r1.nodes@)[i]),
        forall|i: int| 0 <= i < r1.edges@.len() ==> edge_keys(vg, r2.edges@).contains(#[trigger] edge_keys(vg, r1.edges@)[i]),
{
    let nk = node_keys(vg, r1.nodes@);
    let ek = edge_keys(vg, r1.edges@);
    assert forall|i: int, j: int| 0 <= i < j < nk.len() implies key_lt(#[trigger] nk[i], #[trigger] nk[j]) by {
        assert(key_lt(node_key(vg, r1.nodes@[i].0, r1.nodes@[i].1 as int), node_key(vg, r1.nodes@[j].0, r1.nodes@[j].1 as int)));
    }
    assert forall|i: int, j: int| 0 <= i < j < ek.len() implies key_lt(#[trigger] ek[i], #[trigger] ek[j]) by {
        assert(key_lt(edge_key(vg, r1.edges@[i]), edge_key(vg, r1.edges@[j])));
    }
    assert forall|i: int| 0 <= i < r1.nodes@.len() implies node_keys(vg, r2.nodes@).contains(#[trigger] node_keys(vg, r1.nodes@)[i]) by {
        let (v, h) = r1.nodes@[i];
        assert(h <= depth && at_hop(vg.edges(), direction, fv, center, h as int, v));
        let k = choose|k: int| 0 <= k < r2.nodes@.len() && (#[trigger] r2.nodes@[k]).0 == v && r2.nodes@[k].1 == h as int;
        assert(node_keys(vg, r2.nodes@)[k] == nk[i]);
    }
    assert forall|i: int| 0 <= i < r1.edges@.len() implies edge_keys(vg, r2.edges@).contains(#[trigger] edge_keys(vg, r1.edges@)[i]) by {
        let e = r1.edges@[i];
        assert(edge_at_hop(vg.edges(), direction, fv, center, depth as int, e));
        assert(key_at_hop(vg.edges(), direction, fv, center, depth as int, e.from, e.to, e.field@, e.hop as int));
        let k = choose|k: int| 0 <= k < r2.edges@.len() && (#[trigger] r2.edges@[k]).from == e.from && r2.edges@[k].to == e.to
            && r2.edges@[k].field@ == e.field@ && r2.edges@[k].hop == e.hop as int;
        assert(edge_keys(vg, r2.edges@)[k] =~= ek[i]);
    }
}

/// A query answers one way: two results that meet `query_answers` for one
/// graph and the same arguments list the same nodes with the same hops, and
/// the same edges (source, target, field, hop), in the same order. So every
/// call of `query` with the same arguments gives the same lists.
pub proof fn lemma_query_unique(
    vg: &VaultGraph,
    center: usize,
    depth: u32,
    direction: TraversalDirection,
    fv: Option<Seq<Seq<char>>>,
    r1: QueryResult,
    r2: QueryResult,
)
    requires
        query_answers(vg, center, depth, direction, fv, r1),
        query_answers(vg, center, depth, direction, fv, r2),
    ensures
        r1.nodes@ == r2.nodes@,
        r1.edges@.len() == r2.edges@.len(),
        forall|i: int| 0 <= i < r1.edges@.len() ==> {
            let (a, b) = (#[trigger] r1.edges@[i], r2.edges@[i]);
            a.from == b.from && a.to == b.to && a.field@ == b.field@ && a.hop == b.hop
        },
{
    lemma_result_keys(vg, center, depth, direction, fv, r1, r2);
    lemma_result_keys(vg, center, depth, direction, fv, r2, r1);
    let n1 = node_keys(vg, r1.nodes@);
    let n2 = node_keys(vg, r2.nodes@);
    let e1 = edge_keys(vg, r1.edges@);
    let e2 = edge_keys(vg, r2.edges@);
    lemma_sorted_unique(n1, n2);
    lemma_sorted_unique(e1, e2);
    assert forall|i: int| 0 <= i < r1.nodes@.len() implies r1.nodes@[i] == r2.nodes@[i] by {
        assert(n1[i] == n2[i]);
        assert(n1[i][0].0 == r1.nodes@[i].1 && n1[i][2].0 == r1.nodes@[i].0);
        assert(n2[i][0].0 == r2.nodes@[i].1 && n2[i][2].0 == r2.nodes@[i].0);
    }
    assert(r1.nodes@ =~= r2.nodes@);
    assert forall|i: int| 0 <= i < r1.edges@.len() implies {
        let (a, b) = (#[trigger] r1.edges@[i], r2.edges@[i]);
        a.from == b.from && a.to == b.to && a.field@ == b.field@ && a.hop == b.hop
    } by {
        assert(e1[i] == e2[i]);
        assert(e1[i][0].0 == r1.edges@[i].hop && e1[i][3].1 == r1.edges@[i].field@ && e1[i][4].0 == r1.edges@[i].from && e1[i][5].0 == r1.edges@[i].to);
        assert(e2[i][0].0 == r2.edges@[i].hop && e2[i][3].1 == r2.edges@[i].field@ && e2[i][4].0 == r2.edges@[i].from && e2[i][5].0 == r2.edges@[i].to);
    }
}

proof fn lemma_key_lt_head(a: Seq<(int, Seq<char>)>, b: Seq<(int, Seq<char>)>)
    requires
        key_lt(a, b),
        a.len() > 0,
        b.len() > 0,
    ensures
        a[0].0 <= b[0].0,
{
}

/// A query result lists its nodes by distance and its edges by hop: no
/// node comes after one farther away, and no edge after one met later.
pub proof fn lemma_query_by_distance(
    vg: &VaultGraph,
    center: usize,
    depth: u32,
    direction: TraversalDirection,
    fv: Option<Seq<Seq<char>>>,
    r: QueryResult,
)
    requires
        query_answers(vg, center, depth, direction, fv, r),
    ensures
        forall|i: int, j: int| 0 <= i < j < r.nodes@.len() ==> (#[trigger] r.nodes@[i]).1 <= (#[trigger] r.nodes@[j]).1,
        forall|i: int, j: int| 0 <= i < j < r.edges@.len() ==> (#[trigger] r.edges@[i]).hop <= (#[trigger] r.edges@[j]).hop,
{
    assert forall|i: int, j: int| 0 <= i < j < r.nodes@.len() implies (#[trigger] r.nodes@[i]).1 <= (#[trigger] r.nodes@[j]).1 by {
        lemma_key_lt_head(node_key(vg, r.nodes@[i].0, r.nodes@[i].1 as int), node_key(vg, r.nodes@[j].0, r.nodes@[j].1 as int));
    }
    assert forall|i: int, j: int| 0 <= i < j < r.edges@.len() implies (#[trigger] r.edges@[i]).hop <= (#[trigger] r.edges@[j]).hop by {
        lemma_key_lt_head(edge_key(vg, r.edges@[i]), edge_key(vg, r.edges@[j]));
    }
}

/// One step up from `c` reaches exactly the targets of the edges leaving
/// `c` whose field passes the filter; one step down, the sources of the
/// edges entering `c`; both ways, either.
pub proof fn lemma_one_step(es: Edges, fv: Option<Seq<Seq<char>>>, c: usize, v: usize)
    ensures
        at_hop(es, TraversalDirection::Up, fv, c, 1, v) <==> v != c && exists|i: int|
            0 <= i < es.len() && #[trigger] es[i].0 == c && es[i].1 == v && allowed_field(fv, es[i].2.field@),
        at_hop(es, TraversalDirection::Down, fv, c, 1, v) <==> v != c && exists|i: int|
            0 <= i < es.len() && #[trigger] es[i].1 == c && es[i].0 == v && allowed_field(fv, es[i].2.field@),
        at_hop(es, TraversalDirection::Both, fv, c, 1, v) <==> v != c && exists|i: int|
            0 <= i < es.len() && allowed_field(fv, #[trigger] es[i].2.field@) && ((es[i].0 == c && es[i].1 == v) || (es[i].1 == c && es[i].0 == v)),
{
    reveal_with_fuel(within, 2);
    if exists|i: int| 0 <= i < es.len() && #[trigger] es[i].0 == c && es[i].1 == v && allowed_field(fv, es[i].2.field@) {
        let i = choose|i: int| 0 <= i < es.len() && #[trigger] es[i].0 == c && es[i].1 == v && allowed_field(fv, es[i].2.field@);
        assert(edge_ok(es, fv, i));
    }
    if exists|i: int| 0 <= i < es.len() && #[trigger] es[i].1 == c && es[i].0 == v && allowed_field(fv, es[i].2.field@) {
        let i = choose|i: int| 0 <= i < es.len() && #[trigger] es[i].1 == c && es[i].0 == v && allowed_field(fv, es[i].2.field@);
        assert(edge_ok(es, fv, i));
    }
    if exists|i: int|
        0 <= i < es.len() && allowed_field(fv, #[trigger] es[i].2.field@) && ((es[i].0 == c && es[i].1 == v) || (es[i].1 == c && es[i].0 == v)) {
        let i = choose|i: int|
            0 <= i < es.len() && allowed_field(fv, #[trigger] es[i].2.field@) && ((es[i].0 == c && es[i].1 == v) || (es[i].1 == c && es[i].0 == v));
        assert(edge_ok(es, fv, i));
    }
}

/// Breadth-first traversal from `center`, at most `depth` hops, following
/// outgoing edges (up), incoming edges (down) or both, and only edges whose
/// field is in `fields` when that is given.
///
/// The nodes are those within `depth` steps, each once with its distance,
/// ordered by distance, then title, then index. The edges are the distinct
/// (source, target, field) triples met while expanding the nodes closer
/// than `depth`, each with the hop at which it is first met, ordered by hop,
/// then source title, then target title, then field, then source index,
/// then target index.
pub fn query(vg: &VaultGraph, center: usize, depth: u32, direction: TraversalDirection, fields: Option<&Vec<String>>) -> (res: QueryResult)
    requires
        vg.wf(),
        center < vg.nodes().len(),
    ensures
        query_answers(vg, center, depth, direction, fields_view(fields), res),

{
    let ghost es = vg.edges();
    let ghost fv = fields_view(fields);
    let ghost n = vg.nodes().len() as int;
    let (hops, queue, raw) = traverse(vg, center, depth, direction, fields);
    proof {
        lemma_wf_edges(vg);
        assert(traversal_done(es, direction, fv, center, depth as int, n, queue@, hops@, raw@));
    }
    let nodes = sorted_nodes(vg, &queue, &hops);
    let kept = first_occurrences(&raw);
    proof {
        assert forall|j: int| 0 <= j < raw@.len() implies (#[trigger] raw@[j]).from < n && raw@[j].to < n by {
            assert(1 <= raw@[j].hop <= depth && hit(es, direction, fv, center, raw@[j].from, raw@[j].to, raw@[j].field@, raw@[j].hop - 1));
            let e = choose|e: int| #[trigger] edge_ok(es, fv, e) && es[e].0 == raw@[j].from && es[e].1 == raw@[j].to && es[e].2.field@ == raw@[j].field@;
        }
        assert forall|a: int, b: int| 0 <= a < b < kept@.len() implies !same_key(raw@[#[trigger] kept@[a] as int], raw@[#[trigger] kept@[b] as int]) by {
            assert(first_occ(raw@, kept@[b] as int));
            assert(kept@[a] < kept@[b]);
        }
    }
    let (edges, eorder) = sorted_edges(vg, &raw, &kept);
    proof {
        let q = queue@;
        let hp = hops@;
        let r = raw@;
        assert forall|i: int| 0 <= i < nodes@.len() implies {
            let (v, h) = #[trigger] nodes@[i];
            h <= depth && at_hop(es, direction, fv, center, h as int, v)
        } by {
            let v = nodes@[i].0;
            let k = choose|k: int| 0 <= k < q.len() && q[k] == v;
            assert(hp[q[k] as int] is Some);
        }
        assert forall|v: usize, h: int| 0 <= h <= depth && #[trigger] at_hop(es, direction, fv, center, h, v) implies exists|i: int|
            0 <= i < nodes@.len() && (#[trigger] nodes@[i]).0 == v && nodes@[i].1 == h by {
            lemma_nodes_found(es, direction, fv, center, depth as int, n, q, hp, r, v, h);
            let i = choose|i: int| 0 <= i < nodes@.len() && (#[trigger] nodes@[i]).0 == v;
        }
        assert forall|i: int| 0 <= i < edges@.len() implies #[trigger] edge_at_hop(es, direction, fv, center, depth as int, edges@[i]) by {
            let t = eorder@[i] as int;
            assert(first_occ(r, kept@[t] as int));
            lemma_first_sound(es, direction, fv, center, depth as int, n, q, hp, r, kept@[t] as int);
        }
        assert forall|from: usize, to: usize, f: Seq<char>, h: int| #[trigger] key_at_hop(es, direction, fv, center, depth as int, from, to, f, h)
            implies exists|i: int| 0 <= i < edges@.len() && (#[trigger] edges@[i]).from == from && edges@[i].to == to && edges@[i].field@ == f
                && edges@[i].hop == h by {
            let j = lemma_key_found(es, direction, fv, center, depth as int, n, q, hp, r, from, to, f, h);
            assert(kept@.contains(j as usize));
            let t = choose|t: int| 0 <= t < kept@.len() && kept@[t] == j as usize;
            assert(eorder@.contains(t as usize));
            let i = choose|i: int| 0 <= i < eorder@.len() && eorder@[i] == t as usize;
            assert(edges@[i] == r[kept@[eorder@[i] as int] as int]);
        }
    }
    let ghost ns = nodes@;
    let ghost eds = edges@;
    let res = QueryResult { center, depth, direction, nodes, edges };
    proof {
        assert(res.nodes@ == ns);
        assert(res.edges@ == eds);
        assert forall|v: usize, h: int| 0 <= h <= depth && #[trigger] at_hop(es, direction, fv, center, h, v) implies exists|i: int|
            0 <= i < res.nodes@.len() && (#[trigger] res.nodes@[i]).0 == v && res.nodes@[i].1 == h by {
            let i = choose|i: int| 0 <= i < ns.len() && (#[trigger] ns[i]).0 == v && ns[i].1 == h;
            assert(res.nodes@[i] == ns[i]);
        }
        assert forall|from: usize, to: usize, f: Seq<char>, h: int| #[trigger] key_at_hop(es, direction, fv, center, depth as int, from, to, f, h)
            implies exists|i: int| 0 <= i < res.edges@.len() && (#[trigger] res.edges@[i]).from == from && res.edges@[i].to == to && res.edges@[i].field@ == f
                && res.edges@[i].hop == h by {
            let i = choose|i: int| 0 <= i < eds.len() && (#[trigger] eds[i]).from == from && eds[i].to == to && eds[i].field@ == f && eds[i].hop == h;
            assert(res.edges@[i] == eds[i]);
        }
        assert forall|i: int| 0 <= i < res.nodes@.len() implies (#[trigger] res.nodes@[i]).0 < n by {
            assert(res.nodes@[i] == ns[i]);
            let k = choose|k: int| 0 <= k < queue@.len() && queue@[k] == ns[i].0;
        }
        assert forall|i: int| 0 <= i < res.edges@.len() implies (#[trigger] res.edges@[i]).from < n && res.edges@[i].to < n by {
            assert(res.edges@[i] == eds[i]);
            assert(eds[i] == raw@[kept@[eorder@[i] as int] as int]);
        }
    }
    res
}

/// A path step as plain values: (from, to, field).
pub type StepView = (usize, usize, Seq<char>);

pub open spec fn step_view(t: (usize, usize, String)) -> StepView {
    (t.0, t.1, t.2@)
}

pub open spec fn path_view(p: Seq<(usize, usize, String)>) -> Seq<StepView> {
    p.map_values(|t: (usize, usize, String)| step_view(t))
}

/// Some edge joins the step's two nodes, either way, and carries its field.
pub open spec fn step_ok(es: Edges, t: StepView) -> bool {
    exists|e: int|
        0 <= e < es.len() && (#[trigger] es[e]).2.field@ == t.2 && ((es[e].0 == t.0 && es[e].1 == t.1) || (es[e].1 == t.0 && es[e].0 == t.1))
}

/// `path` leads from `a` to `b`, step by step, over edges taken either way.
pub open spec fn is_walk(es: Edges, path: Seq<StepView>, a: usize, b: usize) -> bool {
    &&& path.len() == 0 ==> a == b
    &&& path.len() > 0 ==> path[0].0 == a && path[path.len() - 1].1 == b
    &&& forall|i: int| 0 <= i < path.len() - 1 ==> (#[trigger] path[i]).1 == path[i + 1].0
    &&& forall|i: int| 0 <= i < path.len() ==> step_ok(es, #[trigger] path[i])
}

/// `b` is `k` steps or fewer from `a`, edges taken either way.
pub open spec fn linked(es: Edges, a: usize, k: nat, b: usize) -> bool {
    within(es, TraversalDirection::Both, None, a, k, b)
}

/// What `bridge` answers: `None` when no path joins the two nodes, edges
/// taken either way; else a walk from `from` to `to` of the least length.
pub open spec fn bridge_answers(vg: &VaultGraph, from: usize, to: usize, res: Option<Vec<(usize, usize, String)>>) -> bool {
    match res {
        None => forall|k: nat| !#[trigger] linked(vg.edges(), from, k, to),
        Some(path) => is_walk(vg.edges(), path_view(path@), from, to) && at_hop(
            vg.edges(),
            TraversalDirection::Both,
            None,
            from,
            path@.len() as int,
            to,
        ),
    }
}

/// A shortest path between two nodes by breadth-first search, edges taken
/// either way: `None` when none joins them, else the steps (from, to, field)
/// from `from` to `to`. The contract fixes the length of the path, not which
/// of several shortest paths the search comes back with.
pub fn bridge(vg: &VaultGraph, from: usize, to: usize) -> (res: Option<Vec<(usize, usize, String)>>)
    requires
        vg.wf(),
        from < vg.nodes().len(),
        to < vg.nodes().len(),
    ensures
        bridge_answers(vg, from, to, res),

{
    let ghost es = vg.edges();
    let ghost fv: Option<Seq<Seq<char>>> = None;
    let direction = TraversalDirection::Both;
    let depth: u32 = u32::MAX;
    if from == to {
        let path: Vec<(usize, usize, String)> = Vec::new();
        assert(path_view(path@) =~= Seq::<StepView>::empty());
        assert(within(es, direction, fv, from, 0, to));
        return Some(path);
    }
    proof {
        lemma_wf_edges(vg);
    }
    let n = graph_node_count(&vg.graph);
    let (mut hops, mut parents, mut queue, mut raw) = start_traversal(vg, from, depth, direction, None);
    let mut head: usize = 0;
    let mut found = false;
    assert(fields_view(None) == fv);
    while head < queue.len() && !found
        invariant
            es == vg.edges(),
            fv == fields_view(None),
            n == vg.nodes().len(),
            vg.wf(),
            state_ok_edges(vg),
            direction == TraversalDirection::Both,
            depth == u32::MAX,
            from < n,
            to < n,
            head <= queue@.len(),
            bfs_inv(es, direction, fv, from, depth as int, n as int, queue@, head as int, hops@),
            parents_ok(es, direction, fv, from, n as int, hops@, parents@),
            raw_sound(es, direction, fv, from, depth as int, raw@),
            raw_complete(es, direction, fv, depth as int, queue@, head as int, hops@, raw@),
            raw_hops_ok(raw@, if head < queue@.len() { hop_of(hops@, queue@[head as int]) + 1 } else { depth as int }),
            forall|j: int| 0 <= j < raw@.len() ==> (#[trigger] raw@[j]).hop <= depth,
            found == hops@[to as int] is Some,
        decreases n - head,
    {
        proof {
            lemma_queue_len(queue@, n as int);
        }
        let ghost q0 = queue@;
        let ghost hops0 = hops@;
        let ghost raw0 = raw@;
        assert(hop_of(hops0, q0[head as int]) <= head);
        expand_node(vg, None, direction, depth, from, &mut hops, &mut parents, &mut queue, &mut raw, head);
        proof {
            lemma_advance(es, direction, fv, from, depth as int, n as int, q0, hops0, raw0, queue@, hops@, raw@, head as int);
        }
        head = head + 1;
        found = match hops[to] {
            Some(_) => true,
            None => false,
        };
    }
    if !found {
        proof {
            lemma_queue_len(queue@, n as int);
            assert forall|k: nat| !#[trigger] linked(es, from, k, to) by {
                assert forall|v: usize| v < n && (#[trigger] hops@[v as int]) is Some implies hop_of(hops@, v) < depth by {
                    let i = choose|i: int| 0 <= i < queue@.len() && queue@[i] == v;
                    assert(hop_of(hops@, queue@[i]) <= i);
                }
                lemma_complete(es, direction, fv, from, depth as int, n as int, queue@, hops@, k);
            }
        }
        return None;
    }
    proof {
        assert(hops@[from as int] is Some) by {
            assert(queue@[0] == from);
        }
        assert(hop_of(hops@, from) == 0) by {
            assert(hop_of(hops@, queue@[0]) <= 0);
        }
    }
    let mut rev: Vec<(usize, usize, String)> = Vec::new();
    let mut cur = to;
    while cur != from
        invariant
            es == vg.edges(),
            fv == fields_view(None),
            n == vg.nodes().len(),
            vg.wf(),
            direction == TraversalDirection::Both,
            depth == u32::MAX,
            from < n,
            to < n,
            cur < n,
            head <= queue@.len(),
            bfs_inv(es, direction, fv, from, depth as int, n as int, queue@, head as int, hops@),
            parents_ok(es, direction, fv, from, n as int, hops@, parents@),
            hops@[to as int] is Some,
            hops@[cur as int] is Some,
            hop_of(hops@, from) == 0,
            rev@.len() + hop_of(hops@, cur) == hop_of(hops@, to),
            rev@.len() == 0 ==> cur == to,
            rev@.len() > 0 ==> rev@[0].1 == to && rev@[rev@.len() - 1].0 == cur,
            forall|i: int| 0 <= i < rev@.len() - 1 ==> (#[trigger] rev@[i]).0 == rev@[i + 1].1,
            forall|i: int| 0 <= i < rev@.len() ==> step_ok(es, step_view(#[trigger] rev@[i])),
        decreases hop_of(hops@, cur),
    {
        let (p, e) = match parents[cur] {
            Some(pe) => pe,
            None => (from, 0),
        };
        proof {
            assert(parents@[cur as int] is Some);
        }
        let field = crate::pgraph::graph_edge(&vg.graph, e).field.clone();
        let ghost before = rev@;
        proof {
            assert(step_ok(es, (p, cur, field@))) by {
                assert(es[e as int].2.field@ == field@);
            }
        }
        rev.push((p, cur, field));
        proof {
            assert forall|i: int| 0 <= i < rev@.len() - 1 implies (#[trigger] rev@[i]).0 == rev@[i + 1].1 by {
                if i < before.len() - 1 {
                    assert(rev@[i] == before[i]);
                    assert(rev@[i + 1] == before[i + 1]);
                } else {
                    assert(rev@[i] == before[i]);
                }
            }
            assert forall|i: int| 0 <= i < rev@.len() implies step_ok(es, step_view(#[trigger] rev@[i])) by {
                if i < before.len() {
                    assert(rev@[i] == before[i]);
                }
            }
        }
        cur = p;
    }
    let mut path: Vec<(usize, usize, String)> = Vec::new();
    let len = rev.len();
    let mut i: usize = len;
    while i > 0
        invariant
            len == rev@.len(),
            i <= len,
            path@.len() == len - i,
            forall|j: int| 0 <= j < path@.len() ==> #[trigger] step_view(path@[j]) == step_view(rev@[len - 1 - j]),
        decreases i,
    {
        i = i - 1;
        let t = &rev[i];
        path.push((t.0, t.1, t.2.clone()));
    }
    proof {
        let pv = path_view(path@);
        let L = len as int;
        assert forall|j: int| 0 <= j < L implies #[trigger] pv[j] == step_view(rev@[L - 1 - j]) by {
            assert(step_view(path@[j]) == step_view(rev@[L - 1 - j]));
        }
        assert forall|j: int| 0 <= j < pv.len() - 1 implies (#[trigger] pv[j]).1 == pv[j + 1].0 by {
            assert(pv[j + 1] == step_view(rev@[L - 2 - j]));
            assert(rev@[L - 2 - j].0 == rev@[L - 1 - j].1);
        }
        assert forall|j: int| 0 <= j < pv.len() implies step_ok(es, #[trigger] pv[j]) by {
            assert(step_ok(es, step_view(rev@[L - 1 - j])));
        }
        if L > 0 {
            assert(pv[0] == step_view(rev@[L - 1]));
            assert(pv[L - 1] == step_view(rev@[0]));
        }
        assert(at_hop(es, direction, fv, from, hop_of(hops@, to), to));
    }
    Some(path)
}

/// The number of edges leaving node `v`.
pub open spec fn out_degree(vg: &VaultGraph, v: usize) -> nat {
    incident(vg.edges(), v, true, vg.edges().len()).len()
}

/// The number of edges entering node `v`.
pub open spec fn in_degree(vg: &VaultGraph, v: usize) -> nat {
    incident(vg.edges(), v, false, vg.edges().len()).len()
}

/// In-degree plus out-degree (a self-loop counts twice).
pub open spec fn degree(vg: &VaultGraph, v: usize) -> nat {
    out_degree(vg, v) + in_degree(vg, v)
}

/// The order of a centrality ranking: degree descending, then title, then index.
pub open spec fn centrality_key(vg: &VaultGraph, v: usize, d: int) -> Seq<(int, Seq<char>)> {
    seq![(u64::MAX - d, Seq::<char>::empty()), (-1int, title_of(vg, v)), (v as int, Seq::<char>::empty())]
}

proof fn lemma_incident_len(es: Edges, n: usize, outgoing: bool, k: nat)
    ensures
        incident(es, n, outgoing, k).len() <= k,
    decreases k,
{
    if k > 0 {
        lemma_incident_len(es, n, outgoing, (k - 1) as nat);
    }
}

/// The degree of node `v`.
fn node_degree(vg: &VaultGraph, v: usize) -> (d: usize)
    requires
        vg.wf(),
        v < vg.nodes().len(),
    ensures
        d == degree(vg, v),
{
    let ins = graph_edges_directed(&vg.graph, v, false);
    let outs = graph_edges_directed(&vg.graph, v, true);
    proof {
        lemma_incident_len(vg.edges(), v, false, vg.edges().len());
        lemma_incident_len(vg.edges(), v, true, vg.edges().len());
    }
    ins.len() + outs.len()
}

/// What `centrality` answers: the first `limit` nodes (or all) in
/// `centrality_key` order, each with its degree; every node left out ranks
/// after every node listed.
pub open spec fn centrality_answers(vg: &VaultGraph, limit: usize, res: Seq<(usize, usize)>) -> bool {
    &&& res.len() == if limit < vg.nodes().len() { limit as int } else { vg.nodes().len() as int }
    &&& forall|i: int| 0 <= i < res.len() ==> (#[trigger] res[i]).0 < vg.nodes().len() && res[i].1 == degree(vg, res[i].0)
    &&& forall|i: int, j: int| 0 <= i < j < res.len() ==> key_lt(
        centrality_key(vg, (#[trigger] res[i]).0, res[i].1 as int),
        centrality_key(vg, (#[trigger] res[j]).0, res[j].1 as int),
    )
    &&& forall|v: usize| #![trigger degree(vg, v)] v < vg.nodes().len() ==> (exists|i: int| 0 <= i < res.len() && (#[trigger] res[i]).0 == v)
        || forall|i: int| 0 <= i < res.len() ==> key_lt(centrality_key(vg, (#[trigger] res[i]).0, res[i].1 as int), centrality_key(vg, v, degree(vg, v) as int))
}

/// Node `v` has an entry in a ranking.
pub open spec fn listed(res: Seq<(usize, usize)>, v: usize) -> bool {
    exists|k: int| 0 <= k < res.len() && (#[trigger] res[k]).0 == v
}

/// A centrality ranking lists degrees from highest to lowest, and no node
/// left out has a higher degree than one listed.
pub proof fn lemma_centrality_descending(vg: &VaultGraph, limit: usize, res: Seq<(usize, usize)>)
    requires
        centrality_answers(vg, limit, res),
    ensures
        forall|i: int, j: int| 0 <= i < j < res.len() ==> (#[trigger] res[i]).1 >= (#[trigger] res[j]).1,
        forall|v: usize, i: int|
            v < vg.nodes().len() && 0 <= i < res.len() && !listed(res, v) ==> (#[trigger] res[i]).1 >= #[trigger] degree(vg, v),
{
    assert forall|i: int, j: int| 0 <= i < j < res.len() implies (#[trigger] res[i]).1 >= (#[trigger] res[j]).1 by {
        lemma_key_lt_head(centrality_key(vg, res[i].0, res[i].1 as int), centrality_key(vg, res[j].0, res[j].1 as int));
    }
    assert forall|v: usize, i: int| v < vg.nodes().len() && 0 <= i < res.len() && !listed(res, v) implies (#[trigger] res[i]).1
        >= #[trigger] degree(vg, v) by {
        lemma_key_lt_head(centrality_key(vg, res[i].0, res[i].1 as int), centrality_key(vg, v, degree(vg, v) as int));
    }
}

/// Degree centrality: the `limit` nodes of highest degree (all nodes when
/// there are fewer), by degree descending, then title, then index.
pub fn centrality(vg: &VaultGraph, limit: usize) -> (res: Vec<(usize, usize)>)
    requires
        vg.wf(),
    ensures
        centrality_answers(vg, limit, res@),

{
    let n = graph_node_count(&vg.graph);
    let mut keys: Vec<Vec<KeyPart>> = Vec::new();
    let mut degrees: Vec<usize> = Vec::new();
    let mut v: usize = 0;
    while v < n
        invariant
            vg.wf(),
            n == vg.nodes().len(),
            v <= n,
            keys@.len() == v,
            degrees@.len() == v,
            forall|k: int| 0 <= k < v ==> #[trigger] degrees@[k] == degree(vg, k as usize),
            forall|k: int| 0 <= k < v ==> #[trigger] key_at(keys@, k) == centrality_key(vg, k as usize, degree(vg, k as usize) as int),
        decreases n - v,
    {
        let d = node_degree(vg, v);
        let title = chars_of(crate::pgraph::graph_node(&vg.graph, v).title.as_str());
        let mut key: Vec<KeyPart> = Vec::new();
        key.push(KeyPart::Num(u64::MAX - d as u64));
        key.push(KeyPart::Text(title));
        key.push(KeyPart::Num(v as u64));
        assert(key_view(key@) =~= centrality_key(vg, v, d as int));
        let ghost before = keys@;
        let ghost kg = key;
        keys.push(key);
        degrees.push(d);
        proof {
            assert(keys@[v as int] == kg);
            assert forall|k: int| 0 <= k < v + 1 implies #[trigger] key_at(keys@, k) == centrality_key(vg, k as usize, degree(vg, k as usize) as int) by {
                if k < v {
                    assert(keys@[k] == before[k]);
                    assert(key_at(before, k) == centrality_key(vg, k as usize, degree(vg, k as usize) as int));
                } else {
                    assert(key_at(keys@, k) == key_view(kg@));
                }
            }
        }
        v = v + 1;
    }
    proof {
        assert forall|a: int, b: int| 0 <= a < keys@.len() && 0 <= b < keys@.len() && a != b implies key_at(keys@, a) != key_at(keys@, b) by {
            assert(key_at(keys@, a)[2] != key_at(keys@, b)[2]);
        }
        assert(distinct_keys(keys@));
    }
    let order = sorted_indices(&keys);
    let m = if limit < n { limit } else { n };
    let mut res: Vec<(usize, usize)> = Vec::new();
    let mut t: usize = 0;
    while t < m
        invariant
            m <= n,
            n == vg.nodes().len(),
            order@.len() == n,
            keys@.len() == n,
            degrees@.len() == n,
            forall|i: int| 0 <= i < order@.len() ==> order@[i] < n,
            forall|k: int| 0 <= k < n ==> #[trigger] degrees@[k] == degree(vg, k as usize),
            t <= m,
            res@.len() == t,
            forall|k: int| 0 <= k < t ==> (#[trigger] res@[k]).0 == order@[k] && res@[k].1 == degree(vg, order@[k]),
        decreases m - t,
    {
        let v = order[t];
        res.push((v, degrees[v]));
        t = t + 1;
    }
    proof {
        assert forall|i: int, j: int| 0 <= i < j < res@.len() implies key_lt(
            centrality_key(vg, (#[trigger] res@[i]).0, res@[i].1 as int),
            centrality_key(vg, (#[trigger] res@[j]).0, res@[j].1 as int),
        ) by {
            assert(key_lt(key_at(keys@, order@[i] as int), key_at(keys@, order@[j] as int)));
        }
        assert forall|v: usize| #![trigger degree(vg, v)] v < n implies (exists|i: int| 0 <= i < res@.len() && (#[trigger] res@[i]).0 == v) || forall|i: int|
            0 <= i < res@.len() ==> key_lt(centrality_key(vg, (#[trigger] res@[i]).0, res@[i].1 as int), centrality_key(vg, v, degree(vg, v) as int)) by {
            assert(order@.contains(v));
            let p = choose|p: int| 0 <= p < order@.len() && order@[p] == v;
            if p < m {
                assert(res@[p].0 == v);
            } else {
                assert forall|i: int| 0 <= i < res@.len() implies key_lt(
                    centrality_key(vg, (#[trigger] res@[i]).0, res@[i].1 as int),
                    centrality_key(vg, v, degree(vg, v) as int),
                ) by {
                    assert(key_lt(key_at(keys@, order@[i] as int), key_at(keys@, order@[p] as int)));
                }
            }
        }
    }
    res
}

/// A node with a backing file and no edge in or out.
pub open spec fn is_orphan(vg: &VaultGraph, v: usize) -> bool {
    !vg.nodes()[v as int].external && out_degree(vg, v) == 0 && in_degree(vg, v) == 0
}

proof fn lemma_incident_none(es: Edges, n: usize, outgoing: bool, k: nat)
    requires
        k <= es.len(),
    ensures
        outgoing ==> (incident(es, n, outgoing, k).len() == 0 <==> forall|i: int| 0 <= i < k ==> #[trigger] es[i].0 != n),
        !outgoing ==> (incident(es, n, outgoing, k).len() == 0 <==> forall|i: int| 0 <= i < k ==> #[trigger] es[i].1 != n),
    decreases k,
{
    if k > 0 {
        lemma_incident_none(es, n, outgoing, (k - 1) as nat);
        let e = es[k - 1];
        if (outgoing && e.0 == n) || (!outgoing && e.1 == n) {
            assert(incident(es, n, outgoing, k).len() > 0);
        } else {
            assert(incident(es, n, outgoing, k) == incident(es, n, outgoing, (k - 1) as nat));
        }
    }
}

/// An orphan is a page node (not external) that no edge leaves or enters.
pub proof fn lemma_orphan_no_edges(vg: &VaultGraph, v: usize)
    requires
        v < vg.nodes().len(),
    ensures
        is_orphan(vg, v) <==> !vg.nodes()[v as int].external && forall|i: int|
            0 <= i < vg.edges().len() ==> (#[trigger] vg.edges()[i]).0 != v && vg.edges()[i].1 != v,
{
    let es = vg.edges();
    lemma_incident_none(es, v, true, es.len());
    lemma_incident_none(es, v, false, es.len());
}

/// A broken link target is an external node that some edge enters.
pub proof fn lemma_broken_has_referrer(vg: &VaultGraph, v: usize)
    requires
        v < vg.nodes().len(),
    ensures
        is_broken(vg, v) <==> vg.nodes()[v as int].external && exists|i: int| 0 <= i < vg.edges().len() && (#[trigger] vg.edges()[i]).1 == v,
{
    let es = vg.edges();
    lemma_incident_none(es, v, false, es.len());
    if exists|i: int| 0 <= i < es.len() && (#[trigger] es[i]).1 == v {
        let i = choose|i: int| 0 <= i < es.len() && (#[trigger] es[i]).1 == v;
        assert(es[i].1 == v);
    }
}

/// What `orphans` answers: exactly the orphan nodes, by index.
pub open spec fn orphans_answers(vg: &VaultGraph, res: Seq<usize>) -> bool {
    &&& forall|i: int| 0 <= i < res.len() ==> (#[trigger] res[i]) < vg.nodes().len() && is_orphan(vg, res[i])
    &&& forall|i: int, j: int| 0 <= i < j < res.len() ==> (#[trigger] res[i]) < (#[trigger] res[j])
    &&& forall|v: usize| v < vg.nodes().len() && is_orphan(vg, v) ==> #[trigger] res.contains(v)
}

/// The orphan nodes, by index.
pub fn orphans(vg: &VaultGraph) -> (res: Vec<usize>)
    requires
        vg.wf(),
    ensures
        orphans_answers(vg, res@),

{
    let n = graph_node_count(&vg.graph);
    let mut res: Vec<usize> = Vec::new();
    let mut v: usize = 0;
    while v < n
        invariant
            vg.wf(),
            n == vg.nodes().len(),
            v <= n,
            forall|i: int| 0 <= i < res@.len() ==> (#[trigger] res@[i]) < v && is_orphan(vg, res@[i]),
            forall|i: int, j: int| 0 <= i < j < res@.len() ==> (#[trigger] res@[i]) < (#[trigger] res@[j]),
            forall|w: usize| w < v && is_orphan(vg, w) ==> #[trigger] res@.contains(w),
        decreases n - v,
    {
        let node = crate::pgraph::graph_node(&vg.graph, v);
        if !node.external {
            let ins = graph_edges_directed(&vg.graph, v, false);
            let outs = graph_edges_directed(&vg.graph, v, true);
            if ins.len() == 0 && outs.len() == 0 {
                let ghost before = res@;
                res.push(v);
                proof {
                    assert forall|w: usize| w < v + 1 && is_orphan(vg, w) implies #[trigger] res@.contains(w) by {
                        if w < v {
                            assert(before.contains(w));
                            let i = choose|i: int| 0 <= i < before.len() && before[i] == w;
                            assert(res@[i] == w);
                        } else {
                            assert(res@[res@.len() - 1] == w);
                        }
                    }
                }
            }
        }
        v = v + 1;
    }
    res
}

/// The edges entering node `v`, newest first, as (source, field).
pub open spec fn incoming(vg: &VaultGraph, v: usize) -> Seq<(usize, Seq<char>)> {
    incident(vg.edges(), v, false, vg.edges().len()).map_values(|t: (usize, usize, usize)| (t.1, vg.edges()[t.0 as int].2.field@))
}

pub open spec fn links_view(l: Seq<(usize, String)>) -> Seq<(usize, Seq<char>)> {
    l.map_values(|t: (usize, String)| (t.0, t.1@))
}

/// An unresolved link target that some page links to.
pub open spec fn is_broken(vg: &VaultGraph, v: usize) -> bool {
    vg.nodes()[v as int].external && in_degree(vg, v) > 0
}

/// The order of the broken-link report: by lower-cased title, then index.
pub open spec fn broken_key(vg: &VaultGraph, v: usize) -> Seq<(int, Seq<char>)> {
    seq![(-1int, lowercase_of(title_of(vg, v))), (v as int, Seq::<char>::empty())]
}

/// The edges entering node `v`, as (source, field).
fn incoming_links(vg: &VaultGraph, v: usize) -> (res: Vec<(usize, String)>)
    requires
        vg.wf(),
        v < vg.nodes().len(),
    ensures
        links_view(res@) == incoming(vg, v),
{
    let list = graph_edges_directed(&vg.graph, v, false);
    proof {
        lemma_incident(vg.edges(), v, false, vg.edges().len());
    }
    let mut res: Vec<(usize, String)> = Vec::new();
    let mut i: usize = 0;
    while i < list.len()
        invariant
            vg.wf(),
            list@ == incident(vg.edges(), v, false, vg.edges().len()),
            forall|jj: int| 0 <= jj < list@.len() ==> (#[trigger] list@[jj]).0 < vg.edges().len(),
            i <= list@.len(),
            incoming(vg, v).len() == list@.len(),
            res@.len() == i,
            links_view(res@) == incoming(vg, v).take(i as int),
        decreases list@.len() - i,
    {
        let (e, src, _tgt) = list[i];
        let field = crate::pgraph::graph_edge(&vg.graph, e).field.clone();
        let ghost before = res@;
        res.push((src, field));
        proof {
            let inc = incoming(vg, v);
            assert(inc.len() == list@.len());
            assert(inc[i as int] == (src, field@));
            assert forall|k: int| 0 <= k < i + 1 implies #[trigger] links_view(res@)[k] == inc.take(i + 1)[k] by {
                if k < i {
                    assert(res@[k] == before[k]);
                    assert(links_view(before)[k] == inc.take(i as int)[k]);
                }
            }
            assert(links_view(res@) =~= inc.take(i + 1));
        }
        i = i + 1;
    }
    assert(incoming(vg, v).take(list@.len() as int) =~= incoming(vg, v));
    res
}

/// What `broken_links` answers: exactly the unresolved targets that are
/// linked to, each with its incoming links, in `broken_key` order.
pub open spec fn broken_answers(vg: &VaultGraph, res: Seq<(usize, Vec<(usize, String)>)>) -> bool {
    &&& forall|i: int| 0 <= i < res.len() ==> (#[trigger] res[i]).0 < vg.nodes().len() && is_broken(vg, res[i].0) && links_view(res[i].1@)
        == incoming(vg, res[i].0)
    &&& forall|v: usize| v < vg.nodes().len() && is_broken(vg, v) ==> exists|i: int| 0 <= i < res.len() && (#[trigger] res[i]).0 == v
    &&& forall|i: int, j: int| 0 <= i < j < res.len() ==> key_lt(broken_key(vg, (#[trigger] res[i]).0), broken_key(vg, (#[trigger] res[j]).0))
}

/// The unresolved link targets with the pages that link to them: each
/// external node with at least one incoming edge, with its incoming edges
/// as (source, field), newest first; ordered by lower-cased title, then index.
pub fn broken_links(vg: &VaultGraph) -> (res: Vec<(usize, Vec<(usize, String)>)>)
    requires
        vg.wf(),
    ensures
        broken_answers(vg, res@),

{
    let n = graph_node_count(&vg.graph);
    let mut cands: Vec<usize> = Vec::new();
    let mut keys: Vec<Vec<KeyPart>> = Vec::new();
    let mut v: usize = 0;
    while v < n
        invariant
            vg.wf(),
            n == vg.nodes().len(),
            v <= n,
            keys@.len() == cands@.len(),
            forall|i: int| 0 <= i < cands@.len() ==> (#[trigger] cands@[i]) < v && is_broken(vg, cands@[i]),
            forall|i: int, j: int| 0 <= i < j < cands@.len() ==> (#[trigger] cands@[i]) < (#[trigger] cands@[j]),
            forall|w: usize| w < v && is_broken(vg, w) ==> #[trigger] cands@.contains(w),
            forall|k: int| 0 <= k < keys@.len() ==> #[trigger] key_at(keys@, k) == broken_key(vg, cands@[k]),
        decreases n - v,
    {
        let node = crate::pgraph::graph_node(&vg.graph, v);
        if node.external {
            let ins = graph_edges_directed(&vg.graph, v, false);
            if ins.len() > 0 {
                let lower = lowercase(node.title.as_str());
                let title = chars_of(lower.as_str());
                let mut key: Vec<KeyPart> = Vec::new();
                key.push(KeyPart::Text(title));
                key.push(KeyPart::Num(v as u64));
                assert(key_view(key@) =~= broken_key(vg, v));
                let ghost before = cands@;
                let ghost kbefore = keys@;
                let ghost kg = key;
                cands.push(v);
                keys.push(key);
                proof {
                    assert(keys@[keys@.len() - 1] == kg);
                    assert forall|w: usize| w < v + 1 && is_broken(vg, w) implies #[trigger] cands@.contains(w) by {
                        if w < v {
                            assert(before.contains(w));
                            let i = choose|i: int| 0 <= i < before.len() && before[i] == w;
                            assert(cands@[i] == w);
                        } else {
                            assert(cands@[cands@.len() - 1] == w);
                        }
                    }
                    assert forall|k: int| 0 <= k < keys@.len() implies #[trigger] key_at(keys@, k) == broken_key(vg, cands@[k]) by {
                        if k < kbefore.len() {
                            assert(keys@[k] == kbefore[k]);
                            assert(key_at(kbefore, k) == broken_key(vg, before[k]));
                        } else {
                            assert(key_at(keys@, k) == key_view(kg@));
                        }
                    }
                }
            }
        }
        v = v + 1;
    }
    proof {
        assert forall|a: int, b: int| 0 <= a < keys@.len() && 0 <= b < keys@.len() && a != b implies key_at(keys@, a) != key_at(keys@, b) by {
            if a < b {
                assert(cands@[a] < cands@[b]);
            } else {
                assert(cands@[b] < cands@[a]);
            }
            assert(key_at(keys@, a)[1] != key_at(keys@, b)[1]);
        }
        assert(distinct_keys(keys@));
    }
    let order = sorted_indices(&keys);
    let mut res: Vec<(usize, Vec<(usize, String)>)> = Vec::new();
    let mut t: usize = 0;
    while t < order.len()
        invariant
            vg.wf(),
            n == vg.nodes().len(),
            order@.len() == cands@.len(),
            keys@.len() == cands@.len(),
            forall|i: int| 0 <= i < order@.len() ==> order@[i] < cands@.len(),
            forall|i: int| 0 <= i < cands@.len() ==> (#[trigger] cands@[i]) < n && is_broken(vg, cands@[i]),
            t <= order@.len(),
            res@.len() == t,
            forall|k: int| 0 <= k < t ==> (#[trigger] res@[k]).0 == cands@[order@[k] as int] && links_view(res@[k].1@) == incoming(vg, res@[k].0),
        decreases order@.len() - t,
    {
        let v = cands[order[t]];
        let links = incoming_links(vg, v);
        res.push((v, links));
        t = t + 1;
    }
    proof {
        assert forall|v: usize| v < n && is_broken(vg, v) implies exists|i: int| 0 <= i < res@.len() && (#[trigger] res@[i]).0 == v by {
            assert(cands@.contains(v));
            let c = choose|c: int| 0 <= c < cands@.len() && cands@[c] == v;
            assert(order@.contains(c as usize));
            let k = choose|k: int| 0 <= k < order@.len() && order@[k] == c as usize;
            assert(res@[k].0 == v);
        }
        assert forall|i: int, j: int| 0 <= i < j < res@.len() implies key_lt(broken_key(vg, (#[trigger] res@[i]).0), broken_key(vg, (#[trigger] res@[j]).0)) by {
            assert(key_lt(key_at(keys@, order@[i] as int), key_at(keys@, order@[j] as int)));
        }
    }
    res
}

/// Runtime edge `k` touches node `v` (its source or target is `v`'s
/// title); with no node given, every runtime edge counts.
pub open spec fn touches(vg: &VaultGraph, v: Option<usize>, k: int) -> bool {
    match v {
        None => true,
        Some(v) => vg.runtime@[k].from@ == title_of(vg, v) || vg.runtime@[k].to@ == title_of(vg, v),
    }
}

/// What `runtime_edges_touching` answers: exactly the indices of the
/// runtime edges touching `v`, ascending.
pub open spec fn runtime_answers(vg: &VaultGraph, v: Option<usize>, res: Seq<usize>) -> bool {
    &&& forall|i: int| 0 <= i < res.len() ==> (#[trigger] res[i]) < vg.runtime@.len() && touches(vg, v, res[i] as int)
    &&& forall|i: int, j: int| 0 <= i < j < res.len() ==> (#[trigger] res[i]) < (#[trigger] res[j])
    &&& forall|k: usize| k < vg.runtime@.len() && touches(vg, v, k as int) ==> #[trigger] res.contains(k)
}

/// The runtime edges touching node `v` (all of them when `v` is `None`),
/// as indices into the runtime layer, in layer order.
pub fn runtime_edges_touching(vg: &VaultGraph, v: Option<usize>) -> (res: Vec<usize>)
    requires
        vg.wf(),
        match v {
            Some(v) => v < vg.nodes().len(),
            None => true,
        },
    ensures
        runtime_answers(vg, v, res@),

{
    let mut res: Vec<usize> = Vec::new();
    let mut k: usize = 0;
    while k < vg.runtime.len()
        invariant
            vg.wf(),
            match v {
                Some(v) => v < vg.nodes().len(),
                None => true,
            },
            k <= vg.runtime@.len(),
            forall|i: int| 0 <= i < res@.len() ==> (#[trigger] res@[i]) < k && touches(vg, v, res@[i] as int),
            forall|i: int, j: int| 0 <= i < j < res@.len() ==> (#[trigger] res@[i]) < (#[trigger] res@[j]),
            forall|x: usize| x < k && touches(vg, v, x as int) ==> #[trigger] res@.contains(x),
        decreases vg.runtime@.len() - k,
    {
        let e = &vg.runtime[k];
        let hit = match v {
            None => true,
            Some(n) => {
                let t = &crate::pgraph::graph_node(&vg.graph, n).title;
                crate::text::str_equal(e.from.as_str(), t.as_str()) || crate::text::str_equal(e.to.as_str(), t.as_str())
            },
        };
        if hit {
            let ghost before = res@;
            res.push(k);
            proof {
                assert forall|x: usize| x < k + 1 && touches(vg, v, x as int) implies #[trigger] res@.contains(x) by {
                    if x < k {
                        assert(before.contains(x));
                        let i = choose|i: int| 0 <= i < before.len() && before[i] == x;
                        assert(res@[i] == x);
                    } else {
                        assert(res@[res@.len() - 1] == x);
                    }
                }
            }
        }
        k = k + 1;
    }
    res
}

/// The opposite direction: up for down, down for up, both for both.
pub open spec fn reversed(d: TraversalDirection) -> TraversalDirection {
    match d {
        TraversalDirection::Up => TraversalDirection::Down,
        TraversalDirection::Down => TraversalDirection::Up,
        TraversalDirection::Both => TraversalDirection::Both,
    }
}

/// One step in direction `d` leads from `u` to `v`.
pub open spec fn step(es: Edges, d: TraversalDirection, fv: Option<Seq<Seq<char>>>, u: usize, v: usize) -> bool {
    exists|e: int| #[trigger] edge_ok(es, fv, e) && ((goes_up(d) && es[e].0 == u && es[e].1 == v) || (goes_down(d) && es[e].1 == u && es[e].0 == v))
}

/// A walk in the reversed direction from `u` to `c`, with one more step
/// `u` to `v` in direction `d` before it, read backwards, is a walk from
/// `v` to `c` in the reversed direction.
proof fn lemma_prepend(es: Edges, d: TraversalDirection, fv: Option<Seq<Seq<char>>>, u: usize, j: nat, c: usize, v: usize)
    requires
        within(es, reversed(d), fv, u, j, c),
        step(es, d, fv, u, v),
    ensures
        within(es, reversed(d), fv, v, j + 1, c),
    decreases j,
{
    let r = reversed(d);
    let e = choose|e: int| #[trigger] edge_ok(es, fv, e) && ((goes_up(d) && es[e].0 == u && es[e].1 == v) || (goes_down(d) && es[e].1 == u && es[e].0 == v));
    if j == 0 {
        assert(c == u);
        assert(within(es, r, fv, v, 0, v));
        if goes_up(d) && es[e].0 == u && es[e].1 == v {
            assert(goes_down(r));
        } else {
            assert(goes_up(r));
        }
    } else if within(es, r, fv, u, (j - 1) as nat, c) {
        lemma_prepend(es, d, fv, u, (j - 1) as nat, c, v);
    } else if goes_up(r) && exists|i: int| #[trigger] edge_ok(es, fv, i) && es[i].1 == c && within(es, r, fv, u, (j - 1) as nat, es[i].0) {
        let i = choose|i: int| #[trigger] edge_ok(es, fv, i) && es[i].1 == c && within(es, r, fv, u, (j - 1) as nat, es[i].0);
        lemma_prepend(es, d, fv, u, (j - 1) as nat, es[i].0, v);
    } else {
        let i = choose|i: int| #[trigger] edge_ok(es, fv, i) && es[i].0 == c && within(es, r, fv, u, (j - 1) as nat, es[i].1);
        lemma_prepend(es, d, fv, u, (j - 1) as nat, es[i].1, v);
    }
}

proof fn lemma_reverse_walk(es: Edges, d: TraversalDirection, fv: Option<Seq<Seq<char>>>, c: usize, k: nat, v: usize)
    requires
        within(es, d, fv, c, k, v),
    ensures
        within(es, reversed(d), fv, v, k, c),
    decreases k,
{
    let r = reversed(d);
    if k == 0 {
        assert(within(es, r, fv, v, 0, c));
    } else if within(es, d, fv, c, (k - 1) as nat, v) {
        lemma_reverse_walk(es, d, fv, c, (k - 1) as nat, v);
    } else if goes_up(d) && exists|i: int| #[trigger] edge_ok(es, fv, i) && es[i].1 == v && within(es, d, fv, c, (k - 1) as nat, es[i].0) {
        let i = choose|i: int| #[trigger] edge_ok(es, fv, i) && es[i].1 == v && within(es, d, fv, c, (k - 1) as nat, es[i].0);
        lemma_reverse_walk(es, d, fv, c, (k - 1) as nat, es[i].0);
        assert(step(es, d, fv, es[i].0, v));
        lemma_prepend(es, d, fv, es[i].0, (k - 1) as nat, c, v);
    } else {
        let i = choose|i: int| #[trigger] edge_ok(es, fv, i) && es[i].0 == v && within(es, d, fv, c, (k - 1) as nat, es[i].1);
        lemma_reverse_walk(es, d, fv, c, (k - 1) as nat, es[i].1);
        assert(step(es, d, fv, es[i].1, v));
        lemma_prepend(es, d, fv, es[i].1, (k - 1) as nat, c, v);
    }
}

/// Reaching `v` from `c` in `k` steps in one direction is reaching `c`
/// from `v` in `k` steps in the opposite direction.
pub proof fn lemma_within_reversed(es: Edges, d: TraversalDirection, fv: Option<Seq<Seq<char>>>, c: usize, k: nat, v: usize)
    ensures
        within(es, d, fv, c, k, v) <==> within(es, reversed(d), fv, v, k, c),
{
    if within(es, d, fv, c, k, v) {
        lemma_reverse_walk(es, d, fv, c, k, v);
    }
    if within(es, reversed(d), fv, v, k, c) {
        lemma_reverse_walk(es, reversed(d), fv, v, k, c);
        assert(reversed(reversed(d)) == d);
    }
}

/// Distance is the same read either way: `v` is `h` steps from `c` in
/// one direction exactly when `c` is `h` steps from `v` in the opposite one.
pub proof fn lemma_at_hop_reversed(es: Edges, d: TraversalDirection, fv: Option<Seq<Seq<char>>>, c: usize, h: int, v: usize)
    ensures
        at_hop(es, d, fv, c, h, v) <==> at_hop(es, reversed(d), fv, v, h, c),
{
    if h >= 0 {
        lemma_within_reversed(es, d, fv, c, h as nat, v);
        if h > 0 {
            lemma_within_reversed(es, d, fv, c, (h - 1) as nat, v);
        }
    }
}

/// Up and down are each other's mirror: a query up from `c` finds `v` at
/// hop `h` exactly when a query down from `v`, with the same depth and
/// field filter, finds `c` at hop `h`.
pub proof fn lemma_query_up_down(
    vg: &VaultGraph,
    c: usize,
    v: usize,
    depth: u32,
    fv: Option<Seq<Seq<char>>>,
    up: QueryResult,
    down: QueryResult,
    h: int,
)
    requires
        query_answers(vg, c, depth, TraversalDirection::Up, fv, up),
        query_answers(vg, v, depth, TraversalDirection::Down, fv, down),
    ensures
        (exists|i: int| 0 <= i < up.nodes@.len() && (#[trigger] up.nodes@[i]).0 == v && up.nodes@[i].1 == h) <==> (exists|j: int|
            0 <= j < down.nodes@.len() && (#[trigger] down.nodes@[j]).0 == c && down.nodes@[j].1 == h),
{
    let es = vg.edges();
    lemma_at_hop_reversed(es, TraversalDirection::Up, fv, c, h, v);
    if exists|i: int| 0 <= i < up.nodes@.len() && (#[trigger] up.nodes@[i]).0 == v && up.nodes@[i].1 == h {
        let i = choose|i: int| 0 <= i < up.nodes@.len() && (#[trigger] up.nodes@[i]).0 == v && up.nodes@[i].1 == h;
        assert(at_hop(es, TraversalDirection::Up, fv, c, h, v));
        assert(at_hop(es, TraversalDirection::Down, fv, v, h, c));
    }
    if exists|j: int| 0 <= j < down.nodes@.len() && (#[trigger] down.nodes@[j]).0 == c && down.nodes@[j].1 == h {
        let j = choose|j: int| 0 <= j < down.nodes@.len() && (#[trigger] down.nodes@[j]).0 == c && down.nodes@[j].1 == h;
        assert(at_hop(es, TraversalDirection::Down, fv, v, h, c));
        assert(at_hop(es, TraversalDirection::Up, fv, c, h, v));
    }
}

/// A path search is symmetric: a path joins `a` to `b` exactly when one
/// joins `b` to `a`, and the shortest ones have the same length.
pub proof fn lemma_bridge_symmetric(
    vg: &VaultGraph,
    a: usize,
    b: usize,
    ab: Option<Vec<(usize, usize, String)>>,
    ba: Option<Vec<(usize, usize, String)>>,
)
    requires
        bridge_answers(vg, a, b, ab),
        bridge_answers(vg, b, a, ba),
    ensures
        ab is None <==> ba is None,
        ab is Some && ba is Some ==> ab->0@.len() == ba->0@.len(),
{
    let es = vg.edges();
    let both = TraversalDirection::Both;
    assert(reversed(both) == both);
    match ab {
        Some(p) => {
            let k = p@.len() as int;
            lemma_at_hop_reversed(es, both, None, a, k, b);
            match ba {
                Some(q) => {
                    lemma_at_hop_unique(es, both, None, b, k, q@.len() as int, a);
                },
                None => {
                    assert(!linked(es, b, k as nat, a));
                },
            }
        },
        None => {
            match ba {
                Some(q) => {
                    let k = q@.len() as int;
                    lemma_at_hop_reversed(es, both, None, b, k, a);
                    assert(!linked(es, a, k as nat, b));
                },
                None => {},
            }
        },
    }
}

/// The graph's edges join its nodes.
pub open spec fn state_ok_edges(vg: &VaultGraph) -> bool {
    edges_in(vg.edges(), vg.nodes().len() as int) && vg.edges().len() < u32::MAX && vg.nodes().len() < u32::MAX
}

pub proof fn lemma_wf_edges(vg: &VaultGraph)
    requires
        vg.wf(),
    ensures
        state_ok_edges(vg),
{
    let st = vg.state();
    assert forall|i: int| 0 <= i < vg.edges().len() implies (#[trigger] vg.edges()[i]).0 < vg.nodes().len() && vg.edges()[i].1 < vg.nodes().len() by {
        assert(st.3[i] == crate::graph::edge_view(vg.edges()[i]));
    }
}

} // verus!
