//! The graph of a bundle as typed nodes and edges: concepts, the phantom
//! targets of broken links, and external sources, joined by link,
//! derivation, broken-link and source edges; with the `k`-hop
//! neighborhood of a node, and the layout modes of the graph view.
use vstd::prelude::*;
use crate::concept_id::ConceptId;

verus! {

broadcast use vstd::string::group_string_axioms;

/// What a node represents.
#[derive(Clone, Copy, Debug, PartialEq, Eq, Structural)]
pub enum NodeKind {
    /// An ordinary concept.
    Concept,
    /// An Attested Computation concept.
    Computation,
    /// The target of a broken link.
    Phantom,
    /// An external source named in `sources`.
    Source,
}

/// The kind of an edge.
#[derive(Clone, Copy, Debug, PartialEq, Eq, Structural)]
pub enum EdgeKind {
    /// A markdown cross-link.
    Link,
    /// A `sources[].resource` naming another concept.
    Derivation,
    /// A link whose target does not exist.
    Broken,
    /// An edge from a concept to one of its external sources.
    Source,
}

/// One node of the graph.
#[derive(Debug)]
pub struct GraphNode {
    /// A stable key: the concept id, `✗` and a broken target, or `src:` and
    /// a source's resource.
    pub key: String,
    /// The display label.
    pub label: String,
    /// The node's kind.
    pub kind: NodeKind,
    /// The concept id, for a concept node.
    pub id: Option<ConceptId>,
    /// How many edge ends touch the node (at most `usize::MAX`).
    pub degree: usize,
}

/// One directed edge, as indices into the nodes.
#[derive(Clone, Copy, Debug, PartialEq, Eq, Structural)]
pub struct GraphEdge {
    /// The source node.
    pub from: usize,
    /// The target node.
    pub to: usize,
    /// The edge's kind.
    pub kind: EdgeKind,
}

/// The layout algorithms of the graph view, taken in turn.
#[derive(Clone, Copy, Debug, PartialEq, Eq, Structural)]
pub enum LayoutMode {
    /// Force-directed.
    Force,
    /// Radial rings by the depth of a concept's directory.
    Radial,
}

impl LayoutMode {
    /// The next mode in the cycle: force, then radial, then force again.
    pub fn next(self) -> (r: LayoutMode)
        ensures
            r == (match self {
                LayoutMode::Force => LayoutMode::Radial,
                LayoutMode::Radial => LayoutMode::Force,
            }),
    {
        match self {
            LayoutMode::Force => LayoutMode::Radial,
            LayoutMode::Radial => LayoutMode::Force,
        }
    }

    /// The mode's display name.
    pub fn name(self) -> (r: &'static str)
        ensures
            r@ == (match self {
                LayoutMode::Force => "force"@,
                LayoutMode::Radial => "radial"@,
            }),
    {
        match self {
            LayoutMode::Force => "force",
            LayoutMode::Radial => "radial",
        }
    }
}

impl Default for LayoutMode {
    fn default() -> (r: LayoutMode)
        ensures
            r == LayoutMode::Force,
    {
        LayoutMode::Force
    }
}

/// The graph of a bundle.
#[derive(Debug)]
pub struct GraphModel {
    /// Concepts first, in load order, then phantom targets and sources.
    pub nodes: Vec<GraphNode>,
    /// All edges.
    pub edges: Vec<GraphEdge>,
}

/// The nodes within `d` hops of `center` (edges taken both ways), as a
/// membership test over node indices below `n`.
pub open spec fn within(edges: Seq<GraphEdge>, n: int, center: int, d: nat, v: int) -> bool
    decreases d,
{
    if d == 0 {
        v == center && 0 <= center < n
    } else {
        within(edges, n, center, (d - 1) as nat, v)
            || (0 <= v < n && exists|j: int| 0 <= j < edges.len() && (
                (#[trigger] edges[j].to == v && within(edges, n, center, (d - 1) as nat, edges[j].from as int))
                || (edges[j].from == v && within(edges, n, center, (d - 1) as nat, edges[j].to as int))))
    }
}

/// How many edge ends among the first `m` edges touch node `i`.
pub open spec fn ends_at(edges: Seq<GraphEdge>, i: int, m: int) -> int
    decreases m,
{
    if m <= 0 {
        0
    } else {
        ends_at(edges, i, m - 1) + (if edges[m - 1].from == i { 1int } else { 0int })
            + (if edges[m - 1].to == i { 1int } else { 0int })
    }
}

impl GraphModel {
    /// The index of the concept node with this id, if any.
    pub fn node_of(&self, id: &ConceptId) -> (r: Option<usize>)
        ensures
            match r {
                Some(i) => i < self.nodes.len() && (self.nodes@[i as int].id matches Some(x) && x@ == id@)
                    && forall|q: int| 0 <= q < i ==> !(#[trigger] self.nodes@[q].id matches Some(x) && x@ == id@),
                None => forall|q: int| 0 <= q < self.nodes.len() ==> !(#[trigger] self.nodes@[q].id matches Some(x) && x@ == id@),
            },
    {
        let mut i: usize = 0;
        while i < self.nodes.len()
            invariant
                i <= self.nodes.len(),
                forall|q: int| 0 <= q < i ==> !(#[trigger] self.nodes@[q].id matches Some(x) && x@ == id@),
            decreases self.nodes.len() - i,
        {
            match &self.nodes[i].id {
                Some(x) => {
                    if x.same(id) {
                        return Some(i);
                    }
                },
                None => {},
            }
            i += 1;
        }
        None
    }
}


/// Whether every edge joins two nodes below `n`.
pub open spec fn edges_ok(edges: Seq<GraphEdge>, n: int) -> bool {
    forall|j: int| 0 <= j < edges.len() ==> (#[trigger] edges[j]).from < n && edges[j].to < n
}

/// Whether the `k`-hop walk from `center` never reads an edge end past the
/// `n` nodes: every edge with one end within `k - 1` hops of `center` has
/// its other end among the nodes.
pub open spec fn reach_ok(edges: Seq<GraphEdge>, n: int, center: int, k: nat) -> bool {
    k == 0 || forall|j: int| 0 <= j < edges.len() ==> (
        (within(edges, n, center, (k - 1) as nat, (#[trigger] edges[j]).from as int) ==> edges[j].to < n)
        && (within(edges, n, center, (k - 1) as nat, edges[j].to as int) ==> edges[j].from < n))
}

/// Only nodes are within reach.
proof fn lemma_within_in_range(edges: Seq<GraphEdge>, n: int, center: int, d: nat, v: int)
    requires
        within(edges, n, center, d, v),
    ensures
        0 <= v < n,
    decreases d,
{
    if d > 0 && within(edges, n, center, (d - 1) as nat, v) {
        lemma_within_in_range(edges, n, center, (d - 1) as nat, v);
    }
}

/// An edge followed from the hop-`d` frontier (`d < k`) ends among the
/// nodes, and the frontier holds only nodes.
proof fn lemma_edge_step(es: Seq<GraphEdge>, n: int, center: int, d: nat, k: nat, j: int, fr: spec_fn(int) -> bool)
    requires
        reach_ok(es, n, center, k),
        d < k,
        0 <= j < es.len(),
        fr == (|x: int| frontier_at(es, n, center, d, x)),
    ensures
        fr(es[j].from as int) ==> es[j].to < n,
        fr(es[j].to as int) ==> es[j].from < n,
        fr(es[j].from as int) ==> es[j].from < n,
        fr(es[j].to as int) ==> es[j].to < n,
{
    let e = es[j];
    if fr(e.from as int) {
        lemma_within_mono(es, n, center, d, (k - 1) as nat, e.from as int);
        lemma_within_in_range(es, n, center, d, e.from as int);
    }
    if fr(e.to as int) {
        lemma_within_mono(es, n, center, d, (k - 1) as nat, e.to as int);
        lemma_within_in_range(es, n, center, d, e.to as int);
    }
}

/// A node within `a` hops is within any larger number of hops.
proof fn lemma_within_mono(edges: Seq<GraphEdge>, n: int, center: int, a: nat, b: nat, v: int)
    requires
        a <= b,
        within(edges, n, center, a, v),
    ensures
        within(edges, n, center, b, v),
    decreases b - a,
{
    if a < b {
        lemma_within_mono(edges, n, center, a, (b - 1) as nat, v);
    }
}

/// The nodes first reached at hop `d`.
pub open spec fn frontier_at(edges: Seq<GraphEdge>, n: int, center: int, d: nat, v: int) -> bool {
    within(edges, n, center, d, v) && (d == 0 || !within(edges, n, center, (d - 1) as nat, v))
}

/// Whether an edge among the first `m` leads to `v` from a node `fr` holds.
pub open spec fn reached_from(edges: Seq<GraphEdge>, fr: spec_fn(int) -> bool, m: int, v: int) -> bool {
    exists|j: int| 0 <= j < m && (
        (#[trigger] edges[j].to == v && fr(edges[j].from as int)) || (edges[j].from == v && fr(edges[j].to as int)))
}

/// A node one hop past the ball of radius `d` is reached from the ball's
/// newest layer.
proof fn lemma_frontier_suffices(edges: Seq<GraphEdge>, n: int, center: int, d: nat, v: int)
    requires
        0 <= v < n,
        !within(edges, n, center, d, v),
    ensures
        reached_from(edges, |x: int| within(edges, n, center, d, x), edges.len() as int, v)
            ==> reached_from(edges, |x: int| frontier_at(edges, n, center, d, x), edges.len() as int, v),
{
    let w = |x: int| within(edges, n, center, d, x);
    let f = |x: int| frontier_at(edges, n, center, d, x);
    if reached_from(edges, w, edges.len() as int, v) {
        let j = choose|j: int| 0 <= j < edges.len() && (
            (#[trigger] edges[j].to == v && w(edges[j].from as int)) || (edges[j].from == v && w(edges[j].to as int)));
        if d > 0 {
            if edges[j].to == v && w(edges[j].from as int) {
                if within(edges, n, center, (d - 1) as nat, edges[j].from as int) {
                    assert(within(edges, n, center, d, v));
                }
                assert(f(edges[j].from as int));
            } else {
                if within(edges, n, center, (d - 1) as nat, edges[j].to as int) {
                    assert(within(edges, n, center, d, v));
                }
                assert(f(edges[j].to as int));
            }
        } else {
            if edges[j].to == v && w(edges[j].from as int) {
                assert(f(edges[j].from as int));
            } else {
                assert(f(edges[j].to as int));
            }
        }
    }
}

/// Whether `v` is in `xs`, in exec form.
fn holds(xs: &Vec<usize>, v: usize) -> (r: bool)
    ensures
        r == xs@.contains(v),
{
    let mut i: usize = 0;
    while i < xs.len()
        invariant
            i <= xs.len(),
            forall|q: int| 0 <= q < i ==> xs@[q] != v,
        decreases xs.len() - i,
    {
        if xs[i] == v {
            return true;
        }
        i += 1;
    }
    false
}

impl GraphModel {
    /// The nodes within `k` hops of `center`, edges taken both ways, as one
    /// flag per node; all false for a `center` that is no node. An edge is
    /// followed only from a node already reached, so only an edge leaving a
    /// node within `k - 1` hops must end among the nodes (see [`reach_ok`]).
    pub fn neighborhood(&self, center: usize, k: usize) -> (r: Vec<bool>)
        requires
            center < self.nodes@.len() ==> reach_ok(self.edges@, self.nodes@.len() as int, center as int, k as nat),
        ensures
            r@.len() == self.nodes@.len(),
            forall|v: int| 0 <= v < r@.len() ==> r@[v] == within(self.edges@, self.nodes@.len() as int, center as int, k as nat, v),
    {
        let n = self.nodes.len();
        let ghost es = self.edges@;
        let mut included: Vec<bool> = Vec::new();
        let mut q: usize = 0;
        while q < n
            invariant
                q <= n,
                included@.len() == q,
                forall|v: int| 0 <= v < q ==> !included@[v],
            decreases n - q,
        {
            included.push(false);
            q += 1;
        }
        if center >= n {
            proof {
                assert forall|v: int| 0 <= v < included@.len() implies included@[v] == within(es, n as int, center as int, k as nat, v) by {
                    lemma_within_bounds(es, n as int, center as int, k as nat, v);
                }
            }
            return included;
        }
        included.set(center, true);
        let mut frontier: Vec<usize> = Vec::new();
        frontier.push(center);
        proof {
            assert forall|x: usize| x < n implies (#[trigger] frontier@.contains(x) <==> frontier_at(es, n as int, center as int, 0, x as int)) by {
                if x == center {
                    assert(frontier@[0] == x);
                }
            }
            assert forall|v: int| 0 <= v < n implies included@[v] == within(es, n as int, center as int, 0, v) by {}
        }
        if k == 0 {
            return included;
        }
        let mut d: usize = 0;
        while d < k
            invariant
                0 <= center < n,
                n == self.nodes@.len(),
                es == self.edges@,
                reach_ok(es, n as int, center as int, k as nat),
                k > 0,
                d <= k,
                included@.len() == n,
                forall|v: int| 0 <= v < n ==> included@[v] == within(es, n as int, center as int, d as nat, v),
                forall|x: usize| x < n ==> (#[trigger] frontier@.contains(x) <==> frontier_at(es, n as int, center as int, d as nat, x as int)),
                forall|x: usize| frontier@.contains(x) ==> x < n,
            decreases k - d,
        {
            let ghost fr = |x: int| frontier_at(es, n as int, center as int, d as nat, x);
            let ghost inc0 = included@;
            let mut next: Vec<usize> = Vec::new();
            let mut j: usize = 0;
            while j < self.edges.len()
                invariant
                    0 <= center < n,
                    n == self.nodes@.len(),
                    es == self.edges@,
                    reach_ok(es, n as int, center as int, k as nat),
                    k > 0,
                    d < k,
                    j <= es.len(),
                    included@.len() == n,
                    fr == (|x: int| frontier_at(es, n as int, center as int, d as nat, x)),
                    forall|x: usize| x < n ==> (#[trigger] frontier@.contains(x) <==> fr(x as int)),
                    forall|x: usize| frontier@.contains(x) ==> x < n,
                    inc0.len() == n,
                    forall|v: int| 0 <= v < n ==> inc0[v] == within(es, n as int, center as int, d as nat, v),
                    forall|v: int| 0 <= v < n ==> included@[v] == (inc0[v] || reached_from(es, fr, j as int, v)),
                    forall|x: usize| x < n ==> (#[trigger] next@.contains(x) <==> (included@[x as int] && !inc0[x as int])),
                    forall|x: usize| next@.contains(x) ==> x < n,
                decreases es.len() - j,
            {
                let e = self.edges[j];
                proof {
                    assert(es[j as int] == e);
                }
                let c1 = holds(&frontier, e.from);
                let c2 = holds(&frontier, e.to);
                proof {
                    lemma_edge_step(es, n as int, center as int, d as nat, k as nat, j as int, fr);
                    assert(c1 == fr(e.from as int));
                    assert(c2 == fr(e.to as int));
                }
                let ghost before_inc = included@;
                let ghost before_next = next@;
                proof {
                    assert forall|v: int| 0 <= v < n implies #[trigger] before_inc[v] == (inc0[v] || reached_from(es, fr, j as int, v)) by {
                        assert(included@[v] == (inc0[v] || reached_from(es, fr, j as int, v)));
                    }
                }
                let add1 = c1 && !included[e.to];
                if add1 {
                    included.set(e.to, true);
                    next.push(e.to);
                }
                let ghost mid_inc = included@;
                let ghost mid_next = next@;
                let add2 = c2 && !included[e.from];
                if add2 {
                    included.set(e.from, true);
                    next.push(e.from);
                }
                proof {
                    assert forall|v: int| 0 <= v < n implies included@[v] == (before_inc[v] || (v == e.to && c1) || (v == e.from && c2)) by {
                        if add1 {
                            assert(mid_inc == before_inc.update(e.to as int, true));
                        } else {
                            assert(mid_inc == before_inc);
                        }
                        if add2 {
                            assert(included@ == mid_inc.update(e.from as int, true));
                        } else {
                            assert(included@ == mid_inc);
                        }
                    }
                    assert forall|v: int| 0 <= v < n implies included@[v] == (inc0[v] || reached_from(es, fr, j + 1, v)) by {
                        assert(included@[v] == (before_inc[v] || (v == e.to && c1) || (v == e.from && c2)));
                        assert(before_inc[v] == (inc0[v] || reached_from(es, fr, j as int, v)));
                        if reached_from(es, fr, j as int, v) {
                            let jj = choose|jj: int| 0 <= jj < j && (
                                (#[trigger] es[jj].to == v && fr(es[jj].from as int)) || (es[jj].from == v && fr(es[jj].to as int)));
                            assert(0 <= jj < j + 1);
                            assert(reached_from(es, fr, j + 1, v));
                        }
                        if (v == e.to && c1) || (v == e.from && c2) {
                            assert(es[j as int].to == v && fr(es[j as int].from as int) || es[j as int].from == v && fr(es[j as int].to as int));
                            assert(reached_from(es, fr, j + 1, v));
                        }
                        if reached_from(es, fr, j + 1, v) {
                            let jj = choose|jj: int| 0 <= jj < j + 1 && (
                                (#[trigger] es[jj].to == v && fr(es[jj].from as int)) || (es[jj].from == v && fr(es[jj].to as int)));
                            if jj < j {
                                assert(reached_from(es, fr, j as int, v));
                            } else {
                                assert(es[j as int] == e);
                                assert((v == e.to && c1) || (v == e.from && c2));
                            }
                        }
                    }
                    assert forall|x: usize| next@.contains(x) implies x < n by {
                        let t = choose|t: int| 0 <= t < next@.len() && next@[t] == x;
                        if t < before_next.len() {
                            assert(before_next[t] == x);
                            assert(before_next.contains(x));
                        } else if t < mid_next.len() {
                            assert(x == e.to);
                        } else {
                            assert(x == e.from);
                        }
                    }
                    assert forall|x: usize| x < n implies (#[trigger] next@.contains(x) <==> (included@[x as int] && !inc0[x as int])) by {
                        let v = x as int;
                        if next@.contains(x) {
                            let t = choose|t: int| 0 <= t < next@.len() && next@[t] == x;
                            if t < before_next.len() {
                                assert(before_next[t] == x);
                                assert(before_next.contains(x));
                            } else if t < mid_next.len() {
                                assert(x == e.to && add1);
                            } else {
                                assert(x == e.from && add2);
                            }
                        }
                        if included@[v] && !inc0[v] {
                            if before_inc[v] {
                                assert(before_next.contains(x));
                                let t = choose|t: int| 0 <= t < before_next.len() && before_next[t] == x;
                                assert(next@[t] == x);
                            } else if v == e.to && add1 {
                                assert(next@[before_next.len() as int] == x);
                            } else {
                                assert(v == e.from && add2);
                                assert(next@[next@.len() - 1] == x);
                            }
                        }
                    }
                }
                j += 1;
            }
            proof {
                assert forall|v: int| 0 <= v < n implies included@[v] == within(es, n as int, center as int, (d + 1) as nat, v) by {
                    let w = |x: int| within(es, n as int, center as int, d as nat, x);
                    assert(reached_from(es, fr, es.len() as int, v) ==> reached_from(es, w, es.len() as int, v)) by {
                        if reached_from(es, fr, es.len() as int, v) {
                            let jj = choose|jj: int| 0 <= jj < es.len() && (
                                (#[trigger] es[jj].to == v && fr(es[jj].from as int)) || (es[jj].from == v && fr(es[jj].to as int)));
                            assert(0 <= jj < es.len() && ((es[jj].to == v && w(es[jj].from as int)) || (es[jj].from == v && w(es[jj].to as int))));
                        }
                    }
                    if !inc0[v] {
                        lemma_frontier_suffices(es, n as int, center as int, d as nat, v);
                    }
                    if within(es, n as int, center as int, (d + 1) as nat, v) && !within(es, n as int, center as int, d as nat, v) {
                        let jj = choose|jj: int| 0 <= jj < es.len() && (
                            (#[trigger] es[jj].to == v && within(es, n as int, center as int, d as nat, es[jj].from as int))
                            || (es[jj].from == v && within(es, n as int, center as int, d as nat, es[jj].to as int)));
                        assert(reached_from(es, w, es.len() as int, v));
                    }
                    if reached_from(es, w, es.len() as int, v) && !inc0[v] {
                        let jj = choose|jj: int| 0 <= jj < es.len() && (
                            (#[trigger] es[jj].to == v && w(es[jj].from as int)) || (es[jj].from == v && w(es[jj].to as int)));
                        assert(within(es, n as int, center as int, (d + 1) as nat, v));
                    }
                }
                assert forall|x: usize| x < n implies (#[trigger] next@.contains(x) <==> frontier_at(es, n as int, center as int, (d + 1) as nat, x as int)) by {
                    assert(included@[x as int] == within(es, n as int, center as int, (d + 1) as nat, x as int));
                }
            }
            frontier = next;
            d += 1;
        }
        included
    }
}

proof fn lemma_within_bounds(edges: Seq<GraphEdge>, n: int, center: int, d: nat, v: int)
    requires
        !(0 <= center < n),
    ensures
        !within(edges, n, center, d, v),
    decreases d,
{
    if d > 0 {
        lemma_within_bounds(edges, n, center, (d - 1) as nat, v);
        if within(edges, n, center, d, v) {
            let j = choose|j: int| 0 <= j < edges.len() && (
                (#[trigger] edges[j].to == v && within(edges, n, center, (d - 1) as nat, edges[j].from as int))
                || (edges[j].from == v && within(edges, n, center, (d - 1) as nat, edges[j].to as int)));
            lemma_within_bounds(edges, n, center, (d - 1) as nat, edges[j].from as int);
            lemma_within_bounds(edges, n, center, (d - 1) as nat, edges[j].to as int);
        }
    }
}

} // verus!
