//! Graph representations over rectangle nodes: an edge-set graph, an
//! adjacency graph, and a distance-annotated graph, together with dead-end
//! pruning and a uniform-cost shortest-path solver.

use vstd::prelude::*;

use crate::math::Rect;
use crate::pqueue::{pq_contents, pq_empty, SolverQueue};

verus! {

broadcast use vstd::seq_lib::group_seq_properties;

/// Identifier of a graph node; positive, assigned in discovery order.
pub type NodeID = u32;

/// An unordered pair of node identifiers, stored canonically so that
/// (a, b) and (b, a) collide.
#[derive(Clone, Copy, Debug, PartialEq, Eq, Structural)]
pub struct Edge {
    pub min: NodeID,
    pub max: NodeID,
}

impl Edge {
    /// A well-formed edge joins two distinct positive identifiers.
    pub open spec fn wf(self) -> bool {
        0 < self.min < self.max
    }

    pub fn new(a: NodeID, b: NodeID) -> (e: Edge)
        ensures
            e.min == if a <= b { a } else { b },
            e.max == if a <= b { b } else { a },
    {
        if a <= b {
            Edge { min: a, max: b }
        } else {
            Edge { min: b, max: a }
        }
    }
}

/// The canonical edge between two identifiers, as a spec value.
pub open spec fn edge_of(a: NodeID, b: NodeID) -> Edge {
    if a <= b {
        Edge { min: a, max: b }
    } else {
        Edge { min: b, max: a }
    }
}

/// Is `id` a key of the node list?
pub open spec fn has_key<T>(s: Seq<(NodeID, T)>, id: NodeID) -> bool {
    exists|i: int| 0 <= i < s.len() && s[i].0 == id
}

/// Every key occurs at most once.
pub open spec fn unique_keys<T>(s: Seq<(NodeID, T)>) -> bool {
    forall|i: int, j: int| 0 <= i < j < s.len() ==> s[i].0 != s[j].0
}

/// The index of the entry keyed by `id`; meaningful when `has_key` holds.
pub open spec fn key_index<T>(s: Seq<(NodeID, T)>, id: NodeID) -> int {
    choose|i: int| 0 <= i < s.len() && s[i].0 == id
}

/// The value stored under `id`; meaningful when `has_key` holds.
pub open spec fn value_of<T>(s: Seq<(NodeID, T)>, id: NodeID) -> T {
    s[key_index(s, id)].1
}

/// The payload stored under `id`, if any (first match).
pub open spec fn node_lookup(s: Seq<(NodeID, Rect)>, id: NodeID) -> Option<Rect>
    decreases s.len(),
{
    if s.len() == 0 {
        None
    } else if s[0].0 == id {
        Some(s[0].1)
    } else {
        node_lookup(s.skip(1), id)
    }
}

/// No edge occurs twice.
pub open spec fn edges_unique(s: Seq<Edge>) -> bool {
    forall|i: int, j: int| 0 <= i < j < s.len() ==> s[i] != s[j]
}

/// Every edge is well-formed and references existing nodes.
pub open spec fn edges_wf(es: Seq<Edge>, nodes: Seq<(NodeID, Rect)>) -> bool {
    forall|i: int|
        0 <= i < es.len() ==> (#[trigger] es[i]).wf() && has_key(nodes, es[i].min) && has_key(
            nodes,
            es[i].max,
        )
}

/// The number of edges incident to `id`.
pub open spec fn degree_in(es: Seq<Edge>, id: NodeID) -> nat
    decreases es.len(),
{
    if es.len() == 0 {
        0
    } else {
        degree_in(es.drop_last(), id) + if es.last().min == id || es.last().max == id {
            1nat
        } else {
            0nat
        }
    }
}

/// Is the edge incident to `id`?
pub open spec fn touches(e: Edge, id: NodeID) -> bool {
    e.min == id || e.max == id
}

/// An edge of the list incident to `id` gives it degree at least one.
proof fn lemma_incident_degree(es: Seq<Edge>, e: Edge, id: NodeID)
    requires
        es.contains(e),
        touches(e, id),
    ensures
        degree_in(es, id) >= 1,
    decreases es.len(),
{
    if es.last() == e {
    } else {
        let j = choose|j: int| 0 <= j < es.len() && es[j] == e;
        assert(es.drop_last()[j] == e);
        lemma_incident_degree(es.drop_last(), e, id);
    }
}

/// Two distinct incident edges give degree at least two.
proof fn lemma_two_incident_degree(es: Seq<Edge>, e1: Edge, e2: Edge, id: NodeID)
    requires
        es.contains(e1),
        es.contains(e2),
        e1 != e2,
        touches(e1, id),
        touches(e2, id),
    ensures
        degree_in(es, id) >= 2,
    decreases es.len(),
{
    if es.last() == e1 {
        let j = choose|j: int| 0 <= j < es.len() && es[j] == e2;
        assert(j < es.len() - 1);
        assert(es.drop_last()[j] == e2);
        lemma_incident_degree(es.drop_last(), e2, id);
    } else if es.last() == e2 {
        let j = choose|j: int| 0 <= j < es.len() && es[j] == e1;
        assert(j < es.len() - 1);
        assert(es.drop_last()[j] == e1);
        lemma_incident_degree(es.drop_last(), e1, id);
    } else {
        let j1 = choose|j: int| 0 <= j < es.len() && es[j] == e1;
        let j2 = choose|j: int| 0 <= j < es.len() && es[j] == e2;
        assert(es.drop_last()[j1] == e1);
        assert(es.drop_last()[j2] == e2);
        lemma_two_incident_degree(es.drop_last(), e1, e2, id);
    }
}

/// A subgraph of `g` that keeps both terminals, whose edges stay inside its
/// node set, and in which every non-terminal node has two distinct incident
/// edges: pruning may never remove any of it.
pub open spec fn dead_end_free_subgraph(g: EdgeSetGraph, ns: Set<NodeID>, es: Set<Edge>) -> bool {
    &&& ns.contains(g.start)
    &&& ns.contains(g.goal)
    &&& (forall|id: NodeID| ns.contains(id) ==> has_key(g.nodes@, id))
    &&& (forall|e: Edge|
        es.contains(e) ==> g.edges@.contains(e) && ns.contains(e.min) && ns.contains(e.max))
    &&& (forall|id: NodeID|
        ns.contains(id) && id != g.start && id != g.goal ==> exists|e1: Edge, e2: Edge|
            #[trigger] es.contains(e1) && #[trigger] es.contains(e2) && e1 != e2 && touches(e1, id)
                && touches(e2, id))
}

/// Common read access shared by all three graph representations.
pub trait Graph {
    spec fn spec_nodes(&self) -> Seq<(NodeID, Rect)>;

    spec fn spec_start(&self) -> NodeID;

    spec fn spec_goal(&self) -> NodeID;

    fn start(&self) -> (r: NodeID)
        ensures
            r == self.spec_start(),
    ;

    fn goal(&self) -> (r: NodeID)
        ensures
            r == self.spec_goal(),
    ;

    fn nodes(&self) -> (r: &Vec<(NodeID, Rect)>)
        ensures
            r@ == self.spec_nodes(),
    ;

    fn get_node(&self, id: NodeID) -> (r: &Rect)
        requires
            has_key(self.spec_nodes(), id),
        ensures
            node_lookup(self.spec_nodes(), id) == Some(*r),
    ;
}

/// Looks up the payload stored under `id` in a node list.
pub fn find_node(nodes: &Vec<(NodeID, Rect)>, id: NodeID) -> (r: &Rect)
    requires
        has_key(nodes@, id),
    ensures
        node_lookup(nodes@, id) == Some(*r),
{
    let mut i: usize = 0;
    proof {
        assert(nodes@.skip(0) =~= nodes@);
    }
    while i < nodes.len()
        invariant
            has_key(nodes@, id),
            0 <= i <= nodes@.len(),
            forall|j: int| 0 <= j < i ==> nodes@[j].0 != id,
            node_lookup(nodes@, id) == node_lookup(nodes@.skip(i as int), id),
        decreases nodes@.len() - i,
    {
        if nodes[i].0 == id {
            assert(nodes@.skip(i as int)[0] == nodes@[i as int]);
            return &nodes[i].1;
        }
        assert(nodes@.skip(i as int).skip(1) =~= nodes@.skip(i + 1));
        i += 1;
    }
    proof {
        let w = choose|j: int| 0 <= j < nodes@.len() && nodes@[j].0 == id;
        assert(false);
    }
    &nodes[0].1
}

/// Nodes (rectangles keyed by identifier), designated start and goal,
/// and a set of undirected edges.
pub struct EdgeSetGraph {
    pub nodes: Vec<(NodeID, Rect)>,
    pub start: NodeID,
    pub goal: NodeID,
    pub edges: Vec<Edge>,
}

impl EdgeSetGraph {
    /// Start and goal are present, node keys are unique, and edges are
    /// unique, canonical, and reference only existing nodes.
    pub open spec fn wf(self) -> bool {
        &&& unique_keys(self.nodes@)
        &&& has_key(self.nodes@, self.start)
        &&& has_key(self.nodes@, self.goal)
        &&& edges_unique(self.edges@)
        &&& edges_wf(self.edges@, self.nodes@)
    }

    /// The degree of a node: how many edges touch it.
    pub open spec fn spec_degree(self, id: NodeID) -> nat {
        degree_in(self.edges@, id)
    }

    /// No node other than start and goal has degree below two.
    pub open spec fn no_dead_ends(self) -> bool {
        forall|id: NodeID|
            has_key(self.nodes@, id) && id != self.start && id != self.goal
                ==> self.spec_degree(id) >= 2
    }

    pub fn new(nodes: Vec<(NodeID, Rect)>, start: NodeID, goal: NodeID, edges: Vec<Edge>) -> (g:
        EdgeSetGraph)
        ensures
            g.nodes == nodes,
            g.start == start,
            g.goal == goal,
            g.edges == edges,
    {
        EdgeSetGraph { nodes, start, goal, edges }
    }
}

impl Graph for EdgeSetGraph {
    open spec fn spec_nodes(&self) -> Seq<(NodeID, Rect)> {
        self.nodes@
    }

    open spec fn spec_start(&self) -> NodeID {
        self.start
    }

    open spec fn spec_goal(&self) -> NodeID {
        self.goal
    }

    fn start(&self) -> NodeID {
        self.start
    }

    fn goal(&self) -> NodeID {
        self.goal
    }

    fn nodes(&self) -> &Vec<(NodeID, Rect)> {
        &self.nodes
    }

    fn get_node(&self, id: NodeID) -> &Rect {
        find_node(&self.nodes, id)
    }
}

/// Is `id` a key of the adjacency list?
pub open spec fn adj_has_key(a: Seq<(NodeID, Vec<NodeID>)>, id: NodeID) -> bool {
    exists|i: int| 0 <= i < a.len() && a[i].0 == id
}

/// Does the adjacency list record `v` as a neighbor of `u`?
pub open spec fn adj_contains(a: Seq<(NodeID, Vec<NodeID>)>, u: NodeID, v: NodeID) -> bool {
    exists|i: int| 0 <= i < a.len() && a[i].0 == u && a[i].1@.contains(v)
}

/// Every adjacency key occurs at most once.
pub open spec fn adj_unique_keys(a: Seq<(NodeID, Vec<NodeID>)>) -> bool {
    forall|i: int, j: int| 0 <= i < j < a.len() ==> a[i].0 != a[j].0
}

/// Nodes with designated start and goal, plus per-node neighbor sets.
pub struct AdjacencyGraph {
    pub nodes: Vec<(NodeID, Rect)>,
    pub start: NodeID,
    pub goal: NodeID,
    pub adjs: Vec<(NodeID, Vec<NodeID>)>,
}

impl AdjacencyGraph {
    /// Structural invariant: unique keys, start and goal present, every node
    /// has an adjacency entry (possibly empty) and only nodes do, neighbors
    /// are nodes, no node neighbors itself, and adjacency is symmetric.
    pub open spec fn wf(self) -> bool {
        &&& unique_keys(self.nodes@)
        &&& has_key(self.nodes@, self.start)
        &&& has_key(self.nodes@, self.goal)
        &&& adj_unique_keys(self.adjs@)
        &&& forall|id: NodeID| adj_has_key(self.adjs@, id) <==> has_key(self.nodes@, id)
        &&& forall|u: NodeID, v: NodeID|
            #[trigger] adj_contains(self.adjs@, u, v) ==> has_key(self.nodes@, v) && u != v
        &&& forall|u: NodeID, v: NodeID|
            #[trigger] adj_contains(self.adjs@, u, v) ==> adj_contains(self.adjs@, v, u)
    }

    /// Is `v` a recorded neighbor of `u`?
    pub open spec fn spec_adjacent(self, u: NodeID, v: NodeID) -> bool {
        adj_contains(self.adjs@, u, v)
    }

    pub fn new(
        nodes: Vec<(NodeID, Rect)>,
        start: NodeID,
        goal: NodeID,
        adjs: Vec<(NodeID, Vec<NodeID>)>,
    ) -> (g: AdjacencyGraph)
        ensures
            g.nodes == nodes,
            g.start == start,
            g.goal == goal,
            g.adjs == adjs,
    {
        AdjacencyGraph { nodes, start, goal, adjs }
    }

    /// The neighbor set recorded for `id`.
    pub fn neighbors(&self, id: NodeID) -> (r: &Vec<NodeID>)
        requires
            adj_has_key(self.adjs@, id),
        ensures
            exists|i: int|
                0 <= i < self.adjs@.len() && self.adjs@[i].0 == id && self.adjs@[i].1 == *r,
            forall|v: NodeID|
                adj_unique_keys(self.adjs@) ==> (r@.contains(v) <==> adj_contains(
                    self.adjs@,
                    id,
                    v,
                )),
    {
        let mut i: usize = 0;
        while i < self.adjs.len()
            invariant
                adj_has_key(self.adjs@, id),
                0 <= i <= self.adjs@.len(),
                forall|j: int| 0 <= j < i ==> self.adjs@[j].0 != id,
            decreases self.adjs@.len() - i,
        {
            if self.adjs[i].0 == id {
                return &self.adjs[i].1;
            }
            i += 1;
        }
        proof {
            let w = choose|j: int| 0 <= j < self.adjs@.len() && self.adjs@[j].0 == id;
            assert(false);
        }
        &self.adjs[0].1
    }
}

impl Graph for AdjacencyGraph {
    open spec fn spec_nodes(&self) -> Seq<(NodeID, Rect)> {
        self.nodes@
    }

    open spec fn spec_start(&self) -> NodeID {
        self.start
    }

    open spec fn spec_goal(&self) -> NodeID {
        self.goal
    }

    fn start(&self) -> NodeID {
        self.start
    }

    fn goal(&self) -> NodeID {
        self.goal
    }

    fn nodes(&self) -> &Vec<(NodeID, Rect)> {
        &self.nodes
    }

    fn get_node(&self, id: NodeID) -> &Rect {
        find_node(&self.nodes, id)
    }
}

/// Records `v` as a neighbor of `u` in the adjacency list.
fn add_neighbor(adjs: &mut Vec<(NodeID, Vec<NodeID>)>, u: NodeID, v: NodeID)
    requires
        adj_has_key(old(adjs)@, u),
        adj_unique_keys(old(adjs)@),
    ensures
        final(adjs)@.len() == old(adjs)@.len(),
        forall|j: int| 0 <= j < final(adjs)@.len() ==> final(adjs)@[j].0 == old(adjs)@[j].0,
        adj_unique_keys(final(adjs)@),
        forall|a: NodeID, b: NodeID|
            #[trigger] adj_contains(final(adjs)@, a, b) <==> adj_contains(old(adjs)@, a, b) || (a
                == u && b == v),
{
    let ghost orig = adjs@;
    let mut i: usize = 0;
    while i < adjs.len()
        invariant
            adjs@ == orig,
            old(adjs)@ == orig,
            adj_unique_keys(orig),
            adj_has_key(orig, u),
            0 <= i <= orig.len(),
            forall|j: int| 0 <= j < i ==> orig[j].0 != u,
        decreases adjs@.len() - i,
    {
        if adjs[i].0 == u {
            let prev = adjs.remove(i);
            let (key, mut list) = prev;
            list.push(v);
            adjs.insert(i, (key, list));
            proof {
                let x = adjs@[i as int];
                assert(adjs@ =~= orig.update(i as int, x));
                assert(forall|j: int| 0 <= j < adjs@.len() ==> adjs@[j].0 == orig[j].0);
                assert(adjs@[i as int].0 == u && adjs@[i as int].1@ == orig[i as int].1@.push(v));
                assert forall|a: NodeID, b: NodeID| #[trigger]
                    adj_contains(adjs@, a, b) implies adj_contains(orig, a, b) || (a == u && b
                    == v) by {
                    let k = choose|k: int|
                        0 <= k < adjs@.len() && adjs@[k].0 == a && adjs@[k].1@.contains(b);
                    if k == i {
                        if b != v || a != u {
                            let m = choose|m: int|
                                0 <= m < adjs@[k].1@.len() && adjs@[k].1@[m] == b;
                            assert(orig[k].1@[m] == b);
                        }
                    } else {
                        assert(orig[k].1@.contains(b));
                    }
                }
                assert forall|a: NodeID, b: NodeID|
                    adj_contains(orig, a, b) || (a == u && b == v) implies #[trigger] adj_contains(
                    adjs@,
                    a,
                    b,
                ) by {
                    if adj_contains(orig, a, b) {
                        let k = choose|k: int|
                            0 <= k < orig.len() && orig[k].0 == a && orig[k].1@.contains(b);
                        if k == i {
                            let m = choose|m: int|
                                0 <= m < orig[k].1@.len() && orig[k].1@[m] == b;
                            assert(adjs@[k].1@[m] == b);
                        } else {
                            assert(adjs@[k].1@.contains(b));
                        }
                    } else {
                        assert(adjs@[i as int].1@.last() == v);
                    }
                }
            }
            return ;
        }
        i += 1;
    }
    proof {
        let w = choose|j: int| 0 <= j < orig.len() && orig[j].0 == u;
        assert(false);
    }
}

impl EdgeSetGraph {
    /// Converts the edge set into per-node neighbor sets. Every node gets an
    /// entry, isolated nodes an empty one; for every edge (min, max) each
    /// endpoint appears in the other's neighbor set, and nothing else does.
    pub fn to_adjacency_graph(self) -> (g: AdjacencyGraph)
        requires
            self.wf(),
        ensures
            g.nodes == self.nodes,
            g.start == self.start,
            g.goal == self.goal,
            g.wf(),
            forall|a: NodeID, b: NodeID|
                #[trigger] adj_contains(g.adjs@, a, b) <==> self.edges@.contains(edge_of(a, b)) && a
                    != b,
    {
        let mut adjs: Vec<(NodeID, Vec<NodeID>)> = Vec::new();
        let mut i: usize = 0;
        while i < self.nodes.len()
            invariant
                0 <= i <= self.nodes@.len(),
                unique_keys(self.nodes@),
                adjs@.len() == i,
                forall|j: int| 0 <= j < i ==> adjs@[j].0 == self.nodes@[j].0 && adjs@[j].1@.len()
                    == 0,
            decreases self.nodes@.len() - i,
        {
            adjs.push((self.nodes[i].0, Vec::new()));
            i += 1;
        }
        proof {
            assert forall|a: NodeID, b: NodeID| !#[trigger] adj_contains(adjs@, a, b) by {
                if adj_contains(adjs@, a, b) {
                    let k = choose|k: int|
                        0 <= k < adjs@.len() && adjs@[k].0 == a && adjs@[k].1@.contains(b);
                }
            }
        }
        let mut j: usize = 0;
        while j < self.edges.len()
            invariant
                0 <= j <= self.edges@.len(),
                self.wf(),
                adjs@.len() == self.nodes@.len(),
                forall|k: int| 0 <= k < adjs@.len() ==> adjs@[k].0 == self.nodes@[k].0,
                adj_unique_keys(adjs@),
                forall|a: NodeID, b: NodeID|
                    #[trigger] adj_contains(adjs@, a, b) <==> exists|k: int|
                        0 <= k < j && (self.edges@[k].min == a && self.edges@[k].max == b
                            || self.edges@[k].min == b && self.edges@[k].max == a),
            decreases self.edges@.len() - j,
        {
            let e = self.edges[j];
            proof {
                let w = choose|w: int| 0 <= w < self.nodes@.len() && self.nodes@[w].0 == e.min;
                assert(adjs@[w].0 == e.min);
                let w2 = choose|w2: int| 0 <= w2 < self.nodes@.len() && self.nodes@[w2].0 == e.max;
                assert(adjs@[w2].0 == e.max);
            }
            add_neighbor(&mut adjs, e.min, e.max);
            add_neighbor(&mut adjs, e.max, e.min);
            j += 1;
        }
        proof {
            assert forall|a: NodeID, b: NodeID| #[trigger]
                adj_contains(adjs@, a, b) <==> self.edges@.contains(edge_of(a, b)) && a != b by {
                if adj_contains(adjs@, a, b) {
                    let k = choose|k: int|
                        0 <= k < self.edges@.len() && (self.edges@[k].min == a && self.edges@[k].max
                            == b || self.edges@[k].min == b && self.edges@[k].max == a);
                    assert(self.edges@[k].wf());
                    assert(self.edges@[k] == edge_of(a, b));
                }
                if self.edges@.contains(edge_of(a, b)) && a != b {
                    let k = choose|k: int|
                        0 <= k < self.edges@.len() && self.edges@[k] == edge_of(a, b);
                }
            }
            assert forall|id: NodeID| adj_has_key(adjs@, id) <==> has_key(
                self.nodes@,
                id,
            ) by {
                if adj_has_key(adjs@, id) {
                    let k = choose|k: int| 0 <= k < adjs@.len() && adjs@[k].0 == id;
                    assert(self.nodes@[k].0 == id);
                }
                if has_key(self.nodes@, id) {
                    let k = choose|k: int| 0 <= k < self.nodes@.len() && self.nodes@[k].0 == id;
                    assert(adjs@[k].0 == id);
                }
            }
            assert forall|u: NodeID, v: NodeID| #[trigger]
                adj_contains(adjs@, u, v) implies has_key(self.nodes@, v) && u != v by {
                let e = edge_of(u, v);
                assert(self.edges@.contains(e));
                let k = choose|k: int| 0 <= k < self.edges@.len() && self.edges@[k] == e;
                assert(self.edges@[k].wf());
            }
        }
        AdjacencyGraph { nodes: self.nodes, start: self.start, goal: self.goal, adjs }
    }
}

/// Counts the edges incident to `id`.
pub fn count_degree(edges: &Vec<Edge>, id: NodeID) -> (d: usize)
    ensures
        d == degree_in(edges@, id),
{
    let mut d: usize = 0;
    let mut i: usize = 0;
    while i < edges.len()
        invariant
            0 <= i <= edges@.len(),
            d == degree_in(edges@.take(i as int), id),
            d <= i,
        decreases edges@.len() - i,
    {
        proof {
            assert(edges@.take(i + 1).drop_last() =~= edges@.take(i as int));
            assert(edges@.take(i + 1).last() == edges@[i as int]);
        }
        if edges[i].min == id || edges[i].max == id {
            d += 1;
        }
        i += 1;
    }
    proof {
        assert(edges@.take(edges@.len() as int) =~= edges@);
    }
    d
}

/// Linear membership test on a list of identifiers.
fn contains_id(v: &Vec<NodeID>, x: NodeID) -> (r: bool)
    ensures
        r == v@.contains(x),
{
    let mut i: usize = 0;
    while i < v.len()
        invariant
            0 <= i <= v@.len(),
            forall|j: int| 0 <= j < i ==> v@[j] != x,
        decreases v@.len() - i,
    {
        if v[i] == x {
            return true;
        }
        i += 1;
    }
    proof {
        if v@.contains(x) {
            let w = choose|j: int| 0 <= j < v@.len() && v@[j] == x;
            assert(false);
        }
    }
    false
}

impl EdgeSetGraph {
    /// Iteratively removes every non-terminal node of degree below two,
    /// together with its incident edges, until none is left. Start and goal
    /// are never removed; the result is a subgraph of the input, and a graph
    /// already free of dead ends comes back unchanged, so pruning is
    /// idempotent.
    pub fn prune(self) -> (r: EdgeSetGraph)
        requires
            self.wf(),
        ensures
            r.wf(),
            r.start == self.start,
            r.goal == self.goal,
            r.no_dead_ends(),
            has_key(r.nodes@, self.start),
            has_key(r.nodes@, self.goal),
            r.nodes@.len() <= self.nodes@.len(),
            r.edges@.len() <= self.edges@.len(),
            forall|j: int| 0 <= j < r.nodes@.len() ==> self.nodes@.contains(#[trigger] r.nodes@[j]),
            forall|j: int| 0 <= j < r.edges@.len() ==> self.edges@.contains(#[trigger] r.edges@[j]),
            self.no_dead_ends() ==> r == self,
            forall|ns: Set<NodeID>, es: Set<Edge>|
                #[trigger] dead_end_free_subgraph(self, ns, es) ==> (forall|id: NodeID|
                    ns.contains(id) ==> has_key(r.nodes@, id)) && (forall|e: Edge|
                    es.contains(e) ==> r.edges@.contains(e)),
    {
        let start = self.start;
        let goal = self.goal;
        let mut nodes = self.nodes;
        let mut edges = self.edges;
        loop
            invariant
                start == self.start,
                goal == self.goal,
                unique_keys(nodes@),
                has_key(nodes@, start),
                has_key(nodes@, goal),
                edges_unique(edges@),
                edges_wf(edges@, nodes@),
                forall|j: int|
                    0 <= j < nodes@.len() ==> self.nodes@.contains(#[trigger] nodes@[j]),
                forall|j: int|
                    0 <= j < edges@.len() ==> self.edges@.contains(#[trigger] edges@[j]),
                nodes@.len() <= self.nodes@.len(),
                edges@.len() <= self.edges@.len(),
                self.no_dead_ends() ==> nodes == self.nodes && edges == self.edges,
                forall|ns: Set<NodeID>, es: Set<Edge>|
                    #[trigger] dead_end_free_subgraph(self, ns, es) ==> (forall|id: NodeID|
                        ns.contains(id) ==> has_key(nodes@, id)) && (forall|e: Edge|
                        es.contains(e) ==> edges@.contains(e)),
            ensures
                start == self.start,
                goal == self.goal,
                unique_keys(nodes@),
                has_key(nodes@, start),
                has_key(nodes@, goal),
                edges_unique(edges@),
                edges_wf(edges@, nodes@),
                forall|j: int|
                    0 <= j < nodes@.len() ==> self.nodes@.contains(#[trigger] nodes@[j]),
                forall|j: int|
                    0 <= j < edges@.len() ==> self.edges@.contains(#[trigger] edges@[j]),
                nodes@.len() <= self.nodes@.len(),
                edges@.len() <= self.edges@.len(),
                self.no_dead_ends() ==> nodes == self.nodes && edges == self.edges,
                forall|ns: Set<NodeID>, es: Set<Edge>|
                    #[trigger] dead_end_free_subgraph(self, ns, es) ==> (forall|id: NodeID|
                        ns.contains(id) ==> has_key(nodes@, id)) && (forall|e: Edge|
                        es.contains(e) ==> edges@.contains(e)),
                forall|id: NodeID|
                    has_key(nodes@, id) && id != start && id != goal ==> degree_in(edges@, id) >= 2,
            decreases nodes@.len(),
        {
            let ghost cur_nodes = nodes@;
            let ghost cur_edges = edges@;
            // find the dead ends of the current graph
            let mut dead: Vec<NodeID> = Vec::new();
            let mut i: usize = 0;
            while i < nodes.len()
                invariant
                    nodes@ == cur_nodes,
                    edges@ == cur_edges,
                    0 <= i <= nodes@.len(),
                    forall|j: int|
                        0 <= j < dead@.len() ==> has_key(nodes@, #[trigger] dead@[j]) && dead@[j]
                            != start && dead@[j] != goal && degree_in(edges@, dead@[j]) < 2,
                    forall|k: int|
                        0 <= k < i && (#[trigger] nodes@[k]).0 != start && nodes@[k].0 != goal
                            && degree_in(edges@, nodes@[k].0) < 2 ==> dead@.contains(nodes@[k].0),
                decreases nodes@.len() - i,
            {
                let id = nodes[i].0;
                if id != start && id != goal {
                    let d = count_degree(&edges, id);
                    if d < 2 {
                        dead.push(id);
                    }
                }
                i += 1;
            }
            if dead.len() == 0 {
                proof {
                    assert forall|id: NodeID|
                        has_key(nodes@, id) && id != start && id != goal implies degree_in(
                        edges@,
                        id,
                    ) >= 2 by {
                        let k = choose|k: int| 0 <= k < nodes@.len() && nodes@[k].0 == id;
                        if degree_in(edges@, id) < 2 {
                            assert(dead@.contains(nodes@[k].0));
                        }
                    }
                }
                break ;
            }
            proof {
                // a graph with no dead ends would have produced an empty list
                if self.no_dead_ends() {
                    assert(has_key(nodes@, dead@[0]));
                    assert(false);
                }
            }
            // drop every edge touching a dead end
            let mut kept_edges: Vec<Edge> = Vec::new();
            let mut i: usize = 0;
            while i < edges.len()
                invariant
                    nodes@ == cur_nodes,
                    edges@ == cur_edges,
                    0 <= i <= edges@.len(),
                    edges_unique(edges@),
                    kept_edges@.len() <= i,
                    forall|j: int|
                        0 <= j < kept_edges@.len() ==> exists|k: int|
                            0 <= k < i && edges@[k] == #[trigger] kept_edges@[j],
                    forall|j: int|
                        0 <= j < kept_edges@.len() ==> !dead@.contains(
                            (#[trigger] kept_edges@[j]).min,
                        ) && !dead@.contains(kept_edges@[j].max),
                    forall|k: int|
                        0 <= k < i && !dead@.contains((#[trigger] edges@[k]).min)
                            && !dead@.contains(edges@[k].max) ==> kept_edges@.contains(edges@[k]),
                    edges_unique(kept_edges@),
                decreases edges@.len() - i,
            {
                let e = edges[i];
                if !contains_id(&dead, e.min) && !contains_id(&dead, e.max) {
                    proof {
                        assert forall|j: int| 0 <= j < kept_edges@.len() implies kept_edges@[j]
                            != e by {
                            let k = choose|k: int| 0 <= k < i && edges@[k] == kept_edges@[j];
                        }
                    }
                    kept_edges.push(e);
                }
                i += 1;
            }
            // drop the dead-end nodes themselves
            let mut kept_nodes: Vec<(NodeID, Rect)> = Vec::new();
            let ghost kdead = choose|k: int| 0 <= k < nodes@.len() && nodes@[k].0 == dead@[0];
            let mut i: usize = 0;
            while i < nodes.len()
                invariant
                    nodes@ == cur_nodes,
                    edges@ == cur_edges,
                    0 <= i <= nodes@.len(),
                    unique_keys(nodes@),
                    dead@.len() > 0,
                    0 <= kdead < nodes@.len() && nodes@[kdead].0 == dead@[0],
                    dead@.contains(dead@[0]),
                    kept_nodes@.len() <= i,
                    i > kdead ==> kept_nodes@.len() < i,
                    forall|j: int|
                        0 <= j < kept_nodes@.len() ==> exists|k: int|
                            0 <= k < i && nodes@[k] == #[trigger] kept_nodes@[j],
                    forall|j: int|
                        0 <= j < kept_nodes@.len() ==> !dead@.contains(
                            (#[trigger] kept_nodes@[j]).0,
                        ),
                    forall|k: int|
                        0 <= k < i && !dead@.contains((#[trigger] nodes@[k]).0)
                            ==> kept_nodes@.contains(nodes@[k]),
                    unique_keys(kept_nodes@),
                decreases nodes@.len() - i,
            {
                let entry = nodes[i];
                if !contains_id(&dead, entry.0) {
                    proof {
                        assert forall|j: int| 0 <= j < kept_nodes@.len() implies kept_nodes@[j].0
                            != entry.0 by {
                            let k = choose|k: int| 0 <= k < i && nodes@[k] == kept_nodes@[j];
                        }
                    }
                    kept_nodes.push(entry);
                }
                i += 1;
            }
            proof {
                // start and goal are not dead ends, so they survive
                let ks = choose|k: int| 0 <= k < nodes@.len() && nodes@[k].0 == start;
                assert(kept_nodes@.contains(nodes@[ks]));
                let kg = choose|k: int| 0 <= k < nodes@.len() && nodes@[k].0 == goal;
                assert(kept_nodes@.contains(nodes@[kg]));
                assert(has_key(kept_nodes@, start) && has_key(kept_nodes@, goal));
                // kept edges reference kept nodes
                assert forall|j: int| 0 <= j < kept_edges@.len() implies (
                #[trigger] kept_edges@[j]).wf() && has_key(kept_nodes@, kept_edges@[j].min)
                    && has_key(kept_nodes@, kept_edges@[j].max) by {
                    let k = choose|k: int| 0 <= k < edges@.len() && edges@[k] == kept_edges@[j];
                    assert(edges@[k].wf());
                    let km = choose|m: int|
                        0 <= m < nodes@.len() && nodes@[m].0 == kept_edges@[j].min;
                    assert(kept_nodes@.contains(nodes@[km]));
                    let kx = choose|m: int|
                        0 <= m < nodes@.len() && nodes@[m].0 == kept_edges@[j].max;
                    assert(kept_nodes@.contains(nodes@[kx]));
                }
                // both remain subsets of the input graph
                assert forall|j: int| 0 <= j < kept_nodes@.len() implies self.nodes@.contains(
                    #[trigger] kept_nodes@[j],
                ) by {
                    let k = choose|k: int| 0 <= k < nodes@.len() && nodes@[k] == kept_nodes@[j];
                }
                assert forall|j: int| 0 <= j < kept_edges@.len() implies self.edges@.contains(
                    #[trigger] kept_edges@[j],
                ) by {
                    let k = choose|k: int| 0 <= k < edges@.len() && edges@[k] == kept_edges@[j];
                }
                // a dead-end-free subgraph loses nothing in this pass
                assert forall|ns: Set<NodeID>, es: Set<Edge>|
                    #[trigger] dead_end_free_subgraph(self, ns, es) implies (forall|id: NodeID|
                    ns.contains(id) ==> has_key(kept_nodes@, id)) && (forall|e: Edge|
                    es.contains(e) ==> kept_edges@.contains(e)) by {
                    assert forall|id: NodeID| ns.contains(id) implies !dead@.contains(id) by {
                        if dead@.contains(id) {
                            let dj = choose|dj: int| 0 <= dj < dead@.len() && dead@[dj] == id;
                            assert(degree_in(edges@, id) < 2 && id != start && id != goal);
                            let (e1, e2): (Edge, Edge) = choose|e1: Edge, e2: Edge|
                                #[trigger] es.contains(e1) && #[trigger] es.contains(e2) && e1
                                    != e2 && touches(e1, id) && touches(e2, id);
                            assert(edges@.contains(e1) && edges@.contains(e2));
                            lemma_two_incident_degree(edges@, e1, e2, id);
                        }
                    }
                    assert forall|id: NodeID| ns.contains(id) implies has_key(
                        kept_nodes@,
                        id,
                    ) by {
                        assert(has_key(nodes@, id));
                        let k = choose|k: int| 0 <= k < nodes@.len() && nodes@[k].0 == id;
                        assert(kept_nodes@.contains(nodes@[k]));
                    }
                    assert forall|e: Edge| es.contains(e) implies kept_edges@.contains(e) by {
                        assert(edges@.contains(e));
                        assert(ns.contains(e.min) && ns.contains(e.max));
                        assert(!dead@.contains(e.min) && !dead@.contains(e.max));
                        let k = choose|k: int| 0 <= k < edges@.len() && edges@[k] == e;
                        assert(kept_edges@.contains(edges@[k]));
                    }
                }
            }
            nodes = kept_nodes;
            edges = kept_edges;
        }
        let r = EdgeSetGraph { nodes, start, goal, edges };
        proof {
            if self.no_dead_ends() {
                assert(r == self);
            }
        }
        r
    }
}

/// Updating one entry of a unique-keyed pair list changes only that key's
/// value.
proof fn lemma_pairs_update<T>(s: Seq<(NodeID, T)>, s2: Seq<(NodeID, T)>, k: int, v: T)
    requires
        unique_keys(s),
        0 <= k < s.len(),
        s2 == s.update(k, (s[k].0, v)),
    ensures
        unique_keys(s2),
        forall|x: NodeID| has_key(s2, x) <==> has_key(s, x),
        value_of(s2, s[k].0) == v,
        forall|x: NodeID| x != s[k].0 && has_key(s, x) ==> value_of(s2, x) == value_of(s, x),
{
    assert(forall|i: int| 0 <= i < s.len() ==> s2[i].0 == s[i].0);
    assert forall|x: NodeID| has_key(s2, x) <==> has_key(s, x) by {
        if has_key(s2, x) {
            let i = choose|i: int| 0 <= i < s2.len() && s2[i].0 == x;
            assert(s[i].0 == x);
        }
        if has_key(s, x) {
            let i = choose|i: int| 0 <= i < s.len() && s[i].0 == x;
            assert(s2[i].0 == x);
        }
    }
    let id = s[k].0;
    assert(has_key(s2, id)) by {
        assert(s2[k].0 == id);
    }
    let i2 = key_index(s2, id);
    assert(0 <= i2 < s2.len() && s2[i2].0 == id);
    assert(i2 == k);
    assert forall|x: NodeID| x != id && has_key(s, x) implies value_of(s2, x) == value_of(
        s,
        x,
    ) by {
        let i = key_index(s, x);
        assert(0 <= i < s.len() && s[i].0 == x);
        let j = key_index(s2, x);
        assert(has_key(s2, x));
        assert(0 <= j < s2.len() && s2[j].0 == x);
        assert(s[j].0 == x);
        assert(j == i);
        assert(i != k);
    }
}

/// Appending a fresh key to a unique-keyed pair list keeps it unique and
/// leaves the other values alone.
proof fn lemma_pairs_push<T>(s: Seq<(NodeID, T)>, id: NodeID, v: T)
    requires
        unique_keys(s),
        !has_key(s, id),
    ensures
        unique_keys(s.push((id, v))),
        forall|x: NodeID| has_key(s.push((id, v)), x) <==> has_key(s, x) || x == id,
        value_of(s.push((id, v)), id) == v,
        forall|x: NodeID| x != id && has_key(s, x) ==> value_of(s.push((id, v)), x) == value_of(
            s,
            x,
        ),
{
    let s2 = s.push((id, v));
    assert(s2[s.len() as int] == (id, v));
    assert forall|i: int, j: int| 0 <= i < j < s2.len() implies s2[i].0 != s2[j].0 by {
        if j < s.len() {
        } else {
            assert(s2[j].0 == id);
            assert(s2[i] == s[i]);
            if s2[i].0 == id {
                assert(has_key(s, id));
            }
        }
    }
    assert forall|x: NodeID| has_key(s2, x) <==> has_key(s, x) || x == id by {
        if has_key(s2, x) {
            let i = choose|i: int| 0 <= i < s2.len() && s2[i].0 == x;
            if i < s.len() {
                assert(s[i].0 == x);
            }
        }
        if has_key(s, x) {
            let i = choose|i: int| 0 <= i < s.len() && s[i].0 == x;
            assert(s2[i].0 == x);
        }
    }
    let ik = key_index(s2, id);
    assert(0 <= ik < s2.len() && s2[ik].0 == id);
    assert(ik == s.len()) by {
        if ik < s.len() {
            assert(s[ik].0 == id);
        }
    }
    assert forall|x: NodeID| x != id && has_key(s, x) implies value_of(s2, x) == value_of(
        s,
        x,
    ) by {
        let i = key_index(s, x);
        assert(0 <= i < s.len() && s[i].0 == x);
        let j = key_index(s2, x);
        assert(has_key(s2, x));
        assert(0 <= j < s2.len() && s2[j].0 == x);
        assert(j != s.len());
        assert(s[j].0 == x);
        assert(j == i);
    }
}

/// Finds the index of the entry keyed by `id`.
fn find_key<T>(v: &Vec<(NodeID, T)>, id: NodeID) -> (k: usize)
    requires
        has_key(v@, id),
    ensures
        0 <= k < v@.len(),
        v@[k as int].0 == id,
{
    let mut i: usize = 0;
    while i < v.len()
        invariant
            has_key(v@, id),
            0 <= i <= v@.len(),
            forall|j: int| 0 <= j < i ==> v@[j].0 != id,
        decreases v@.len() - i,
    {
        if v[i].0 == id {
            return i;
        }
        i += 1;
    }
    proof {
        let w = choose|j: int| 0 <= j < v@.len() && v@[j].0 == id;
        assert(false);
    }
    0
}

/// The distance recorded for `id`: its entry's value, or the unreached
/// sentinel `i32::MAX` when there is none.
pub open spec fn dist_of(dists: Seq<(NodeID, i32)>, id: NodeID) -> int {
    if has_key(dists, id) {
        value_of(dists, id) as int
    } else {
        i32::MAX as int
    }
}

/// An adjacency graph annotated with per-node distances from the start and a
/// predecessor map for path reconstruction.
pub struct DijkstraGraph {
    pub nodes: Vec<(NodeID, Rect)>,
    pub start: NodeID,
    pub goal: NodeID,
    pub adjs: Vec<(NodeID, Vec<NodeID>)>,
    pub dists: Vec<(NodeID, i32)>,
    pub paths: Vec<(NodeID, NodeID)>,
}

impl DijkstraGraph {
    /// Structural invariant: the adjacency part is as in `AdjacencyGraph`,
    /// the distance list is keyed exactly like the node list, distances are
    /// non-negative with `i32::MAX` as the unreached sentinel, and the
    /// predecessor map has unique keys.
    pub open spec fn base_wf(self) -> bool {
        &&& unique_keys(self.nodes@)
        &&& has_key(self.nodes@, self.start)
        &&& has_key(self.nodes@, self.goal)
        &&& adj_unique_keys(self.adjs@)
        &&& (forall|id: NodeID| adj_has_key(self.adjs@, id) <==> has_key(self.nodes@, id))
        &&& (forall|u: NodeID, v: NodeID|
            #[trigger] adj_contains(self.adjs@, u, v) ==> has_key(self.nodes@, v) && u != v)
        &&& (forall|u: NodeID, v: NodeID|
            #[trigger] adj_contains(self.adjs@, u, v) ==> adj_contains(self.adjs@, v, u))
        &&& self.dists@.len() == self.nodes@.len()
        &&& (forall|i: int|
            0 <= i < self.dists@.len() ==> (#[trigger] self.dists@[i]).0 == self.nodes@[i].0)
        &&& (forall|i: int| 0 <= i < self.dists@.len() ==> 0 <= (#[trigger] self.dists@[i]).1)
        &&& (forall|i: int|
            0 <= i < self.dists@.len() ==> ((#[trigger] self.dists@[i]).1 < i32::MAX
                ==> self.dists@[i].1 <= self.nodes@.len()))
        &&& unique_keys(self.paths@)
    }

    /// The distance from the start recorded for `id`.
    pub open spec fn spec_distance(self, id: NodeID) -> int {
        dist_of(self.dists@, id)
    }

    /// The recorded predecessor of `id`, if any.
    pub open spec fn spec_predecessor(self, id: NodeID) -> Option<NodeID> {
        if has_key(self.paths@, id) {
            Some(value_of(self.paths@, id))
        } else {
            None
        }
    }

    /// What the solver guarantees of its output: the start is at distance
    /// zero; every reached node other than the start has a predecessor, one
    /// hop closer to the start along a recorded edge; the start has none; and
    /// distances are consistent across every edge, so no reached node has an
    /// unreached neighbor and adjacent distances differ by at most one.
    pub open spec fn solved_wf(self) -> bool {
        &&& self.base_wf()
        &&& self.spec_distance(self.start) == 0
        &&& !has_key(self.paths@, self.start)
        &&& (forall|v: NodeID|
            #[trigger] has_key(self.paths@, v) ==> {
                let u = value_of(self.paths@, v);
                &&& v != self.start
                &&& has_key(self.nodes@, v)
                &&& has_key(self.nodes@, u)
                &&& adj_contains(self.adjs@, u, v)
                &&& self.spec_distance(u) < i32::MAX
                &&& self.spec_distance(v) < i32::MAX
                &&& self.spec_distance(v) == self.spec_distance(u) + 1
            })
        &&& (forall|v: NodeID|
            has_key(self.nodes@, v) && v != self.start && #[trigger] self.spec_distance(v)
                < i32::MAX ==> has_key(self.paths@, v))
        &&& (forall|a: NodeID, b: NodeID|
            #[trigger] adj_contains(self.adjs@, a, b) && self.spec_distance(a) < i32::MAX
                ==> self.spec_distance(b) < i32::MAX && self.spec_distance(b)
                <= self.spec_distance(a) + 1)
    }

    /// The recorded distance of `id`, `i32::MAX` when unreached.
    pub fn distance(&self, id: NodeID) -> (d: i32)
        requires
            unique_keys(self.dists@),
            has_key(self.dists@, id),
        ensures
            d == self.spec_distance(id),
    {
        let k = find_key(&self.dists, id);
        proof {
            let j = key_index(self.dists@, id);
            assert(0 <= j < self.dists@.len() && self.dists@[j].0 == id);
            assert(j == k);
        }
        self.dists[k].1
    }

    /// The recorded distance of the goal, `i32::MAX` when no path exists.
    pub fn goal_distance(&self) -> (d: i32)
        requires
            self.base_wf(),
        ensures
            d == self.spec_distance(self.goal),
    {
        proof {
            let j = choose|j: int| 0 <= j < self.nodes@.len() && self.nodes@[j].0 == self.goal;
            assert(self.dists@[j].0 == self.goal);
        }
        self.distance(self.goal)
    }

    /// The recorded predecessor of `id`, None for the start and for
    /// unreached nodes.
    pub fn predecessor(&self, id: NodeID) -> (r: Option<NodeID>)
        requires
            unique_keys(self.paths@),
        ensures
            r == self.spec_predecessor(id),
    {
        let mut i: usize = 0;
        while i < self.paths.len()
            invariant
                unique_keys(self.paths@),
                0 <= i <= self.paths@.len(),
                forall|j: int| 0 <= j < i ==> self.paths@[j].0 != id,
            decreases self.paths@.len() - i,
        {
            if self.paths[i].0 == id {
                proof {
                    assert(has_key(self.paths@, id));
                    let j = key_index(self.paths@, id);
                    assert(0 <= j < self.paths@.len() && self.paths@[j].0 == id);
                    assert(j == i);
                }
                return Some(self.paths[i].1);
            }
            i += 1;
        }
        proof {
            if has_key(self.paths@, id) {
                let w = choose|j: int| 0 <= j < self.paths@.len() && self.paths@[j].0 == id;
                assert(false);
            }
        }
        None
    }
}

impl Graph for DijkstraGraph {
    open spec fn spec_nodes(&self) -> Seq<(NodeID, Rect)> {
        self.nodes@
    }

    open spec fn spec_start(&self) -> NodeID {
        self.start
    }

    open spec fn spec_goal(&self) -> NodeID {
        self.goal
    }

    fn start(&self) -> NodeID {
        self.start
    }

    fn goal(&self) -> NodeID {
        self.goal
    }

    fn nodes(&self) -> &Vec<(NodeID, Rect)> {
        &self.nodes
    }

    fn get_node(&self, id: NodeID) -> &Rect {
        find_node(&self.nodes, id)
    }
}

/// Records `u` as the predecessor of `v`, replacing any earlier entry.
fn paths_set(paths: &mut Vec<(NodeID, NodeID)>, v: NodeID, u: NodeID)
    requires
        unique_keys(old(paths)@),
    ensures
        unique_keys(final(paths)@),
        forall|x: NodeID| has_key(final(paths)@, x) <==> has_key(old(paths)@, x) || x == v,
        has_key(final(paths)@, v) && value_of(final(paths)@, v) == u,
        forall|x: NodeID|
            x != v && has_key(old(paths)@, x) ==> value_of(final(paths)@, x) == value_of(
                old(paths)@,
                x,
            ),
{
    let ghost orig = paths@;
    let mut i: usize = 0;
    while i < paths.len()
        invariant
            paths@ == orig,
            old(paths)@ == orig,
            unique_keys(orig),
            0 <= i <= orig.len(),
            forall|j: int| 0 <= j < i ==> orig[j].0 != v,
        decreases paths@.len() - i,
    {
        if paths[i].0 == v {
            paths.set(i, (v, u));
            proof {
                assert(paths@ == orig.update(i as int, (orig[i as int].0, u)));
                lemma_pairs_update(orig, paths@, i as int, u);
            }
            return ;
        }
        i += 1;
    }
    proof {
        if has_key(orig, v) {
            let w = choose|j: int| 0 <= j < orig.len() && orig[j].0 == v;
            assert(false);
        }
    }
    paths.push((v, u));
    proof {
        lemma_pairs_push(orig, v, u);
    }
}

impl AdjacencyGraph {
    /// A uniform-cost shortest-path search from the start over unit-weight
    /// edges. Every node keeps its payload; the result carries, for each
    /// node, its distance from the start (`i32::MAX` when unreachable from
    /// the settled region) and, for each reached node but the start, the
    /// predecessor on a shortest path, so that following predecessors from
    /// any reached node walks back to the start.
    pub fn into_dijkstra(self) -> (g: DijkstraGraph)
        requires
            self.wf(),
            self.nodes@.len() < i32::MAX,
        ensures
            g.nodes == self.nodes,
            g.adjs == self.adjs,
            g.start == self.start,
            g.goal == self.goal,
            g.solved_wf(),
    {
        let n = self.nodes.len();
        let start = self.start;
        let mut dists: Vec<(NodeID, i32)> = Vec::new();
        let mut queue = SolverQueue::with_capacity(n);
        let mut i: usize = 0;
        while i < n
            invariant
                n == self.nodes@.len(),
                start == self.start,
                self.wf(),
                0 <= i <= n,
                dists@.len() == i,
                forall|j: int| 0 <= j < i ==> (#[trigger] dists@[j]).0 == self.nodes@[j].0,
                forall|j: int|
                    0 <= j < i ==> (#[trigger] dists@[j]).1 == (if self.nodes@[j].0 == start {
                        0i32
                    } else {
                        i32::MAX
                    }),
                pq_contents(queue).dom().finite(),
                pq_contents(queue).dom().len() == i,
                forall|x: NodeID|
                    #[trigger] pq_contents(queue).dom().contains(x) <==> exists|j: int|
                        0 <= j < i && self.nodes@[j].0 == x,
                forall|x: NodeID|
                    #[trigger] pq_contents(queue).dom().contains(x) ==> pq_contents(queue)[x] == -(
                    if x == start {
                        0
                    } else {
                        i32::MAX as int
                    }),
            decreases n - i,
        {
            let id = self.nodes[i].0;
            let d: i32 = if id == start {
                0
            } else {
                i32::MAX
            };
            proof {
                if pq_contents(queue).dom().contains(id) {
                    let j = choose|j: int| 0 <= j < i && self.nodes@[j].0 == id;
                    assert(false);
                }
            }
            dists.push((id, d));
            queue.push(id, -(d as i64));
            i += 1;
        }
        let mut paths: Vec<(NodeID, NodeID)> = Vec::new();
        let ghost mut nsettled: int = 0;
        let ghost mut dcur: int = 0;
        proof {
            assert forall|x: NodeID| #[trigger]
                pq_contents(queue).dom().contains(x) implies has_key(dists@, x) && pq_contents(
                queue,
            )[x] == -dist_of(dists@, x) by {
                let j = choose|j: int| 0 <= j < n && self.nodes@[j].0 == x;
                assert(dists@[j].0 == x);
                let k = key_index(dists@, x);
                assert(0 <= k < dists@.len() && dists@[k].0 == x);
                assert(unique_keys(dists@));
                assert(k == j);
            }
            assert forall|x: NodeID| has_key(self.nodes@, x) implies #[trigger] pq_contents(
                queue,
            ).dom().contains(x) by {
                let j = choose|j: int| 0 <= j < n && self.nodes@[j].0 == x;
            }
            assert(has_key(dists@, start)) by {
                let j = choose|j: int| 0 <= j < n && self.nodes@[j].0 == start;
                assert(dists@[j].0 == start);
            }
            assert(dist_of(dists@, start) == 0) by {
                let j = choose|j: int| 0 <= j < n && self.nodes@[j].0 == start;
                assert(dists@[j].0 == start && dists@[j].1 == 0i32);
                let k = key_index(dists@, start);
                assert(0 <= k < dists@.len() && dists@[k].0 == start);
                assert(k == j);
            }
        }
        loop
            invariant
                n == self.nodes@.len(),
                start == self.start,
                self.wf(),
                n < i32::MAX,
                dists@.len() == n,
                forall|j: int| 0 <= j < n ==> (#[trigger] dists@[j]).0 == self.nodes@[j].0,
                unique_keys(dists@),
                forall|j: int| 0 <= j < n ==> 0 <= (#[trigger] dists@[j]).1,
                forall|j: int|
                    0 <= j < n ==> ((#[trigger] dists@[j]).1 < i32::MAX ==> dists@[j].1
                        <= nsettled),
                dist_of(dists@, start) == 0,
                pq_contents(queue).dom().finite(),
                0 <= nsettled,
                nsettled + pq_contents(queue).dom().len() == n,
                forall|x: NodeID|
                    #[trigger] pq_contents(queue).dom().contains(x) ==> has_key(self.nodes@, x),
                forall|x: NodeID|
                    #[trigger] pq_contents(queue).dom().contains(x) ==> pq_contents(queue)[x]
                        == -dist_of(dists@, x),
                0 <= dcur,
                forall|v: NodeID|
                    has_key(self.nodes@, v) && !(#[trigger] pq_contents(queue).dom().contains(v))
                        ==> dist_of(dists@, v) <= dcur,
                forall|w: NodeID|
                    #[trigger] pq_contents(queue).dom().contains(w) ==> dcur <= dist_of(dists@, w),
                unique_keys(paths@),
                !has_key(paths@, start),
                forall|v: NodeID|
                    #[trigger] has_key(paths@, v) ==> {
                        let u = value_of(paths@, v);
                        &&& v != start
                        &&& has_key(self.nodes@, v)
                        &&& has_key(self.nodes@, u)
                        &&& adj_contains(self.adjs@, u, v)
                        &&& !pq_contents(queue).dom().contains(u)
                        &&& dist_of(dists@, u) < i32::MAX
                        &&& dist_of(dists@, v) < i32::MAX
                        &&& dist_of(dists@, v) == dist_of(dists@, u) + 1
                    },
                forall|v: NodeID|
                    has_key(self.nodes@, v) && v != start && #[trigger] dist_of(dists@, v)
                        < i32::MAX ==> has_key(paths@, v),
                forall|a: NodeID, b: NodeID|
                    #[trigger] adj_contains(self.adjs@, a, b) && !pq_contents(
                        queue,
                    ).dom().contains(a) && dist_of(dists@, a) < i32::MAX ==> dist_of(dists@, b)
                        < i32::MAX && dist_of(dists@, b) <= dist_of(dists@, a) + 1,
            ensures
                pq_contents(queue).dom() == Set::<NodeID>::empty(),
                dists@.len() == n,
                forall|j: int| 0 <= j < n ==> (#[trigger] dists@[j]).0 == self.nodes@[j].0,
                unique_keys(dists@),
                forall|j: int| 0 <= j < n ==> 0 <= (#[trigger] dists@[j]).1,
                forall|j: int|
                    0 <= j < n ==> ((#[trigger] dists@[j]).1 < i32::MAX ==> dists@[j].1 <= n),
                dist_of(dists@, start) == 0,
                unique_keys(paths@),
                !has_key(paths@, start),
                forall|v: NodeID|
                    #[trigger] has_key(paths@, v) ==> {
                        let u = value_of(paths@, v);
                        &&& v != start
                        &&& has_key(self.nodes@, v)
                        &&& has_key(self.nodes@, u)
                        &&& adj_contains(self.adjs@, u, v)
                        &&& dist_of(dists@, u) < i32::MAX
                        &&& dist_of(dists@, v) < i32::MAX
                        &&& dist_of(dists@, v) == dist_of(dists@, u) + 1
                    },
                forall|v: NodeID|
                    has_key(self.nodes@, v) && v != start && #[trigger] dist_of(dists@, v)
                        < i32::MAX ==> has_key(paths@, v),
                forall|a: NodeID, b: NodeID|
                    #[trigger] adj_contains(self.adjs@, a, b) && dist_of(dists@, a) < i32::MAX
                        ==> dist_of(dists@, b) < i32::MAX && dist_of(dists@, b) <= dist_of(
                        dists@,
                        a,
                    ) + 1,
            decreases pq_contents(queue).dom().len(),
        {
            let ghost c0 = pq_contents(queue);
            let popped = queue.pop();
            match popped {
                None => {
                    proof {
                        if c0 != pq_empty() {
                            assert(false);
                        }
                        assert(c0.dom() =~= Set::<NodeID>::empty());
                        assert forall|a: NodeID, b: NodeID| #[trigger]
                            adj_contains(self.adjs@, a, b) && dist_of(dists@, a)
                                < i32::MAX implies dist_of(dists@, b) < i32::MAX && dist_of(
                            dists@,
                            b,
                        ) <= dist_of(dists@, a) + 1 by {
                            assert(!c0.dom().contains(a));
                        }
                        assert forall|j: int|
                            0 <= j < n && (#[trigger] dists@[j]).1 < i32::MAX implies dists@[j].1
                            <= n by {
                            assert(c0.dom().len() == 0);
                        }
                    }
                    break ;
                },
                Some(pair) => {
                    let u = pair.0;
                    proof {
                        if c0 == pq_empty() {
                            assert(c0.dom() =~= Set::<NodeID>::empty());
                            assert(false);
                        }
                        assert(c0.dom().contains(u));
                        assert(pq_contents(queue) == c0.remove(u));
                        assert(pq_contents(queue).dom() =~= c0.dom().remove(u));
                        nsettled = nsettled + 1;
                        dcur = dist_of(dists@, u);
                        // the popped node carries the least distance in the queue
                        assert forall|w: NodeID| #[trigger]
                            pq_contents(queue).dom().contains(w) implies dcur <= dist_of(
                            dists@,
                            w,
                        ) by {
                            assert(c0.dom().contains(w));
                            assert(c0[w] <= c0[u]);
                        }
                    }
                    proof {
                        assert(has_key(dists@, u)) by {
                            let j = choose|j: int|
                                0 <= j < self.nodes@.len() && self.nodes@[j].0 == u;
                            assert(dists@[j].0 == u);
                        }
                    }
                    let ku = find_key(&dists, u);
                    proof {
                        let j = key_index(dists@, u);
                        assert(0 <= j < dists@.len() && dists@[j].0 == u);
                        assert(j == ku);
                    }
                    let du = dists[ku].1;
                    if du < i32::MAX {
                        let ghost settled_at = pq_contents(queue);
                        let nbrs = self.neighbors(u);
                        proof {
                            assert(has_key(self.nodes@, u));
                            assert(adj_has_key(self.adjs@, u));
                        }
                        let mut j: usize = 0;
                        while j < nbrs.len()
                            invariant
                                n == self.nodes@.len(),
                                start == self.start,
                                self.wf(),
                                n < i32::MAX,
                                dists@.len() == n,
                                forall|jj: int|
                                    0 <= jj < n ==> (#[trigger] dists@[jj]).0
                                        == self.nodes@[jj].0,
                                unique_keys(dists@),
                                forall|jj: int| 0 <= jj < n ==> 0 <= (#[trigger] dists@[jj]).1,
                                forall|jj: int|
                                    0 <= jj < n ==> ((#[trigger] dists@[jj]).1 < i32::MAX
                                        ==> dists@[jj].1 <= nsettled),
                                dist_of(dists@, start) == 0,
                                pq_contents(queue).dom().finite(),
                                1 <= nsettled,
                                nsettled + pq_contents(queue).dom().len() == n,
                                forall|x: NodeID|
                                    #[trigger] pq_contents(queue).dom().contains(x) ==> has_key(
                                        self.nodes@,
                                        x,
                                    ),
                                forall|x: NodeID|
                                    #[trigger] pq_contents(queue).dom().contains(x)
                                        ==> pq_contents(queue)[x] == -dist_of(dists@, x),
                                0 <= dcur,
                                forall|v: NodeID|
                                    has_key(self.nodes@, v) && !(#[trigger] pq_contents(
                                        queue,
                                    ).dom().contains(v)) ==> dist_of(dists@, v) <= dcur,
                                forall|w: NodeID|
                                    #[trigger] pq_contents(queue).dom().contains(w) ==> dcur
                                        <= dist_of(dists@, w),
                                unique_keys(paths@),
                                !has_key(paths@, start),
                                forall|v: NodeID|
                                    #[trigger] has_key(paths@, v) ==> {
                                        let w = value_of(paths@, v);
                                        &&& v != start
                                        &&& has_key(self.nodes@, v)
                                        &&& has_key(self.nodes@, w)
                                        &&& adj_contains(self.adjs@, w, v)
                                        &&& !pq_contents(queue).dom().contains(w)
                                        &&& dist_of(dists@, w) < i32::MAX
                                        &&& dist_of(dists@, v) < i32::MAX
                                        &&& dist_of(dists@, v) == dist_of(dists@, w) + 1
                                    },
                                forall|v: NodeID|
                                    has_key(self.nodes@, v) && v != start && #[trigger] dist_of(
                                        dists@,
                                        v,
                                    ) < i32::MAX ==> has_key(paths@, v),
                                forall|a: NodeID, b: NodeID|
                                    #[trigger] adj_contains(self.adjs@, a, b) && !pq_contents(
                                        queue,
                                    ).dom().contains(a) && a != u && dist_of(dists@, a) < i32::MAX
                                        ==> dist_of(dists@, b) < i32::MAX && dist_of(dists@, b)
                                        <= dist_of(dists@, a) + 1,
                                // facts about the node being relaxed
                                0 <= j <= nbrs@.len(),
                                has_key(self.nodes@, u),
                                !pq_contents(queue).dom().contains(u),
                                du == dist_of(dists@, u),
                                0 <= du < i32::MAX,
                                du == dcur,
                                du + 1 <= nsettled,
                                forall|v: NodeID|
                                    nbrs@.contains(v) <==> adj_contains(self.adjs@, u, v),
                                forall|k: int|
                                    0 <= k < j ==> dist_of(dists@, #[trigger] nbrs@[k]) < i32::MAX
                                        && dist_of(dists@, nbrs@[k]) <= du + 1,
                            decreases nbrs@.len() - j,
                        {
                            let v = nbrs[j];
                            proof {
                                assert(nbrs@.contains(v));
                                assert(adj_contains(self.adjs@, u, v));
                                assert(has_key(self.nodes@, v));
                                assert(has_key(dists@, v)) by {
                                    let w = choose|w: int|
                                        0 <= w < self.nodes@.len() && self.nodes@[w].0 == v;
                                    assert(dists@[w].0 == v);
                                }
                            }
                            let kv = find_key(&dists, v);
                            proof {
                                let w = key_index(dists@, v);
                                assert(0 <= w < dists@.len() && dists@[w].0 == v);
                                assert(w == kv);
                            }
                            let newd = du + 1;
                            if newd < dists[kv].1 {
                                proof {
                                    // the improved node is still queued: a settled node
                                    // already sits at most at the frontier distance
                                    if !pq_contents(queue).dom().contains(v) {
                                        assert(dist_of(dists@, v) <= dcur);
                                        assert(false);
                                    }
                                    // so it is not the start
                                    if v == start {
                                        assert(dist_of(dists@, v) == 0);
                                        assert(false);
                                    }
                                }
                                let ghost dists0 = dists@;
                                dists.set(kv, (v, newd));
                                proof {
                                    assert(dists@ == dists0.update(kv as int, (v, newd)));
                                    lemma_pairs_update(dists0, dists@, kv as int, newd);
                                    assert(dist_of(dists@, v) == newd);
                                    assert forall|x: NodeID| x != v implies dist_of(dists@, x)
                                        == dist_of(dists0, x) by {
                                        if has_key(dists0, x) {
                                        } else {
                                        }
                                    }
                                }
                                paths_set(&mut paths, v, u);
                                let ghost q0 = pq_contents(queue);
                                let _ = queue.change_priority(v, -(newd as i64));
                                proof {
                                    assert(pq_contents(queue).dom() =~= q0.dom());
                                    assert forall|x: NodeID|
                                        has_key(self.nodes@, x) && x != start && #[trigger] dist_of(
                                            dists@,
                                            x,
                                        ) < i32::MAX implies has_key(paths@, x) by {
                                        if x != v {
                                            assert(dist_of(dists@, x) == dist_of(dists0, x));
                                        }
                                    }
                                }
                            } else {
                            }
                            proof {
                                assert(dist_of(dists@, v) <= du + 1 && dist_of(dists@, v)
                                    < i32::MAX);
                            }
                            j += 1;
                        }
                        proof {
                            // every neighbor of the settled node is now consistent
                            assert forall|a: NodeID, b: NodeID|
                                #[trigger] adj_contains(self.adjs@, a, b) && !pq_contents(
                                    queue,
                                ).dom().contains(a) && dist_of(dists@, a)
                                < i32::MAX implies dist_of(dists@, b) < i32::MAX && dist_of(
                                dists@,
                                b,
                            ) <= dist_of(dists@, a) + 1 by {
                                if a == u {
                                    assert(nbrs@.contains(b));
                                    let k = choose|k: int|
                                        0 <= k < nbrs@.len() && nbrs@[k] == b;
                                }
                            }
                        }
                    } else {
                        proof {
                            // an unreached node is settled with the sentinel; every
                            // remaining queued node is unreached as well
                            assert(dcur == i32::MAX);
                        }
                    }
                },
            }
        }
        proof {
            assert(pq_contents(queue).dom().len() == 0);
        }
        DijkstraGraph {
            nodes: self.nodes,
            start: self.start,
            goal: self.goal,
            adjs: self.adjs,
            dists,
            paths,
        }
    }
}

/// An edge-path of the solved graph: it begins at the start node and each
/// consecutive pair is adjacent.
pub open spec fn is_path(g: DijkstraGraph, p: Seq<NodeID>) -> bool {
    &&& p.len() >= 1
    &&& p[0] == g.start
    &&& forall|i: int| 0 <= i < p.len() - 1 ==> adj_contains(g.adjs@, #[trigger] p[i], p[i + 1])
}

/// No path from the start is shorter than the recorded distance: a solved
/// graph's distance to the last node of any path is at most the number of
/// that path's edges.
pub proof fn lemma_distance_minimal(g: DijkstraGraph, p: Seq<NodeID>)
    requires
        g.solved_wf(),
        is_path(g, p),
    ensures
        g.spec_distance(p.last()) <= p.len() - 1,
    decreases p.len(),
{
    if p.len() == 1 {
        assert(p.last() == g.start);
    } else {
        let q = p.drop_last();
        assert(is_path(g, q)) by {
            assert(forall|i: int| 0 <= i < q.len() - 1 ==> #[trigger] q[i] == p[i] && q[i + 1] == p[i + 1]);
        }
        lemma_distance_minimal(g, q);
        let a = p[p.len() - 2];
        let b = p.last();
        assert(q.last() == a);
        assert(adj_contains(g.adjs@, a, b));
        if g.spec_distance(a) < i32::MAX {
            assert(g.spec_distance(b) <= g.spec_distance(a) + 1);
        } else {
            assert(g.spec_distance(b) <= i32::MAX <= p.len() - 1);
        }
    }
}

/// Every recorded finite distance is achieved: some path from the start
/// reaches the node in exactly that many edges (follow the predecessors).
pub proof fn lemma_distance_achievable(g: DijkstraGraph, v: NodeID)
    requires
        g.solved_wf(),
        has_key(g.nodes@, v),
        g.spec_distance(v) < i32::MAX,
    ensures
        exists|p: Seq<NodeID>|
            is_path(g, p) && p.last() == v && p.len() == #[trigger] p.len() && p.len()
                == g.spec_distance(v) + 1,
    decreases g.spec_distance(v),
{
    if v == g.start {
        let p = seq![g.start];
        assert(is_path(g, p) && p.last() == v && p.len() == g.spec_distance(v) + 1);
    } else {
        assert(has_key(g.paths@, v));
        let u = value_of(g.paths@, v);
        assert(g.spec_distance(u) == g.spec_distance(v) - 1);
        lemma_distance_achievable(g, u);
        let q = choose|q: Seq<NodeID>|
            is_path(g, q) && q.last() == u && q.len() == #[trigger] q.len() && q.len()
                == g.spec_distance(u) + 1;
        let p = q.push(v);
        assert(is_path(g, p)) by {
            assert(forall|i: int| 0 <= i < q.len() - 1 ==> #[trigger] p[i] == q[i] && p[i + 1] == q[i + 1]);
            assert(p[q.len() - 1] == u && p[q.len() as int] == v);
            assert(adj_contains(g.adjs@, u, v));
        }
        assert(p.last() == v && p.len() == g.spec_distance(v) + 1);
    }
}

/// Following predecessors from `v` reaches the start after exactly `n`
/// steps.
pub open spec fn pred_chain_reaches_start(g: DijkstraGraph, v: NodeID, n: nat) -> bool
    decreases n,
{
    if v == g.start {
        n == 0
    } else if n == 0 {
        false
    } else if has_key(g.paths@, v) {
        pred_chain_reaches_start(g, value_of(g.paths@, v), (n - 1) as nat)
    } else {
        false
    }
}

/// Path reconstruction: from any reached node, following the recorded
/// predecessors arrives at the start in exactly as many steps as the node's
/// recorded distance.
pub proof fn lemma_path_reconstruction(g: DijkstraGraph, v: NodeID)
    requires
        g.solved_wf(),
        has_key(g.nodes@, v),
        g.spec_distance(v) < i32::MAX,
    ensures
        pred_chain_reaches_start(g, v, g.spec_distance(v) as nat),
    decreases g.spec_distance(v),
{
    if v == g.start {
    } else {
        assert(has_key(g.paths@, v));
        let u = value_of(g.paths@, v);
        assert(g.spec_distance(u) == g.spec_distance(v) - 1);
        lemma_path_reconstruction(g, u);
    }
}

/// Path reconstruction at the goal: when the goal was reached, its
/// predecessor chain walks back to the start in exactly the goal distance.
pub proof fn lemma_goal_path_reconstruction(g: DijkstraGraph)
    requires
        g.solved_wf(),
        g.spec_distance(g.goal) < i32::MAX,
    ensures
        pred_chain_reaches_start(g, g.goal, g.spec_distance(g.goal) as nat),
{
    lemma_path_reconstruction(g, g.goal);
}

/// An unreached node really is unreachable: no path from the start ends at a
/// node whose recorded distance is the sentinel.
pub proof fn lemma_unreached_is_unreachable(g: DijkstraGraph, p: Seq<NodeID>)
    requires
        g.solved_wf(),
        is_path(g, p),
        g.spec_distance(p.last()) == i32::MAX,
    ensures
        p.len() - 1 >= i32::MAX,
{
    lemma_distance_minimal(g, p);
}

} // verus!
