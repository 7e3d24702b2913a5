//! The dependency graph of a set of skills, held in a petgraph `DiGraph`.
//!
//! Node `i` of the graph is the `i`-th skill; an edge `(a, b)` says that skill
//! `a` depends on skill `b`. The graph's contents are modelled by two names,
//! `graph_nodes` and `graph_edges`, of which the wrappers below state what
//! petgraph's methods do.
pub mod dot;
pub mod stats;

use vstd::prelude::*;
use petgraph::graph::{DiGraph, EdgeIndex, Graph, NodeIndex};
use petgraph::{Directed, Direction};
use crate::model::{Skill, SkillSet};
use crate::text::{chars_equal, chars_of, push_str, string_of};

verus! {

#[verifier::external_type_specification]
#[verifier::external_body]
#[verifier::reject_recursive_types(N)]
#[verifier::reject_recursive_types(E)]
#[verifier::reject_recursive_types(Ty)]
#[verifier::reject_recursive_types(Ix)]
pub struct ExGraph<N, E, Ty, Ix>(Graph<N, E, Ty, Ix>);

#[verifier::external_type_specification]
#[verifier::external_body]
pub struct ExDirected(Directed);

/// A skill as a node of the graph.
#[derive(Debug, Clone)]
pub struct SkillNode {
    pub name: String,
    pub description: String,
}

/// The nodes of a graph, by index: each node's (name, description).
pub uninterp spec fn graph_nodes(g: DiGraph<SkillNode, ()>) -> Seq<(Seq<char>, Seq<char>)>;

/// The edges of a graph, by index, in the order they were added: (source, target).
pub uninterp spec fn graph_edges(g: DiGraph<SkillNode, ()>) -> Seq<(nat, nat)>;

/// Which end of an edge a node is on.
#[derive(Debug, Clone, Copy, PartialEq, Eq, Structural)]
pub enum EdgeDirection {
    /// Edges leaving the node (its dependencies).
    Outgoing,
    /// Edges entering the node (the skills that depend on it).
    Incoming,
}

/// The neighbors of node `n` across its edges in direction `dir`, the most
/// recently added edge first.
pub open spec fn neighbors_spec(edges: Seq<(nat, nat)>, n: nat, dir: EdgeDirection) -> Seq<nat>
    decreases edges.len(),
{
    if edges.len() == 0 {
        seq![]
    } else {
        let e = edges.last();
        let rest = neighbors_spec(edges.drop_last(), n, dir);
        match dir {
            EdgeDirection::Outgoing => if e.0 == n {
                seq![e.1] + rest
            } else {
                rest
            },
            EdgeDirection::Incoming => if e.1 == n {
                seq![e.0] + rest
            } else {
                rest
            },
        }
    }
}

/// There is an edge from `a` to `b`.
pub open spec fn has_edge(edges: Seq<(nat, nat)>, a: nat, b: nat) -> bool {
    exists|k: int| 0 <= k < edges.len() && edges[k] == (a, b)
}

/// `p` is a non-empty sequence of nodes, each joined to the next by an edge.
pub open spec fn is_walk(edges: Seq<(nat, nat)>, p: Seq<nat>) -> bool {
    &&& p.len() > 0
    &&& forall|i: int| 0 <= i < p.len() - 1 ==> has_edge(edges, #[trigger] p[i], p[i + 1])
}

/// `b` can be reached from `a` by following edges (every node reaches itself).
pub open spec fn reaches(edges: Seq<(nat, nat)>, a: nat, b: nat) -> bool {
    exists|p: Seq<nat>| #[trigger] is_walk(edges, p) && p[0] == a && p.last() == b
}

/// Some node can be reached from itself through at least one edge.
pub open spec fn has_cycle(edges: Seq<(nat, nat)>) -> bool {
    exists|p: Seq<nat>| #[trigger] is_walk(edges, p) && p.len() >= 2 && p[0] == p.last()
}

/// Every edge joins two of the `n` nodes.
pub open spec fn edges_within(edges: Seq<(nat, nat)>, n: nat) -> bool {
    forall|k: int| 0 <= k < edges.len() ==> (#[trigger] edges[k]).0 < n && edges[k].1 < n
}

/// What petgraph's `tarjan_scc` returns for a graph of `node_count` nodes and
/// these edges (in the order they were added): its strongly connected
/// components, each a sequence of node indices.
pub uninterp spec fn tarjan_components(node_count: nat, edges: Seq<(nat, nat)>) -> Seq<Seq<nat>>;

/// Node `v` occurs in one of the components.
pub open spec fn in_some_component(comps: Seq<Seq<nat>>, v: nat) -> bool {
    exists|i: int, j: int| 0 <= i < comps.len() && 0 <= j < comps[i].len() && #[trigger] comps[i][j] == v
}

/// The components partition the nodes `0..n`: each node occurs exactly once
/// in exactly one of them, and none is empty.
pub open spec fn partitions_nodes(comps: Seq<Seq<nat>>, n: nat) -> bool {
    &&& forall|i: int| 0 <= i < comps.len() ==> (#[trigger] comps[i]).len() > 0
    &&& forall|i: int, j: int|
        0 <= i < comps.len() && 0 <= j < comps[i].len() ==> #[trigger] comps[i][j] < n
    &&& forall|v: nat| v < n ==> #[trigger] in_some_component(comps, v)
    &&& forall|i1: int, j1: int, i2: int, j2: int|
        0 <= i1 < comps.len() && 0 <= j1 < comps[i1].len() && 0 <= i2 < comps.len() && 0 <= j2
            < comps[i2].len() && #[trigger] comps[i1][j1] == #[trigger] comps[i2][j2] ==> i1 == i2
            && j1 == j2
}

/// Nodes in one component reach each other; nodes in different components do not.
pub open spec fn strongly_connected(comps: Seq<Seq<nat>>, edges: Seq<(nat, nat)>) -> bool {
    &&& forall|i: int, j1: int, j2: int|
        0 <= i < comps.len() && 0 <= j1 < comps[i].len() && 0 <= j2 < comps[i].len() ==> reaches(
            edges,
            #[trigger] comps[i][j1],
            #[trigger] comps[i][j2],
        )
    &&& forall|i1: int, j1: int, i2: int, j2: int|
        0 <= i1 < comps.len() && 0 <= j1 < comps[i1].len() && 0 <= i2 < comps.len() && 0 <= j2
            < comps[i2].len() && i1 != i2 ==> !(reaches(
            edges,
            #[trigger] comps[i1][j1],
            #[trigger] comps[i2][j2],
        ) && reaches(edges, comps[i2][j2], comps[i1][j1]))
}

pub open spec fn index_seqs(v: Seq<Vec<usize>>) -> Seq<Seq<nat>> {
    v.map_values(|c: Vec<usize>| c@.map_values(|x: usize| x as nat))
}

pub open spec fn index_seq(v: Seq<usize>) -> Seq<nat> {
    v.map_values(|x: usize| x as nat)
}

/// petgraph `DiGraph::new`: a graph with no nodes and no edges.
#[verifier::external_body]
fn new_graph() -> (g: DiGraph<SkillNode, ()>)
    ensures
        graph_nodes(g) == Seq::<(Seq<char>, Seq<char>)>::empty(),
        graph_edges(g) == Seq::<(nat, nat)>::empty(),
{
    DiGraph::new()
}

/// petgraph `Graph::add_node`: appends the node and returns its index. It
/// panics when the graph already holds `u32::MAX` nodes, which `requires` rules out.
#[verifier::external_body]
fn add_graph_node(g: &mut DiGraph<SkillNode, ()>, node: SkillNode) -> (i: usize)
    requires
        graph_nodes(*old(g)).len() < u32::MAX,
    ensures
        i == graph_nodes(*old(g)).len(),
        graph_nodes(*final(g)) == graph_nodes(*old(g)).push((node.name@, node.description@)),
        graph_edges(*final(g)) == graph_edges(*old(g)),
{
    g.add_node(node).index()
}

/// petgraph `Graph::add_edge`: appends the edge `(a, b)`. It panics when a
/// node does not exist or the graph already holds `u32::MAX` edges, which
/// `requires` rules out.
#[verifier::external_body]
fn add_graph_edge(g: &mut DiGraph<SkillNode, ()>, a: usize, b: usize)
    requires
        a < graph_nodes(*old(g)).len(),
        b < graph_nodes(*old(g)).len(),
        graph_edges(*old(g)).len() < u32::MAX,
    ensures
        graph_nodes(*final(g)) == graph_nodes(*old(g)),
        graph_edges(*final(g)) == graph_edges(*old(g)).push((a as nat, b as nat)),
{
    g.add_edge(NodeIndex::new(a), NodeIndex::new(b), ());
}

/// petgraph `Graph::node_count`.
#[verifier::external_body]
fn graph_node_count(g: &DiGraph<SkillNode, ()>) -> (n: usize)
    ensures
        n == graph_nodes(*g).len(),
{
    g.node_count()
}

/// petgraph `Graph::edge_count`.
#[verifier::external_body]
fn graph_edge_count(g: &DiGraph<SkillNode, ()>) -> (n: usize)
    ensures
        n == graph_edges(*g).len(),
{
    g.edge_count()
}

/// The name of node `i` (petgraph's `Index` impl, which panics for a missing node).
#[verifier::external_body]
fn graph_node_name(g: &DiGraph<SkillNode, ()>, i: usize) -> (s: String)
    requires
        i < graph_nodes(*g).len(),
    ensures
        s@ == graph_nodes(*g)[i as int].0,
{
    g[NodeIndex::new(i)].name.clone()
}

/// The description of node `i` (petgraph's `Index` impl).
#[verifier::external_body]
fn graph_node_description(g: &DiGraph<SkillNode, ()>, i: usize) -> (s: String)
    requires
        i < graph_nodes(*g).len(),
    ensures
        s@ == graph_nodes(*g)[i as int].1,
{
    g[NodeIndex::new(i)].description.clone()
}

/// petgraph `Graph::edge_endpoints`: the source and target of edge `e`.
#[verifier::external_body]
fn graph_edge_endpoints(g: &DiGraph<SkillNode, ()>, e: usize) -> (ends: (usize, usize))
    requires
        e < graph_edges(*g).len(),
    ensures
        (ends.0 as nat, ends.1 as nat) == graph_edges(*g)[e as int],
{
    let (a, b) = g.edge_endpoints(EdgeIndex::new(e)).unwrap();
    (a.index(), b.index())
}

/// petgraph `Graph::neighbors_directed`: for a directed graph, the other ends
/// of the node's edges in the given direction, the most recently added edge first.
#[verifier::external_body]
fn graph_neighbors_directed(g: &DiGraph<SkillNode, ()>, n: usize, dir: EdgeDirection) -> (v: Vec<usize>)
    requires
        n < graph_nodes(*g).len(),
    ensures
        index_seq(v@) == neighbors_spec(graph_edges(*g), n as nat, dir),
{
    let direction = match dir {
        EdgeDirection::Outgoing => Direction::Outgoing,
        EdgeDirection::Incoming => Direction::Incoming,
    };
    g.neighbors_directed(NodeIndex::new(n), direction).map(|x| x.index()).collect()
}

/// petgraph `Graph::edges_directed(..).count()`: the number of the node's
/// edges in the given direction.
#[verifier::external_body]
fn graph_count_edges_directed(g: &DiGraph<SkillNode, ()>, n: usize, dir: EdgeDirection) -> (c: usize)
    requires
        n < graph_nodes(*g).len(),
    ensures
        c == neighbors_spec(graph_edges(*g), n as nat, dir).len(),
{
    let direction = match dir {
        EdgeDirection::Outgoing => Direction::Outgoing,
        EdgeDirection::Incoming => Direction::Incoming,
    };
    g.edges_directed(NodeIndex::new(n), direction).count()
}

/// petgraph `algo::tarjan_scc`: the strongly connected components of the
/// graph. Its documentation promises that each element is a strongly connected
/// component; the order of the components and of the nodes within each is
/// named (`tarjan_components`), not stated. The algorithm recurses along paths,
/// so a path deep enough to exhaust the stack is not covered.
#[verifier::external_body]
fn graph_tarjan_scc(g: &DiGraph<SkillNode, ()>) -> (comps: Vec<Vec<usize>>)
    ensures
        index_seqs(comps@) == tarjan_components(graph_nodes(*g).len(), graph_edges(*g)),
        edges_within(graph_edges(*g), graph_nodes(*g).len()) ==> partitions_nodes(
            index_seqs(comps@),
            graph_nodes(*g).len(),
        ),
        edges_within(graph_edges(*g), graph_nodes(*g).len()) ==> strongly_connected(
            index_seqs(comps@),
            graph_edges(*g),
        ),
{
    petgraph::algo::tarjan_scc(g).into_iter().map(|c| c.into_iter().map(|x| x.index()).collect()).collect()
}

/// petgraph `algo::is_cyclic_directed`: whether the directed graph contains a
/// cycle (a self-loop counts). Its depth-first search recurses along paths,
/// so a path deep enough to exhaust the stack is not covered.
#[verifier::external_body]
fn graph_is_cyclic_directed(g: &DiGraph<SkillNode, ()>) -> (b: bool)
    ensures
        b == has_cycle(graph_edges(*g)),
{
    petgraph::algo::is_cyclic_directed(g)
}


/// The skill dependency graph, and one warning for each dependency that names
/// no skill.
pub struct SkillGraph {
    inner: DiGraph<SkillNode, ()>,
    warnings: Vec<String>,
}

/// A graph that petgraph can hold: fewer than `u32::MAX` nodes, and edges
/// between them.
pub open spec fn graph_wf(nodes: Seq<(Seq<char>, Seq<char>)>, edges: Seq<(nat, nat)>) -> bool {
    &&& nodes.len() < u32::MAX
    &&& edges_within(edges, nodes.len())
}

impl SkillGraph {
    /// The nodes, by index: (name, description).
    pub closed spec fn nodes(self) -> Seq<(Seq<char>, Seq<char>)> {
        graph_nodes(self.inner)
    }

    /// The edges, by index: (source, target).
    pub closed spec fn edges(self) -> Seq<(nat, nat)> {
        graph_edges(self.inner)
    }

    /// The warnings collected while the graph was built.
    pub closed spec fn warning_texts(self) -> Seq<Seq<char>> {
        self.warnings@.map_values(|s: String| s@)
    }

    /// The order of the strongly connected components that petgraph reports.
    pub closed spec fn components(self) -> Seq<Seq<nat>> {
        tarjan_components(graph_nodes(self.inner).len(), graph_edges(self.inner))
    }

    #[verifier::type_invariant]
    closed spec fn inv(self) -> bool {
        graph_wf(graph_nodes(self.inner), graph_edges(self.inner))
    }

    pub fn node_count(&self) -> (n: usize)
        ensures
            n == self.nodes().len(),
            graph_wf(self.nodes(), self.edges()),
    {
        proof {
            use_type_invariant(self);
        }
        graph_node_count(&self.inner)
    }

    pub fn edge_count(&self) -> (n: usize)
        ensures
            n == self.edges().len(),
            graph_wf(self.nodes(), self.edges()),
    {
        proof {
            use_type_invariant(self);
        }
        graph_edge_count(&self.inner)
    }

    pub fn node_name(&self, i: usize) -> (s: String)
        requires
            i < self.nodes().len(),
        ensures
            s@ == self.nodes()[i as int].0,
    {
        graph_node_name(&self.inner, i)
    }

    pub fn node_description(&self, i: usize) -> (s: String)
        requires
            i < self.nodes().len(),
        ensures
            s@ == self.nodes()[i as int].1,
    {
        graph_node_description(&self.inner, i)
    }

    pub fn edge_endpoints(&self, e: usize) -> (ends: (usize, usize))
        requires
            e < self.edges().len(),
        ensures
            (ends.0 as nat, ends.1 as nat) == self.edges()[e as int],
            ends.0 < self.nodes().len(),
            ends.1 < self.nodes().len(),
    {
        proof {
            use_type_invariant(self);
        }
        graph_edge_endpoints(&self.inner, e)
    }

    /// The neighbors of node `i` in direction `dir`, the most recently added edge first.
    pub fn neighbors(&self, i: usize, dir: EdgeDirection) -> (v: Vec<usize>)
        requires
            i < self.nodes().len(),
        ensures
            index_seq(v@) == neighbors_spec(self.edges(), i as nat, dir),
    {
        graph_neighbors_directed(&self.inner, i, dir)
    }

    /// The number of edges of node `i` in direction `dir`.
    pub fn degree(&self, i: usize, dir: EdgeDirection) -> (c: usize)
        requires
            i < self.nodes().len(),
        ensures
            c == neighbors_spec(self.edges(), i as nat, dir).len(),
    {
        graph_count_edges_directed(&self.inner, i, dir)
    }

    pub fn warnings(&self) -> (w: &Vec<String>)
        ensures
            w@.map_values(|s: String| s@) == self.warning_texts(),
    {
        &self.warnings
    }

    /// The strongly connected components (petgraph `tarjan_scc`).
    pub fn strongly_connected_components(&self) -> (comps: Vec<Vec<usize>>)
        ensures
            index_seqs(comps@) == self.components(),
            partitions_nodes(self.components(), self.nodes().len()),
            strongly_connected(self.components(), self.edges()),
    {
        proof {
            use_type_invariant(self);
        }
        graph_tarjan_scc(&self.inner)
    }

    /// Whether some skill depends on itself, directly or through others.
    pub fn is_cyclic(&self) -> (b: bool)
        ensures
            b == has_cycle(self.edges()),
    {
        graph_is_cyclic_directed(&self.inner)
    }

    /// The index of the skill named `name`; when several skills share the
    /// name, the last of them.
    pub fn node_index(&self, name: &str) -> (r: Option<usize>)
        ensures
            r is Some <==> last_index_of(node_names(self.nodes()), name@) is Some,
            r is Some ==> r.unwrap() as nat == last_index_of(node_names(self.nodes()), name@).unwrap(),
    {
        let n = self.node_count();
        let mut i = n;
        let ghost names = node_names(self.nodes());
        let target = chars_of(name);
        assert(names.take(n as int) =~= names);
        while i > 0
            invariant
                i <= n,
                n == self.nodes().len(),
                names == node_names(self.nodes()),
                target@ == name@,
                last_index_of(names, name@) == last_index_of(names.take(i as int), name@),
            decreases i,
        {
            let candidate = self.node_name(i - 1);
            let cs = chars_of(candidate.as_str());
            let ghost prefix = names.take(i as int);
            assert(prefix.drop_last() =~= names.take(i - 1));
            assert(names[i - 1] == self.nodes()[i - 1].0);
            assert(prefix.last() == candidate@);
            if chars_equal(cs.as_slice(), target.as_slice()) {
                assert(last_index_of(prefix, name@) == Some((i - 1) as nat));
                return Some(i - 1);
            }
            i = i - 1;
        }
        None
    }

    /// Whether some skill is named `name`.
    pub fn contains_skill(&self, name: &str) -> (b: bool)
        ensures
            b == node_names(self.nodes()).contains(name@),
    {
        let r = self.node_index(name);
        proof {
            lemma_last_index_of(node_names(self.nodes()), name@);
        }
        r.is_some()
    }

    /// Whether skill `a` depends directly on skill `b`.
    pub fn contains_edge(&self, a: usize, b: usize) -> (r: bool)
        requires
            a < self.nodes().len(),
        ensures
            r == has_edge(self.edges(), a as nat, b as nat),
    {
        let v = self.neighbors(a, EdgeDirection::Outgoing);
        let n = v.len();
        let mut k: usize = 0;
        proof {
            lemma_neighbors_spec(self.edges(), a as nat, EdgeDirection::Outgoing);
        }
        while k < n
            invariant
                n == v@.len(),
                k <= n,
                index_seq(v@) == neighbors_spec(self.edges(), a as nat, EdgeDirection::Outgoing),
                forall|j: int| 0 <= j < k ==> v@[j] != b,
            decreases n - k,
        {
            if v[k] == b {
                assert(index_seq(v@)[k as int] == b);
                assert(index_seq(v@).contains(b as nat));
                proof {
                    lemma_neighbors_spec(self.edges(), a as nat, EdgeDirection::Outgoing);
                }
                return true;
            }
            k = k + 1;
        }
        proof {
            assert forall|x: nat| index_seq(v@).contains(x) implies x != b by {
                let j = choose|j: int| 0 <= j < index_seq(v@).len() && index_seq(v@)[j] == x;
                assert(v@[j] != b);
            }
            assert(!index_seq(v@).contains(b as nat));
            lemma_neighbors_spec(self.edges(), a as nat, EdgeDirection::Outgoing);
        }
        false
    }
}

/// The names of the nodes, by index.
pub open spec fn node_names(nodes: Seq<(Seq<char>, Seq<char>)>) -> Seq<Seq<char>> {
    nodes.map_values(|p: (Seq<char>, Seq<char>)| p.0)
}

/// The largest index at which `name` occurs in `names`.
pub open spec fn last_index_of(names: Seq<Seq<char>>, name: Seq<char>) -> Option<nat>
    decreases names.len(),
{
    if names.len() == 0 {
        None
    } else if names.last() == name {
        Some((names.len() - 1) as nat)
    } else {
        last_index_of(names.drop_last(), name)
    }
}

pub proof fn lemma_last_index_of(names: Seq<Seq<char>>, name: Seq<char>)
    ensures
        match last_index_of(names, name) {
            Some(k) => k < names.len() && names[k as int] == name && forall|j: int|
                k < j < names.len() ==> names[j] != name,
            None => !names.contains(name),
        },
    decreases names.len(),
{
    if names.len() > 0 && names.last() != name {
        lemma_last_index_of(names.drop_last(), name);
        if let Some(k) = last_index_of(names, name) {
            assert(names.drop_last()[k as int] == names[k as int]);
            assert forall|j: int| k < j < names.len() implies names[j] != name by {
                if j < names.len() - 1 {
                    assert(names.drop_last()[j] == names[j]);
                }
            }
        }
        if last_index_of(names, name) is None {
            assert forall|j: int| 0 <= j < names.len() implies names[j] != name by {
                if j < names.len() - 1 {
                    assert(names.drop_last()[j] == names[j]);
                }
            }
        }
    }
}

/// An edge with a given source and target is in the edges exactly when the
/// target occurs among the source's neighbors.
pub proof fn lemma_neighbors_spec(edges: Seq<(nat, nat)>, n: nat, dir: EdgeDirection)
    ensures
        forall|x: nat|
            dir is Outgoing ==> (#[trigger] neighbors_spec(edges, n, dir).contains(x) <==> has_edge(edges, n, x)),
        forall|x: nat|
            dir is Incoming ==> (#[trigger] neighbors_spec(edges, n, dir).contains(x) <==> has_edge(edges, x, n)),
        forall|i: int|
            0 <= i < neighbors_spec(edges, n, dir).len() ==> match dir {
                EdgeDirection::Outgoing => has_edge(edges, n, #[trigger] neighbors_spec(edges, n, dir)[i]),
                EdgeDirection::Incoming => has_edge(edges, neighbors_spec(edges, n, dir)[i], n),
            },
    decreases edges.len(),
{
    if edges.len() > 0 {
        let rest = edges.drop_last();
        lemma_neighbors_spec(rest, n, dir);
        let e = edges.last();
        assert forall|a: nat, b: nat| has_edge(rest, a, b) implies has_edge(edges, a, b) by {
            let k = choose|k: int| 0 <= k < rest.len() && rest[k] == (a, b);
            assert(edges[k] == (a, b));
        }
        assert forall|a: nat, b: nat| has_edge(edges, a, b) && (a, b) != e implies has_edge(rest, a, b) by {
            let k = choose|k: int| 0 <= k < edges.len() && edges[k] == (a, b);
            assert(k != edges.len() - 1);
            assert(rest[k] == (a, b));
        }
        assert(has_edge(edges, e.0, e.1)) by {
            assert(edges[edges.len() - 1] == e);
        }
        let s = neighbors_spec(edges, n, dir);
        let r = neighbors_spec(rest, n, dir);
        assert forall|x: nat| s.contains(x) <==> match dir {
            EdgeDirection::Outgoing => has_edge(edges, n, x),
            EdgeDirection::Incoming => has_edge(edges, x, n),
        } by {
            match dir {
                EdgeDirection::Outgoing => {
                    if e.0 == n {
                        assert(s == seq![e.1] + r);
                        if s.contains(x) && x != e.1 {
                            let j = choose|j: int| 0 <= j < s.len() && s[j] == x;
                            assert(r[j - 1] == x);
                        }
                        if r.contains(x) {
                            let j = choose|j: int| 0 <= j < r.len() && r[j] == x;
                            assert(s[j + 1] == x);
                        }
                        if x == e.1 {
                            assert(s[0] == x);
                        }
                    }
                },
                EdgeDirection::Incoming => {
                    if e.1 == n {
                        assert(s == seq![e.0] + r);
                        if s.contains(x) && x != e.0 {
                            let j = choose|j: int| 0 <= j < s.len() && s[j] == x;
                            assert(r[j - 1] == x);
                        }
                        if r.contains(x) {
                            let j = choose|j: int| 0 <= j < r.len() && r[j] == x;
                            assert(s[j + 1] == x);
                        }
                        if x == e.0 {
                            assert(s[0] == x);
                        }
                    }
                },
            }
        }
        assert forall|i: int| 0 <= i < s.len() implies match dir {
            EdgeDirection::Outgoing => has_edge(edges, n, #[trigger] s[i]),
            EdgeDirection::Incoming => has_edge(edges, s[i], n),
        } by {
            assert(s.contains(s[i]));
        }
    }
}


/// The nodes that a set of skills gives: (name, description) of each, in order.
pub open spec fn skill_nodes(skills: Seq<Skill>) -> Seq<(Seq<char>, Seq<char>)> {
    skills.map_values(|s: Skill| (s.name@, s.description@))
}

pub open spec fn skill_names(skills: Seq<Skill>) -> Seq<Seq<char>> {
    skills.map_values(|s: Skill| s.name@)
}

pub open spec fn dependency_names(s: Skill) -> Seq<Seq<char>> {
    s.dependencies@.map_values(|d: String| d@)
}

/// The warning for a dependency that names no skill.
pub open spec fn missing_dependency_message(skill: Seq<char>, dependency: Seq<char>) -> Seq<char> {
    skill + ": dependency \""@ + dependency + "\" not found in scanned skills"@
}

/// The node that stands for the skill named `name`: the last one of that name.
pub open spec fn node_for(names: Seq<Seq<char>>, name: Seq<char>) -> nat {
    match last_index_of(names, name) {
        Some(k) => k,
        None => 0,
    }
}

/// The edges from `source` to the nodes its dependencies name, in the order of
/// the dependencies; a dependency that names no skill gives none.
pub open spec fn dependency_edges(names: Seq<Seq<char>>, source: nat, deps: Seq<Seq<char>>) -> Seq<(nat, nat)>
    decreases deps.len(),
{
    if deps.len() == 0 {
        seq![]
    } else {
        let rest = dependency_edges(names, source, deps.drop_last());
        match last_index_of(names, deps.last()) {
            Some(t) => rest.push((source, t)),
            None => rest,
        }
    }
}

/// One warning for each dependency of `skill` that names no skill, in order.
pub open spec fn dependency_warnings(names: Seq<Seq<char>>, skill: Seq<char>, deps: Seq<Seq<char>>) -> Seq<Seq<char>>
    decreases deps.len(),
{
    if deps.len() == 0 {
        seq![]
    } else {
        let rest = dependency_warnings(names, skill, deps.drop_last());
        match last_index_of(names, deps.last()) {
            Some(_) => rest,
            None => rest.push(missing_dependency_message(skill, deps.last())),
        }
    }
}

/// The edges of the skills `skills`, skill by skill, with nodes named by `names`.
pub open spec fn edges_of_skills(names: Seq<Seq<char>>, skills: Seq<Skill>) -> Seq<(nat, nat)>
    decreases skills.len(),
{
    if skills.len() == 0 {
        seq![]
    } else {
        edges_of_skills(names, skills.drop_last()) + dependency_edges(
            names,
            node_for(names, skills.last().name@),
            dependency_names(skills.last()),
        )
    }
}

pub open spec fn warnings_of_skills(names: Seq<Seq<char>>, skills: Seq<Skill>) -> Seq<Seq<char>>
    decreases skills.len(),
{
    if skills.len() == 0 {
        seq![]
    } else {
        warnings_of_skills(names, skills.drop_last()) + dependency_warnings(
            names,
            skills.last().name@,
            dependency_names(skills.last()),
        )
    }
}

/// The edges of the graph of a set of skills: for each skill in order, and each
/// of its dependencies in order that names a skill, an edge from the skill's
/// node to that skill's node (where names repeat, the last node of the name).
pub open spec fn expected_edges(skills: Seq<Skill>) -> Seq<(nat, nat)> {
    edges_of_skills(skill_names(skills), skills)
}

/// The warnings of the graph of a set of skills: one for each dependency that
/// names no skill, in the same order.
pub open spec fn expected_warnings(skills: Seq<Skill>) -> Seq<Seq<char>> {
    warnings_of_skills(skill_names(skills), skills)
}

pub proof fn lemma_dependency_edges_prefix(names: Seq<Seq<char>>, source: nat, deps: Seq<Seq<char>>, j: int)
    requires
        0 <= j <= deps.len(),
    ensures
        dependency_edges(names, source, deps.take(j)).len() <= dependency_edges(names, source, deps).len(),
    decreases deps.len() - j,
{
    if j < deps.len() {
        lemma_dependency_edges_prefix(names, source, deps.drop_last(), j);
        assert(deps.drop_last().take(j) =~= deps.take(j));
    } else {
        assert(deps.take(j) =~= deps);
    }
}

pub proof fn lemma_edges_of_skills_prefix(names: Seq<Seq<char>>, skills: Seq<Skill>, i: int)
    requires
        0 <= i <= skills.len(),
    ensures
        edges_of_skills(names, skills.take(i)).len() <= edges_of_skills(names, skills).len(),
    decreases skills.len() - i,
{
    if i < skills.len() {
        lemma_edges_of_skills_prefix(names, skills.drop_last(), i);
        assert(skills.drop_last().take(i) =~= skills.take(i));
    } else {
        assert(skills.take(i) =~= skills);
    }
}

/// Dependency `j` of `deps` names a skill.
pub open spec fn names_a_skill(names: Seq<Seq<char>>, deps: Seq<Seq<char>>, j: int) -> bool {
    last_index_of(names, deps[j]) is Some
}

/// The edge from `source` to the skill that dependency `j` of `deps` names.
pub open spec fn edge_to(names: Seq<Seq<char>>, source: nat, deps: Seq<Seq<char>>, j: int) -> (nat, nat) {
    (source, last_index_of(names, deps[j]).unwrap())
}

proof fn lemma_dependency_parts(names: Seq<Seq<char>>, source: nat, skill: Seq<char>, deps: Seq<Seq<char>>)
    ensures
        dependency_edges(names, source, deps).len() + dependency_warnings(names, skill, deps).len() == deps.len(),
        forall|k: int|
            #![trigger dependency_edges(names, source, deps)[k]]
            0 <= k < dependency_edges(names, source, deps).len() ==> exists|j: int|
                0 <= j < deps.len() && #[trigger] names_a_skill(names, deps, j) && dependency_edges(
                    names,
                    source,
                    deps,
                )[k] == edge_to(names, source, deps, j),
        forall|j: int|
            0 <= j < deps.len() && #[trigger] names_a_skill(names, deps, j) ==> dependency_edges(
                names,
                source,
                deps,
            ).contains(edge_to(names, source, deps, j)),
        forall|k: int|
            #![trigger dependency_warnings(names, skill, deps)[k]]
            0 <= k < dependency_warnings(names, skill, deps).len() ==> exists|j: int|
                0 <= j < deps.len() && !#[trigger] names_a_skill(names, deps, j) && dependency_warnings(
                    names,
                    skill,
                    deps,
                )[k] == missing_dependency_message(skill, deps[j]),
        forall|j: int|
            0 <= j < deps.len() && !#[trigger] names_a_skill(names, deps, j) ==> dependency_warnings(
                names,
                skill,
                deps,
            ).contains(missing_dependency_message(skill, deps[j])),
    decreases deps.len(),
{
    if deps.len() > 0 {
        let init = deps.drop_last();
        let l = deps.len() - 1;
        lemma_dependency_parts(names, source, skill, init);
        let de0 = dependency_edges(names, source, init);
        let dw0 = dependency_warnings(names, skill, init);
        let de = dependency_edges(names, source, deps);
        let dw = dependency_warnings(names, skill, deps);
        assert forall|j: int| 0 <= j < init.len() implies #[trigger] names_a_skill(names, deps, j) == names_a_skill(
            names,
            init,
            j,
        ) && edge_to(names, source, deps, j) == edge_to(names, source, init, j) && deps[j] == init[j] by {
            assert(init[j] == deps[j]);
        }
        if names_a_skill(names, deps, l) {
            assert(de == de0.push(edge_to(names, source, deps, l)));
            assert(dw == dw0);
        } else {
            assert(de == de0);
            assert(dw == dw0.push(missing_dependency_message(skill, deps[l])));
        }
        assert forall|k: int| #![trigger de[k]] 0 <= k < de.len() implies exists|j: int|
            0 <= j < deps.len() && #[trigger] names_a_skill(names, deps, j) && de[k] == edge_to(names, source, deps, j) by {
            if k < de0.len() {
                assert(de[k] == de0[k]);
                let j = choose|j: int|
                    0 <= j < init.len() && #[trigger] names_a_skill(names, init, j) && de0[k] == edge_to(
                        names,
                        source,
                        init,
                        j,
                    );
                assert(names_a_skill(names, deps, j));
            } else {
                assert(names_a_skill(names, deps, l));
            }
        }
        assert forall|j: int| 0 <= j < deps.len() && #[trigger] names_a_skill(names, deps, j) implies de.contains(
            edge_to(names, source, deps, j),
        ) by {
            if j < l {
                assert(names_a_skill(names, init, j));
                assert(de0.contains(edge_to(names, source, init, j)));
                let k = choose|k: int| 0 <= k < de0.len() && de0[k] == edge_to(names, source, init, j);
                assert(de[k] == de0[k]);
            } else {
                assert(de[de.len() - 1] == edge_to(names, source, deps, j));
            }
        }
        assert forall|k: int| #![trigger dw[k]] 0 <= k < dw.len() implies exists|j: int|
            0 <= j < deps.len() && !#[trigger] names_a_skill(names, deps, j) && dw[k] == missing_dependency_message(
                skill,
                deps[j],
            ) by {
            if k < dw0.len() {
                assert(dw[k] == dw0[k]);
                let j = choose|j: int|
                    0 <= j < init.len() && !#[trigger] names_a_skill(names, init, j) && dw0[k]
                        == missing_dependency_message(skill, init[j]);
                assert(!names_a_skill(names, deps, j));
                assert(deps[j] == init[j]);
                assert(dw[k] == missing_dependency_message(skill, deps[j]));
            } else {
                assert(!names_a_skill(names, deps, l));
                assert(dw[k] == missing_dependency_message(skill, deps[l]));
            }
        }
        assert forall|j: int| 0 <= j < deps.len() && !#[trigger] names_a_skill(names, deps, j) implies dw.contains(
            missing_dependency_message(skill, deps[j]),
        ) by {
            if j < l {
                assert(!names_a_skill(names, init, j));
                assert(dw0.contains(missing_dependency_message(skill, init[j])));
                let k = choose|k: int| 0 <= k < dw0.len() && dw0[k] == missing_dependency_message(skill, init[j]);
                assert(dw[k] == dw0[k]);
            } else {
                assert(dw[dw.len() - 1] == missing_dependency_message(skill, deps[j]));
            }
        }
    } else {
        assert(dependency_warnings(names, skill, deps).len() == 0);
        assert(dependency_edges(names, source, deps).len() == 0);
    }
}

/// The number of dependencies the skills list, all together.
pub open spec fn total_dependencies(skills: Seq<Skill>) -> nat
    decreases skills.len(),
{
    if skills.len() == 0 {
        0
    } else {
        total_dependencies(skills.drop_last()) + dependency_names(skills.last()).len()
    }
}

/// The graph has one node per skill, in order: node `i` holds the name and the
/// description of skill `i`.
pub proof fn lemma_skill_nodes(skills: Seq<Skill>)
    ensures
        skill_nodes(skills).len() == skills.len(),
        forall|i: int| 0 <= i < skills.len() ==> #[trigger] skill_nodes(skills)[i] == (skills[i].name@, skills[i].description@),
        skill_names(skills).len() == skills.len(),
        forall|i: int| 0 <= i < skills.len() ==> #[trigger] skill_names(skills)[i] == skills[i].name@,
{
}

/// `e` is the edge of a dependency of one of the skills that names a skill.
pub open spec fn edge_of_dependency(names: Seq<Seq<char>>, skills: Seq<Skill>, e: (nat, nat)) -> bool {
    exists|i: int, j: int|
        0 <= i < skills.len() && 0 <= j < dependency_names(skills[i]).len() && #[trigger] names_a_skill(
            names,
            dependency_names(skills[i]),
            j,
        ) && e == edge_to(names, source_of(names, skills, i), dependency_names(skills[i]), j)
}

/// `w` is the warning of a dependency of one of the skills that names no skill.
pub open spec fn warning_of_dependency(names: Seq<Seq<char>>, skills: Seq<Skill>, w: Seq<char>) -> bool {
    exists|i: int, j: int|
        0 <= i < skills.len() && 0 <= j < dependency_names(skills[i]).len() && !#[trigger] names_a_skill(
            names,
            dependency_names(skills[i]),
            j,
        ) && w == missing_dependency_message(skills[i].name@, dependency_names(skills[i])[j])
}

/// The node of skill `i` of `skills`, with nodes named by `names`.
pub open spec fn source_of(names: Seq<Seq<char>>, skills: Seq<Skill>, i: int) -> nat {
    node_for(names, skills[i].name@)
}

proof fn lemma_skill_parts(names: Seq<Seq<char>>, skills: Seq<Skill>)
    ensures
        edges_of_skills(names, skills).len() + warnings_of_skills(names, skills).len() == total_dependencies(skills),
        forall|k: int|
            0 <= k < edges_of_skills(names, skills).len() ==> edge_of_dependency(names, skills, #[trigger] edges_of_skills(names, skills)[k]),
        forall|i: int, j: int|
            0 <= i < skills.len() && 0 <= j < dependency_names(skills[i]).len() && #[trigger] names_a_skill(
                names,
                dependency_names(skills[i]),
                j,
            ) ==> edges_of_skills(names, skills).contains(
                edge_to(names, source_of(names, skills, i), dependency_names(skills[i]), j),
            ),
        forall|k: int|
            0 <= k < warnings_of_skills(names, skills).len() ==> warning_of_dependency(names, skills, #[trigger] warnings_of_skills(names, skills)[k]),
        forall|i: int, j: int|
            0 <= i < skills.len() && 0 <= j < dependency_names(skills[i]).len() && !#[trigger] names_a_skill(
                names,
                dependency_names(skills[i]),
                j,
            ) ==> warnings_of_skills(names, skills).contains(
                missing_dependency_message(skills[i].name@, dependency_names(skills[i])[j]),
            ),
    decreases skills.len(),
{
    if skills.len() > 0 {
        let init = skills.drop_last();
        let l = skills.len() - 1;
        lemma_skill_parts(names, init);
        let last = skills[l];
        assert(skills.last() == last);
        let deps = dependency_names(last);
        let src = source_of(names, skills, l);
        lemma_dependency_parts(names, src, last.name@, deps);
        let e0 = edges_of_skills(names, init);
        let w0 = warnings_of_skills(names, init);
        let de = dependency_edges(names, src, deps);
        let dw = dependency_warnings(names, last.name@, deps);
        let e = edges_of_skills(names, skills);
        let w = warnings_of_skills(names, skills);
        assert(e == e0 + de);
        assert(w == w0 + dw);
        assert forall|i: int| 0 <= i < init.len() implies #[trigger] init[i] == skills[i] && source_of(names, init, i)
            == source_of(names, skills, i) by {}
        assert forall|k: int| 0 <= k < e.len() implies edge_of_dependency(names, skills, #[trigger] e[k]) by {
            if k < e0.len() {
                assert(e[k] == e0[k]);
                let (i, j) = choose|i: int, j: int|
                    0 <= i < init.len() && 0 <= j < dependency_names(init[i]).len() && #[trigger] names_a_skill(
                        names,
                        dependency_names(init[i]),
                        j,
                    ) && e0[k] == edge_to(names, source_of(names, init, i), dependency_names(init[i]), j);
                assert(init[i] == skills[i]);
                assert(names_a_skill(names, dependency_names(skills[i]), j));
            } else {
                assert(e[k] == de[k - e0.len()]);
                let j = choose|j: int|
                    0 <= j < deps.len() && #[trigger] names_a_skill(names, deps, j) && de[k - e0.len()] == edge_to(
                        names,
                        src,
                        deps,
                        j,
                    );
                assert(names_a_skill(names, dependency_names(skills[l]), j));
            }
        }
        assert forall|i: int, j: int|
            0 <= i < skills.len() && 0 <= j < dependency_names(skills[i]).len() && #[trigger] names_a_skill(
                names,
                dependency_names(skills[i]),
                j,
            ) implies e.contains(edge_to(names, source_of(names, skills, i), dependency_names(skills[i]), j)) by {
            let x = edge_to(names, source_of(names, skills, i), dependency_names(skills[i]), j);
            if i < l {
                assert(init[i] == skills[i]);
                assert(names_a_skill(names, dependency_names(init[i]), j));
                assert(e0.contains(x));
                let k = choose|k: int| 0 <= k < e0.len() && e0[k] == x;
                assert(e[k] == e0[k]);
            } else {
                assert(names_a_skill(names, deps, j));
                assert(de.contains(x));
                let k = choose|k: int| 0 <= k < de.len() && de[k] == x;
                assert(e[k + e0.len()] == de[k]);
            }
        }
        assert forall|k: int| 0 <= k < w.len() implies warning_of_dependency(names, skills, #[trigger] w[k]) by {
            if k < w0.len() {
                assert(w[k] == w0[k]);
                let (i, j) = choose|i: int, j: int|
                    0 <= i < init.len() && 0 <= j < dependency_names(init[i]).len() && !#[trigger] names_a_skill(
                        names,
                        dependency_names(init[i]),
                        j,
                    ) && w0[k] == missing_dependency_message(init[i].name@, dependency_names(init[i])[j]);
                assert(init[i] == skills[i]);
                assert(!names_a_skill(names, dependency_names(skills[i]), j));
            } else {
                assert(w[k] == dw[k - w0.len()]);
                let j = choose|j: int|
                    0 <= j < deps.len() && !#[trigger] names_a_skill(names, deps, j) && dw[k - w0.len()]
                        == missing_dependency_message(last.name@, deps[j]);
                assert(!names_a_skill(names, dependency_names(skills[l]), j));
            }
        }
        assert forall|i: int, j: int|
            0 <= i < skills.len() && 0 <= j < dependency_names(skills[i]).len() && !#[trigger] names_a_skill(
                names,
                dependency_names(skills[i]),
                j,
            ) implies w.contains(missing_dependency_message(skills[i].name@, dependency_names(skills[i])[j])) by {
            let x = missing_dependency_message(skills[i].name@, dependency_names(skills[i])[j]);
            if i < l {
                assert(init[i] == skills[i]);
                assert(!names_a_skill(names, dependency_names(init[i]), j));
                assert(w0.contains(x));
                let k = choose|k: int| 0 <= k < w0.len() && w0[k] == x;
                assert(w[k] == w0[k]);
            } else {
                assert(!names_a_skill(names, deps, j));
                assert(dw.contains(x));
                let k = choose|k: int| 0 <= k < dw.len() && dw[k] == x;
                assert(w[k + w0.len()] == dw[k]);
            }
        }
    } else {
        assert(edges_of_skills(names, skills).len() == 0);
        assert(warnings_of_skills(names, skills).len() == 0);
    }
}

/// The graph of a set of skills accounts for every dependency: each one that
/// names a skill gives an edge from its skill's node to the named skill's
/// node, each one that names none gives the warning naming it, and nothing
/// else does. So the edges and the warnings number as many as the
/// dependencies.
pub proof fn lemma_build_graph_accounts(skills: Seq<Skill>)
    ensures
        expected_edges(skills).len() + expected_warnings(skills).len() == total_dependencies(skills),
        forall|k: int|
            0 <= k < expected_edges(skills).len() ==> edge_of_dependency(skill_names(skills), skills, #[trigger] expected_edges(skills)[k]),
        forall|i: int, j: int|
            0 <= i < skills.len() && 0 <= j < dependency_names(skills[i]).len() && #[trigger] names_a_skill(
                skill_names(skills),
                dependency_names(skills[i]),
                j,
            ) ==> expected_edges(skills).contains(
                edge_to(skill_names(skills), source_of(skill_names(skills), skills, i), dependency_names(skills[i]), j),
            ),
        forall|k: int|
            0 <= k < expected_warnings(skills).len() ==> warning_of_dependency(skill_names(skills), skills, #[trigger] expected_warnings(skills)[k]),
        forall|i: int, j: int|
            0 <= i < skills.len() && 0 <= j < dependency_names(skills[i]).len() && !#[trigger] names_a_skill(
                skill_names(skills),
                dependency_names(skills[i]),
                j,
            ) ==> expected_warnings(skills).contains(
                missing_dependency_message(skills[i].name@, dependency_names(skills[i])[j]),
            ),
{
    lemma_skill_parts(skill_names(skills), skills);
    assert(expected_edges(skills) == edges_of_skills(skill_names(skills), skills));
    assert(expected_warnings(skills) == warnings_of_skills(skill_names(skills), skills));
}

/// The index of the last skill named `name`.
fn skill_index(skills: &Vec<Skill>, name: &String) -> (r: Option<usize>)
    ensures
        r is Some <==> last_index_of(skill_names(skills@), name@) is Some,
        r is Some ==> r.unwrap() as nat == last_index_of(skill_names(skills@), name@).unwrap(),
{
    let ghost names = skill_names(skills@);
    let n = skills.len();
    let mut i = n;
    assert(names.take(n as int) =~= names);
    while i > 0
        invariant
            i <= n,
            n == skills@.len(),
            names == skill_names(skills@),
            last_index_of(names, name@) == last_index_of(names.take(i as int), name@),
        decreases i,
    {
        let ghost prefix = names.take(i as int);
        assert(prefix.drop_last() =~= names.take(i - 1));
        assert(prefix.last() == skills@[i - 1].name@);
        if skills[i - 1].name == *name {
            return Some(i - 1);
        }
        i = i - 1;
    }
    None
}

/// Builds the dependency graph of a set of skills: one node per skill, in
/// order; an edge for each dependency that names a skill (see
/// `expected_edges`); a warning for each that names none (see
/// `expected_warnings`). The bounds in `requires` are petgraph's: it panics
/// beyond them.
pub fn build_graph(skill_set: &SkillSet) -> (g: SkillGraph)
    requires
        skill_set.skills@.len() < u32::MAX,
        expected_edges(skill_set.skills@).len() < u32::MAX,
    ensures
        g.nodes() == skill_nodes(skill_set.skills@),
        g.edges() == expected_edges(skill_set.skills@),
        g.warning_texts() == expected_warnings(skill_set.skills@),
{
    let skills = &skill_set.skills;
    let ghost all = skills@;
    let ghost names = skill_names(all);
    let n = skills.len();
    let mut graph = new_graph();
    let mut i: usize = 0;
    while i < n
        invariant
            n == all.len(),
            all == skills@,
            n < u32::MAX,
            i <= n,
            graph_nodes(graph) == skill_nodes(all.take(i as int)),
            graph_edges(graph) == Seq::<(nat, nat)>::empty(),
        decreases n - i,
    {
        let node = SkillNode {
            name: skills[i].name.clone(),
            description: skills[i].description.clone(),
        };
        add_graph_node(&mut graph, node);
        i = i + 1;
        assert(skill_nodes(all.take(i as int)) =~= skill_nodes(all.take(i - 1)).push(
            (all[i - 1].name@, all[i - 1].description@),
        ));
    }
    assert(all.take(n as int) =~= all);
    let mut warnings: Vec<String> = Vec::new();
    i = 0;
    assert(all.take(0) =~= Seq::<Skill>::empty());
    while i < n
        invariant
            n == all.len(),
            all == skills@,
            names == skill_names(all),
            i <= n,
            graph_nodes(graph) == skill_nodes(all),
            graph_edges(graph) == edges_of_skills(names, all.take(i as int)),
            warnings@.map_values(|s: String| s@) == warnings_of_skills(names, all.take(i as int)),
            edges_within(graph_edges(graph), n as nat),
            expected_edges(all).len() < u32::MAX,
        decreases n - i,
    {
        let skill = &skills[i];
        let ghost done_edges = graph_edges(graph);
        let ghost done_warnings = warnings@.map_values(|s: String| s@);
        let ghost deps = dependency_names(all[i as int]);
        proof {
            lemma_last_index_of(names, all[i as int].name@);
            assert(names[i as int] == all[i as int].name@);
        }
        let source = match skill_index(skills, &skill.name) {
            Some(k) => k,
            None => {
                assert(names.contains(all[i as int].name@));
                0
            },
        };
        assert(source as nat == node_for(names, all[i as int].name@));
        let dependencies = &skill.dependencies;
        let m = dependencies.len();
        let mut j: usize = 0;
        assert(deps.take(0) =~= Seq::<Seq<char>>::empty());
        proof {
            assert(all.take(i + 1).drop_last() =~= all.take(i as int));
            lemma_edges_of_skills_prefix(names, all, i + 1);
            lemma_dependency_edges_prefix(names, source as nat, deps, m as int);
        }
        while j < m
            invariant
                n == all.len(),
                all == skills@,
                names == skill_names(all),
                i < n,
                source < n,
                source as nat == node_for(names, all[i as int].name@),
                skill == &skills@[i as int],
                dependencies == &skill.dependencies,
                deps == dependency_names(all[i as int]),
                m == deps.len(),
                j <= m,
                graph_nodes(graph) == skill_nodes(all),
                graph_edges(graph) == done_edges + dependency_edges(names, source as nat, deps.take(j as int)),
                warnings@.map_values(|s: String| s@) == done_warnings + dependency_warnings(
                    names,
                    all[i as int].name@,
                    deps.take(j as int),
                ),
                edges_within(graph_edges(graph), n as nat),
                done_edges.len() + dependency_edges(names, source as nat, deps).len() < u32::MAX,
            decreases m - j,
        {
            let dep = &dependencies[j];
            let ghost before_w = warnings@.map_values(|s: String| s@);
            proof {
                assert(deps.take(j + 1).drop_last() =~= deps.take(j as int));
                assert(deps[j as int] == dep@);
                lemma_dependency_edges_prefix(names, source as nat, deps, j + 1);
                lemma_last_index_of(names, dep@);
            }
            match skill_index(skills, dep) {
                Some(t) => {
                    add_graph_edge(&mut graph, source, t);
                    assert(graph_edges(graph) =~= done_edges + dependency_edges(
                        names,
                        source as nat,
                        deps.take(j + 1),
                    ));
                },
                None => {
                    let mut w: Vec<char> = Vec::new();
                    push_str(&mut w, skill.name.as_str());
                    push_str(&mut w, ": dependency \"");
                    push_str(&mut w, dep.as_str());
                    push_str(&mut w, "\" not found in scanned skills");
                    let text = string_of(w.as_slice());
                    warnings.push(text);
                    assert(warnings@.map_values(|s: String| s@) =~= before_w.push(text@));
                    assert(graph_edges(graph) =~= done_edges + dependency_edges(
                        names,
                        source as nat,
                        deps.take(j + 1),
                    ));
                },
            }
            j = j + 1;
        }
        assert(deps.take(m as int) =~= deps);
        i = i + 1;
    }
    assert(all.take(n as int) =~= all);
    SkillGraph { inner: graph, warnings }
}

} // verus!
