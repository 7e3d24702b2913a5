//! The role of each skill at the edge of the graph: isolated, leaf or root.
use vstd::prelude::*;
use crate::graph::{EdgeDirection, SkillGraph, has_edge, lemma_neighbors_spec, neighbors_spec, node_names};

verus! {

#[derive(Debug, Clone, Copy, PartialEq, Eq, Structural)]
pub enum SkillRole {
    /// No incoming or outgoing edges: completely disconnected.
    Isolated,
    /// No outgoing edges (no dependencies) but used by others.
    Leaf,
    /// No incoming edges (nobody depends on it) but has dependencies.
    Root,
}

#[derive(Debug, Clone)]
pub struct SkillClassification {
    pub name: String,
    pub role: SkillRole,
}

/// The role of a skill with `incoming` dependents and `outgoing` dependencies;
/// `None` for a skill with both.
pub open spec fn role_of(incoming: nat, outgoing: nat) -> Option<SkillRole> {
    if incoming == 0 && outgoing == 0 {
        Some(SkillRole::Isolated)
    } else if outgoing == 0 {
        Some(SkillRole::Leaf)
    } else if incoming == 0 {
        Some(SkillRole::Root)
    } else {
        None
    }
}

/// The number of edges of node `i` in direction `dir`.
pub open spec fn degree_of(edges: Seq<(nat, nat)>, i: nat, dir: EdgeDirection) -> nat {
    neighbors_spec(edges, i, dir).len()
}

/// The role of node `i` of a graph with these edges.
pub open spec fn node_role(edges: Seq<(nat, nat)>, i: nat) -> Option<SkillRole> {
    role_of(degree_of(edges, i, EdgeDirection::Incoming), degree_of(edges, i, EdgeDirection::Outgoing))
}

/// The (name, role) of each of the first `n` nodes that has a role, in node order.
pub open spec fn classified(names: Seq<Seq<char>>, edges: Seq<(nat, nat)>, n: nat) -> Seq<(Seq<char>, SkillRole)>
    decreases n,
{
    if n == 0 {
        seq![]
    } else {
        let rest = classified(names, edges, (n - 1) as nat);
        match node_role(edges, (n - 1) as nat) {
            Some(role) => rest.push((names[n - 1], role)),
            None => rest,
        }
    }
}

/// No edge leaves node `i`.
pub open spec fn no_dependency(edges: Seq<(nat, nat)>, i: nat) -> bool {
    forall|w: nat| !#[trigger] has_edge(edges, i, w)
}

/// No edge enters node `i`.
pub open spec fn no_dependent(edges: Seq<(nat, nat)>, i: nat) -> bool {
    forall|w: nat| !#[trigger] has_edge(edges, w, i)
}

pub proof fn lemma_degree_zero(edges: Seq<(nat, nat)>, i: nat)
    ensures
        degree_of(edges, i, EdgeDirection::Outgoing) == 0 <==> no_dependency(edges, i),
        degree_of(edges, i, EdgeDirection::Incoming) == 0 <==> no_dependent(edges, i),
{
    lemma_neighbors_spec(edges, i, EdgeDirection::Outgoing);
    lemma_neighbors_spec(edges, i, EdgeDirection::Incoming);
    let o = neighbors_spec(edges, i, EdgeDirection::Outgoing);
    let n = neighbors_spec(edges, i, EdgeDirection::Incoming);
    if o.len() > 0 {
        assert(o.contains(o[0]));
        assert(has_edge(edges, i, o[0]));
    } else {
        assert forall|w: nat| !#[trigger] has_edge(edges, i, w) by {
            assert(!o.contains(w));
        }
    }
    if n.len() > 0 {
        assert(n.contains(n[0]));
        assert(has_edge(edges, n[0], i));
    } else {
        assert forall|w: nat| !#[trigger] has_edge(edges, w, i) by {
            assert(!n.contains(w));
        }
    }
}

/// The role of a skill depends only on whether it has dependencies and whether
/// it has dependents: with neither it is isolated; with dependents but no
/// dependency, however many dependents, a leaf; with dependencies but no
/// dependent, however many dependencies, a root; with both, it has no role.
pub proof fn lemma_roles(edges: Seq<(nat, nat)>, i: nat)
    ensures
        node_role(edges, i) == Some(SkillRole::Isolated) <==> no_dependency(edges, i) && no_dependent(edges, i),
        node_role(edges, i) == Some(SkillRole::Leaf) <==> no_dependency(edges, i) && !no_dependent(edges, i),
        node_role(edges, i) == Some(SkillRole::Root) <==> !no_dependency(edges, i) && no_dependent(edges, i),
        node_role(edges, i) is None <==> !no_dependency(edges, i) && !no_dependent(edges, i),
{
    lemma_degree_zero(edges, i);
}

/// The classified skills are exactly the skills with a role, each with its
/// role: every node with a role is listed under its name, and every entry is
/// a node with a role.
pub proof fn lemma_classified(names: Seq<Seq<char>>, edges: Seq<(nat, nat)>, n: nat)
    ensures
        forall|i: nat|
            i < n && #[trigger] node_role(edges, i) is Some ==> classified(names, edges, n).contains(
                (names[i as int], node_role(edges, i).unwrap()),
            ),
        forall|k: int|
            #![trigger classified(names, edges, n)[k]]
            0 <= k < classified(names, edges, n).len() ==> exists|i: nat|
                i < n && #[trigger] node_role(edges, i) is Some && classified(names, edges, n)[k] == (
                    names[i as int],
                    node_role(edges, i).unwrap(),
                ),
    decreases n,
{
    if n > 0 {
        let m = (n - 1) as nat;
        lemma_classified(names, edges, m);
        let rest = classified(names, edges, m);
        let all = classified(names, edges, n);
        match node_role(edges, m) {
            Some(r) => {
                assert(all == rest.push((names[m as int], r)));
            },
            None => {
                assert(all == rest);
            },
        }
        assert forall|i: nat| i < n && #[trigger] node_role(edges, i) is Some implies all.contains(
            (names[i as int], node_role(edges, i).unwrap()),
        ) by {
            if i < m {
                let x = (names[i as int], node_role(edges, i).unwrap());
                assert(rest.contains(x));
                let k = choose|k: int| 0 <= k < rest.len() && rest[k] == x;
                if node_role(edges, m) is Some {
                    assert(all[k] == x);
                }
            } else {
                assert(all[all.len() - 1] == (names[m as int], node_role(edges, m).unwrap()));
            }
        }
        assert forall|k: int| #![trigger all[k]] 0 <= k < all.len() implies exists|i: nat|
            i < n && #[trigger] node_role(edges, i) is Some && all[k] == (
                names[i as int],
                node_role(edges, i).unwrap(),
            ) by {
            if k < rest.len() {
                assert(all[k] == rest[k]);
                let i0 = choose|i: nat|
                    i < m && #[trigger] node_role(edges, i) is Some && rest[k] == (
                        names[i as int],
                        node_role(edges, i).unwrap(),
                    );
                assert(i0 < n && node_role(edges, i0) is Some);
            } else {
                assert(node_role(edges, m) is Some);
                assert(all[k] == (names[m as int], node_role(edges, m).unwrap()));
            }
        }
    }
}

pub open spec fn classification_views(v: Seq<SkillClassification>) -> Seq<(Seq<char>, SkillRole)> {
    v.map_values(|c: SkillClassification| (c.name@, c.role))
}

/// The skills of the graph that have a role, in node order, with their roles.
pub fn classify_skills(graph: &SkillGraph) -> (out: Vec<SkillClassification>)
    ensures
        classification_views(out@) == classified(
            node_names(graph.nodes()),
            graph.edges(),
            graph.nodes().len(),
        ),
{
    let n = graph.node_count();
    let ghost names = node_names(graph.nodes());
    let mut out: Vec<SkillClassification> = Vec::new();
    let mut i: usize = 0;
    while i < n
        invariant
            n == graph.nodes().len(),
            names == node_names(graph.nodes()),
            i <= n,
            classification_views(out@) == classified(names, graph.edges(), i as nat),
        decreases n - i,
    {
        let incoming = graph.degree(i, EdgeDirection::Incoming);
        let outgoing = graph.degree(i, EdgeDirection::Outgoing);
        let role = if incoming == 0 && outgoing == 0 {
            Some(SkillRole::Isolated)
        } else if outgoing == 0 {
            Some(SkillRole::Leaf)
        } else if incoming == 0 {
            Some(SkillRole::Root)
        } else {
            None
        };
        assert(role == node_role(graph.edges(), i as nat));
        let ghost before = classification_views(out@);
        if let Some(role) = role {
            let name = graph.node_name(i);
            assert(names[i as int] == name@);
            out.push(SkillClassification { name, role });
            assert(classification_views(out@) =~= before.push((names[i as int], role)));
        }
        i = i + 1;
    }
    out
}

} // verus!
