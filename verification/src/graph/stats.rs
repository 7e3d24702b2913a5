//! Summary statistics of the skill graph.
use vstd::prelude::*;
use super::{EdgeDirection, SkillGraph, has_cycle, neighbors_spec, node_names};
use crate::analysis::isolation::{lemma_degree_zero, no_dependency, no_dependent};
use crate::text::{decimal, push_decimal, push_str, string_of, string_views};

verus! {

#[derive(Debug, Clone)]
pub struct GraphStats {
    pub skill_count: usize,
    pub edge_count: usize,
    pub orphan_skills: Vec<String>,
    pub has_cycles: bool,
}

/// Node `i` has no edge in either direction.
pub open spec fn is_orphan(edges: Seq<(nat, nat)>, i: nat) -> bool {
    neighbors_spec(edges, i, EdgeDirection::Incoming).len() == 0
        && neighbors_spec(edges, i, EdgeDirection::Outgoing).len() == 0
}

/// The names of the first `n` nodes that have no edge, in node order.
pub open spec fn orphan_names(names: Seq<Seq<char>>, edges: Seq<(nat, nat)>, n: nat) -> Seq<Seq<char>>
    decreases n,
{
    if n == 0 {
        seq![]
    } else {
        let rest = orphan_names(names, edges, (n - 1) as nat);
        if is_orphan(edges, (n - 1) as nat) {
            rest.push(names[n - 1])
        } else {
            rest
        }
    }
}

/// The orphan skills are exactly the skills with no dependency and no
/// dependent: every such node is listed under its name, and every entry is the
/// name of such a node.
pub proof fn lemma_orphans(names: Seq<Seq<char>>, edges: Seq<(nat, nat)>, n: nat)
    ensures
        forall|i: nat|
            i < n && #[trigger] no_dependency(edges, i) && no_dependent(edges, i) ==> orphan_names(
                names,
                edges,
                n,
            ).contains(names[i as int]),
        forall|k: int|
            0 <= k < orphan_names(names, edges, n).len() ==> exists|i: nat|
                i < n && no_dependency(edges, i) && no_dependent(edges, i) && #[trigger] orphan_names(names, edges, n)[k]
                    == names[i as int],
    decreases n,
{
    if n > 0 {
        let m = (n - 1) as nat;
        lemma_orphans(names, edges, m);
        lemma_degree_zero(edges, m);
        let rest = orphan_names(names, edges, m);
        let all = orphan_names(names, edges, n);
        if is_orphan(edges, m) {
            assert(all == rest.push(names[m as int]));
        } else {
            assert(all == rest);
        }
        assert forall|i: nat| i < n && #[trigger] no_dependency(edges, i) && no_dependent(edges, i) implies all.contains(
            names[i as int],
        ) by {
            lemma_degree_zero(edges, i);
            if i < m {
                assert(rest.contains(names[i as int]));
                let k = choose|k: int| 0 <= k < rest.len() && rest[k] == names[i as int];
                assert(all[k] == rest[k]);
            } else {
                assert(all[all.len() - 1] == names[m as int]);
            }
        }
        assert forall|k: int| 0 <= k < all.len() implies exists|i: nat|
            i < n && no_dependency(edges, i) && no_dependent(edges, i) && #[trigger] all[k] == names[i as int] by {
            if k < rest.len() {
                assert(all[k] == rest[k]);
                let i0 = choose|i: nat|
                    i < m && no_dependency(edges, i) && no_dependent(edges, i) && #[trigger] rest[k] == names[i as int];
                assert(all[k] == names[i0 as int]);
            } else {
                assert(all[k] == names[m as int]);
            }
        }
    }
}

/// The statistics of a graph: its numbers of skills and of dependencies, its
/// skills with no dependency and no dependent, in node order, and whether some
/// skill depends on itself, directly or through others.
pub fn compute_stats(graph: &SkillGraph) -> (st: GraphStats)
    ensures
        st.skill_count == graph.nodes().len(),
        st.edge_count == graph.edges().len(),
        st.has_cycles == has_cycle(graph.edges()),
        string_views(st.orphan_skills@) == orphan_names(
            node_names(graph.nodes()),
            graph.edges(),
            graph.nodes().len(),
        ),
{
    let skill_count = graph.node_count();
    let edge_count = graph.edge_count();
    let has_cycles = graph.is_cyclic();
    let ghost names = node_names(graph.nodes());
    let mut orphan_skills: Vec<String> = Vec::new();
    let mut i: usize = 0;
    while i < skill_count
        invariant
            skill_count == graph.nodes().len(),
            names == node_names(graph.nodes()),
            i <= skill_count,
            string_views(orphan_skills@) == orphan_names(names, graph.edges(), i as nat),
        decreases skill_count - i,
    {
        let incoming = graph.degree(i, EdgeDirection::Incoming);
        let outgoing = graph.degree(i, EdgeDirection::Outgoing);
        if incoming == 0 && outgoing == 0 {
            let ghost before = string_views(orphan_skills@);
            let name = graph.node_name(i);
            assert(names[i as int] == name@);
            orphan_skills.push(name);
            assert(string_views(orphan_skills@) =~= before.push(names[i as int]));
        }
        i = i + 1;
    }
    GraphStats { skill_count, edge_count, orphan_skills, has_cycles }
}

/// The lines that list orphan skills, one `  - name` line each.
pub open spec fn orphan_lines(names: Seq<Seq<char>>) -> Seq<char>
    decreases names.len(),
{
    if names.len() == 0 {
        seq![]
    } else {
        orphan_lines(names.drop_last()) + "  - "@ + names.last() + "\n"@
    }
}

/// The report of a graph's statistics.
pub open spec fn stats_text(skill_count: nat, edge_count: nat, orphans: Seq<Seq<char>>, has_cycles: bool) -> Seq<
    char,
> {
    "Skills: "@ + decimal(skill_count) + "\n"@ + "Dependencies: "@ + decimal(edge_count) + "\n"@
        + "Cycles detected: "@ + (if has_cycles { "yes"@ } else { "no"@ }) + "\n"@ + if orphans.len() == 0 {
        "Orphan skills: none\n"@
    } else {
        "Orphan skills ("@ + decimal(orphans.len()) + "):\n"@ + orphan_lines(orphans)
    }
}

impl GraphStats {
    /// The report of these statistics (see `stats_text`).
    pub fn to_string(&self) -> (s: String)
        ensures
            s@ == stats_text(
                self.skill_count as nat,
                self.edge_count as nat,
                string_views(self.orphan_skills@),
                self.has_cycles,
            ),
    {
        let mut out: Vec<char> = Vec::new();
        push_str(&mut out, "Skills: ");
        push_decimal(&mut out, self.skill_count);
        push_str(&mut out, "\n");
        push_str(&mut out, "Dependencies: ");
        push_decimal(&mut out, self.edge_count);
        push_str(&mut out, "\n");
        push_str(&mut out, "Cycles detected: ");
        if self.has_cycles {
            push_str(&mut out, "yes");
        } else {
            push_str(&mut out, "no");
        }
        push_str(&mut out, "\n");
        let ghost head = out@;
        let ghost names = string_views(self.orphan_skills@);
        let n = self.orphan_skills.len();
        if n == 0 {
            push_str(&mut out, "Orphan skills: none\n");
        } else {
            push_str(&mut out, "Orphan skills (");
            push_decimal(&mut out, n);
            push_str(&mut out, "):\n");
            let ghost mid = out@;
            let mut i: usize = 0;
            assert(names.take(0) =~= Seq::<Seq<char>>::empty());
            while i < n
                invariant
                    n == self.orphan_skills@.len(),
                    names == string_views(self.orphan_skills@),
                    i <= n,
                    out@ == mid + orphan_lines(names.take(i as int)),
                decreases n - i,
            {
                assert(names.take(i + 1).drop_last() =~= names.take(i as int));
                assert(names.take(i + 1).last() == self.orphan_skills@[i as int]@);
                push_str(&mut out, "  - ");
                push_str(&mut out, self.orphan_skills[i].as_str());
                push_str(&mut out, "\n");
                i = i + 1;
            }
            assert(names.take(n as int) =~= names);
        }
        string_of(out.as_slice())
    }
}

} // verus!
