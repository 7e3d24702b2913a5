//! Circular dependencies: the strongly connected components of more than one skill.
use vstd::prelude::*;
use crate::graph::{
    SkillGraph, edges_within, has_cycle, has_edge, in_some_component, index_seq, index_seqs, is_walk, node_names,
    partitions_nodes, reaches, strongly_connected,
};
use crate::query::names_at;

verus! {

/// A cycle: the names of skills that depend on one another in a circle.
pub type Cycle = Vec<String>;

/// The components with more than one node, in order.
pub open spec fn multi_node_components(comps: Seq<Seq<nat>>) -> Seq<Seq<nat>>
    decreases comps.len(),
{
    if comps.len() == 0 {
        seq![]
    } else {
        let rest = multi_node_components(comps.drop_last());
        if comps.last().len() > 1 {
            rest.push(comps.last())
        } else {
            rest
        }
    }
}

pub open spec fn name_lists(names: Seq<Seq<char>>, comps: Seq<Seq<nat>>) -> Seq<Seq<Seq<char>>> {
    comps.map_values(|c: Seq<nat>| names_at(names, c))
}

pub open spec fn cycle_views(cycles: Seq<Vec<String>>) -> Seq<Seq<Seq<char>>> {
    cycles.map_values(|c: Vec<String>| c@.map_values(|s: String| s@))
}

pub proof fn lemma_multi_node_components(comps: Seq<Seq<nat>>)
    ensures
        forall|i: int|
            0 <= i < multi_node_components(comps).len() ==> exists|k: int|
                0 <= k < comps.len() && comps[k] == #[trigger] multi_node_components(comps)[i]
                    && comps[k].len() > 1,
        forall|k: int|
            0 <= k < comps.len() && (#[trigger] comps[k]).len() > 1 ==> multi_node_components(
                comps,
            ).contains(comps[k]),
    decreases comps.len(),
{
    if comps.len() > 0 {
        let rest = comps.drop_last();
        lemma_multi_node_components(rest);
        let m = multi_node_components(comps);
        let mr = multi_node_components(rest);
        assert forall|i: int| 0 <= i < m.len() implies exists|k: int|
            0 <= k < comps.len() && comps[k] == #[trigger] m[i] && comps[k].len() > 1 by {
            if i < mr.len() {
                assert(m[i] == mr[i]);
                let k = choose|k: int| 0 <= k < rest.len() && rest[k] == mr[i] && rest[k].len() > 1;
                assert(comps[k] == rest[k]);
            } else {
                assert(m[i] == comps.last());
                assert(comps[comps.len() - 1] == comps.last());
            }
        }
        assert forall|k: int| 0 <= k < comps.len() && (#[trigger] comps[k]).len() > 1 implies m.contains(comps[k]) by {
            if k < rest.len() {
                assert(rest[k] == comps[k]);
                assert(mr.contains(comps[k]));
                let i = choose|i: int| 0 <= i < mr.len() && mr[i] == comps[k];
                assert(m[i] == mr[i]);
            } else {
                assert(m[m.len() - 1] == comps[k]);
            }
        }
    }
}

pub proof fn lemma_walk_concat(edges: Seq<(nat, nat)>, p: Seq<nat>, q: Seq<nat>)
    requires
        is_walk(edges, p),
        is_walk(edges, q),
        p.last() == q[0],
    ensures
        is_walk(edges, p + q.drop_first()),
        (p + q.drop_first())[0] == p[0],
        (p + q.drop_first()).last() == q.last(),
        (p + q.drop_first()).len() == p.len() + q.len() - 1,
{
    let r = p + q.drop_first();
    assert forall|i: int| 0 <= i < r.len() - 1 implies has_edge(edges, #[trigger] r[i], r[i + 1]) by {
        if i < p.len() - 1 {
            assert(r[i] == p[i] && r[i + 1] == p[i + 1]);
        } else if i == p.len() - 1 {
            assert(r[i] == q[0] && r[i + 1] == q[1]);
        } else {
            assert(r[i] == q[i - p.len() + 1] && r[i + 1] == q[i - p.len() + 2]);
        }
    }
    if q.len() == 1 {
        assert(r =~= p);
    } else {
        assert(r.last() == q.last());
    }
}

/// Two different nodes that reach each other lie on a cycle.
pub proof fn lemma_mutual_reach_cycle(edges: Seq<(nat, nat)>, u: nat, v: nat)
    requires
        u != v,
        reaches(edges, u, v),
        reaches(edges, v, u),
    ensures
        has_cycle(edges),
{
    let p = choose|p: Seq<nat>| #[trigger] is_walk(edges, p) && p[0] == u && p.last() == v;
    let q = choose|q: Seq<nat>| #[trigger] is_walk(edges, q) && q[0] == v && q.last() == u;
    lemma_walk_concat(edges, p, q);
    assert(p.len() >= 2);
    let r = p + q.drop_first();
    assert(is_walk(edges, r) && r.len() >= 2 && r[0] == r.last());
}

/// Two different skills among the first `n` depend on each other, directly or
/// through others.
pub open spec fn mutually_dependent_pair(edges: Seq<(nat, nat)>, n: nat) -> bool {
    exists|u: nat, v: nat|
        u != v && u < n && v < n && #[trigger] reaches(edges, u, v) && #[trigger] reaches(edges, v, u)
}

/// The names of a list of components: one list per component, as long as the
/// component, holding the name of each of its nodes in the component's order.
pub proof fn lemma_name_lists(names: Seq<Seq<char>>, comps: Seq<Seq<nat>>)
    ensures
        name_lists(names, comps).len() == comps.len(),
        forall|i: int| 0 <= i < comps.len() ==> (#[trigger] name_lists(names, comps)[i]).len() == comps[i].len(),
        forall|i: int, j: int|
            0 <= i < comps.len() && 0 <= j < comps[i].len() ==> #[trigger] name_lists(names, comps)[i][j]
                == names[comps[i][j] as int],
{
    assert forall|i: int| 0 <= i < comps.len() implies (#[trigger] name_lists(names, comps)[i]).len()
        == comps[i].len() by {
        assert(name_lists(names, comps)[i] == names_at(names, comps[i]));
    }
    assert forall|i: int, j: int| 0 <= i < comps.len() && 0 <= j < comps[i].len() implies #[trigger] name_lists(
        names,
        comps,
    )[i][j] == names[comps[i][j] as int] by {
        assert(name_lists(names, comps)[i] == names_at(names, comps[i]));
    }
}

/// Two different skills that depend on each other make the graph cyclic; and
/// in a graph where no skill depends directly on itself, a cycle always runs
/// through two different skills.
pub proof fn lemma_mutual_pair_iff_cycle(edges: Seq<(nat, nat)>, n: nat)
    requires
        edges_within(edges, n),
    ensures
        mutually_dependent_pair(edges, n) ==> has_cycle(edges),
        (forall|k: int| 0 <= k < edges.len() ==> (#[trigger] edges[k]).0 != edges[k].1) ==> (has_cycle(edges)
            ==> mutually_dependent_pair(edges, n)),
{
    if mutually_dependent_pair(edges, n) {
        let (u, v) = choose|u: nat, v: nat|
            u != v && u < n && v < n && #[trigger] reaches(edges, u, v) && #[trigger] reaches(edges, v, u);
        lemma_mutual_reach_cycle(edges, u, v);
    }
    if (forall|k: int| 0 <= k < edges.len() ==> (#[trigger] edges[k]).0 != edges[k].1) && has_cycle(edges) {
        let p = choose|p: Seq<nat>| #[trigger] is_walk(edges, p) && p.len() >= 2 && p[0] == p.last();
        assert(has_edge(edges, p[0], p[1]));
        let k = choose|k: int| 0 <= k < edges.len() && edges[k] == (p[0], p[1]);
        assert(edges[k].0 != edges[k].1);
        let q = seq![p[0], p[1]];
        assert(is_walk(edges, q)) by {
            assert forall|i: int| 0 <= i < q.len() - 1 implies has_edge(edges, #[trigger] q[i], q[i + 1]) by {
                assert(edges[k] == (q[0], q[1]));
            }
        }
        assert(q.last() == p[1]);
        let r = p.skip(1);
        assert(is_walk(edges, r)) by {
            assert forall|i: int| 0 <= i < r.len() - 1 implies has_edge(edges, #[trigger] r[i], r[i + 1]) by {
                assert(r[i] == p[i + 1] && r[i + 1] == p[i + 2]);
            }
        }
        assert(r[0] == p[1] && r.last() == p[0]);
        assert(reaches(edges, p[0], p[1]));
        assert(reaches(edges, p[1], p[0]));
        assert(p[0] < n && p[1] < n);
    }
}

/// The circular dependencies of the graph: the names of the skills of each
/// strongly connected component of more than one skill, in petgraph's order.
/// Two different skills depend on each other (directly or not) exactly when
/// they fall in the same cycle, and a cycle is reported only if the graph has one.
pub fn detect_cycles(graph: &SkillGraph) -> (cycles: Vec<Cycle>)
    ensures
        cycle_views(cycles@) == name_lists(
            node_names(graph.nodes()),
            multi_node_components(graph.components()),
        ),
        forall|i: int, j1: int, j2: int|
            0 <= i < multi_node_components(graph.components()).len() && 0 <= j1 < multi_node_components(
                graph.components(),
            )[i].len() && 0 <= j2 < multi_node_components(graph.components())[i].len() ==> reaches(
                graph.edges(),
                #[trigger] multi_node_components(graph.components())[i][j1],
                #[trigger] multi_node_components(graph.components())[i][j2],
            ),
        forall|u: nat, v: nat|
            u != v && u < graph.nodes().len() && v < graph.nodes().len() && #[trigger] reaches(graph.edges(), u, v)
                && #[trigger] reaches(graph.edges(), v, u) ==> exists|i: int|
                0 <= i < multi_node_components(graph.components()).len() && multi_node_components(
                    graph.components(),
                )[i].contains(u) && multi_node_components(graph.components())[i].contains(v),
        cycles@.len() > 0 <==> mutually_dependent_pair(graph.edges(), graph.nodes().len()),
        cycles@.len() > 0 ==> has_cycle(graph.edges()),
        cycles@.len() == multi_node_components(graph.components()).len(),
        forall|i: int|
            0 <= i < cycles@.len() ==> (#[trigger] cycles@[i])@.len() == multi_node_components(
                graph.components(),
            )[i].len(),
        forall|i: int, j: int|
            0 <= i < cycles@.len() && 0 <= j < cycles@[i]@.len() ==> (#[trigger] cycles@[i]@[j])@ == node_names(
                graph.nodes(),
            )[multi_node_components(graph.components())[i][j] as int],
        forall|u: nat, v: nat|
            u != v && u < graph.nodes().len() && v < graph.nodes().len() && #[trigger] reaches(graph.edges(), u, v)
                && #[trigger] reaches(graph.edges(), v, u) ==> exists|i: int, j: int|
                0 <= i < cycles@.len() && 0 <= j < cycles@[i]@.len() && (#[trigger] cycles@[i]@[j])@
                    == node_names(graph.nodes())[u as int],
{
    let comps = graph.strongly_connected_components();
    let ghost cv = graph.components();
    let ghost names = node_names(graph.nodes());
    let n = comps.len();
    let mut cycles: Vec<Cycle> = Vec::new();
    let mut i: usize = 0;
    assert(cv.take(0) =~= Seq::<Seq<nat>>::empty());
    while i < n
        invariant
            n == comps@.len(),
            cv == index_seqs(comps@),
            cv == graph.components(),
            names == node_names(graph.nodes()),
            partitions_nodes(cv, graph.nodes().len()),
            i <= n,
            cycle_views(cycles@) == name_lists(names, multi_node_components(cv.take(i as int))),
        decreases n - i,
    {
        let ghost before = cycle_views(cycles@);
        assert(cv.take(i + 1).drop_last() =~= cv.take(i as int));
        assert(cv[i as int] == index_seq(comps@[i as int]@));
        if comps[i].len() > 1 {
            let c = &comps[i];
            let m = c.len();
            let mut names_here: Vec<String> = Vec::new();
            let mut j: usize = 0;
            while j < m
                invariant
                    m == c@.len(),
                    i < n,
                    n == comps@.len(),
                    c == &comps@[i as int],
                    cv == index_seqs(comps@),
                    names == node_names(graph.nodes()),
                    partitions_nodes(cv, graph.nodes().len()),
                    j <= m,
                    names_here@.map_values(|s: String| s@) == names_at(names, index_seq(c@)).take(j as int),
                decreases m - j,
            {
                assert(cv[i as int][j as int] == c@[j as int]);
                assert(c@[j as int] < graph.nodes().len());
                let nm = graph.node_name(c[j]);
                proof {
                    let all = names_at(names, index_seq(c@));
                    assert(index_seq(c@)[j as int] == c@[j as int] as nat);
                    assert(names[c@[j as int] as int] == graph.nodes()[c@[j as int] as int].0);
                    assert(all[j as int] == nm@);
                    assert(all.take(j + 1) =~= all.take(j as int).push(nm@));
                }
                names_here.push(nm);
                assert(names_here@.map_values(|s: String| s@) =~= names_at(names, index_seq(c@)).take(j + 1));
                j = j + 1;
            }
            assert(names_at(names, index_seq(c@)).take(m as int) =~= names_at(names, index_seq(c@)));
            cycles.push(names_here);
            assert(cycle_views(cycles@) =~= before.push(names_at(names, cv[i as int])));
        }
        i = i + 1;
        assert(cycle_views(cycles@) =~= name_lists(names, multi_node_components(cv.take(i as int))));
    }
    assert(cv.take(n as int) =~= cv);
    proof {
        let mc = multi_node_components(cv);
        lemma_multi_node_components(cv);
        assert(strongly_connected(cv, graph.edges()));
        assert forall|i: int, j1: int, j2: int|
            0 <= i < mc.len() && 0 <= j1 < mc[i].len() && 0 <= j2 < mc[i].len() implies reaches(
                graph.edges(),
                #[trigger] mc[i][j1],
                #[trigger] mc[i][j2],
            ) by {
            let k = choose|k: int| 0 <= k < cv.len() && cv[k] == #[trigger] mc[i] && cv[k].len() > 1;
            assert(cv[k][j1] == mc[i][j1] && cv[k][j2] == mc[i][j2]);
        }
        assert forall|u: nat, v: nat|
            u != v && u < graph.nodes().len() && v < graph.nodes().len() && #[trigger] reaches(graph.edges(), u, v)
                && #[trigger] reaches(graph.edges(), v, u) implies exists|i: int|
                0 <= i < mc.len() && mc[i].contains(u) && mc[i].contains(v) by {
            assert(in_some_component(cv, u));
            assert(in_some_component(cv, v));
            let (iu, ju) = choose|i: int, j: int| 0 <= i < cv.len() && 0 <= j < cv[i].len() && #[trigger] cv[i][j] == u;
            let (iv, jv) = choose|i: int, j: int| 0 <= i < cv.len() && 0 <= j < cv[i].len() && #[trigger] cv[i][j] == v;
            if iu != iv {
                assert(!(reaches(graph.edges(), cv[iu][ju], cv[iv][jv]) && reaches(graph.edges(), cv[iv][jv], cv[iu][ju])));
            }
            assert(iu == iv);
            assert(ju != jv);
            assert(cv[iu].len() > 1);
            assert(mc.contains(cv[iu]));
            let i = choose|i: int| 0 <= i < mc.len() && mc[i] == cv[iu];
            assert(mc[i][ju] == u && mc[i][jv] == v);
        }
        if cycles@.len() > 0 {
            assert(cycle_views(cycles@).len() > 0);
            let k = choose|k: int| 0 <= k < cv.len() && cv[k] == #[trigger] mc[0] && cv[k].len() > 1;
            assert(cv[k][0] != cv[k][1]) by {
                assert(partitions_nodes(cv, graph.nodes().len()));
            }
            lemma_mutual_reach_cycle(graph.edges(), cv[k][0], cv[k][1]);
            assert(reaches(graph.edges(), cv[k][0], cv[k][1]) && reaches(graph.edges(), cv[k][1], cv[k][0]));
            assert(mutually_dependent_pair(graph.edges(), graph.nodes().len()));
        }
        lemma_name_lists(names, mc);
        let cvw = cycle_views(cycles@);
        assert(cvw.len() == cycles@.len());
        assert forall|i: int| 0 <= i < cycles@.len() implies (#[trigger] cycles@[i])@.len() == mc[i].len() by {
            assert(cvw[i] == cycles@[i]@.map_values(|s: String| s@));
        }
        assert forall|i: int, j: int| 0 <= i < cycles@.len() && 0 <= j < cycles@[i]@.len() implies (
        #[trigger] cycles@[i]@[j])@ == names[mc[i][j] as int] by {
            assert(cvw[i] == cycles@[i]@.map_values(|s: String| s@));
            assert(cvw[i][j] == cycles@[i]@[j]@);
        }
        assert forall|u: nat, v: nat|
            u != v && u < graph.nodes().len() && v < graph.nodes().len() && #[trigger] reaches(graph.edges(), u, v)
                && #[trigger] reaches(graph.edges(), v, u) implies exists|i: int, j: int|
                0 <= i < cycles@.len() && 0 <= j < cycles@[i]@.len() && (#[trigger] cycles@[i]@[j])@
                    == names[u as int] by {
            let i = choose|i: int| 0 <= i < mc.len() && mc[i].contains(u) && mc[i].contains(v);
            let j = choose|j: int| 0 <= j < mc[i].len() && mc[i][j] == u;
            assert(cycles@[i]@[j]@ == names[mc[i][j] as int]);
        }
        if mutually_dependent_pair(graph.edges(), graph.nodes().len()) {
            let (u, v) = choose|u: nat, v: nat|
                u != v && u < graph.nodes().len() && v < graph.nodes().len() && #[trigger] reaches(graph.edges(), u, v)
                    && #[trigger] reaches(graph.edges(), v, u);
            assert(mc.len() > 0);
            assert(cycle_views(cycles@).len() == mc.len());
        }
    }
    cycles
}

} // verus!
