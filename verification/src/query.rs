//! Queries on the dependency graph: who uses a skill, what a skill depends on,
//! and how two skills are connected.
use vstd::prelude::*;
use crate::graph::{
    EdgeDirection, SkillGraph, has_edge, index_seq, is_walk, last_index_of, lemma_last_index_of,
    lemma_neighbors_spec, neighbors_spec, node_for, node_names,
};

verus! {

/// The names of the nodes `ix`, in order.
pub open spec fn names_at(names: Seq<Seq<char>>, ix: Seq<nat>) -> Seq<Seq<char>> {
    ix.map_values(|i: nat| names[i as int])
}

/// The names of the nodes `ix`, read from the graph.
fn names_of(graph: &SkillGraph, ix: &Vec<usize>) -> (out: Vec<String>)
    requires
        forall|j: int| 0 <= j < ix@.len() ==> (#[trigger] ix@[j]) < graph.nodes().len(),
    ensures
        out@.map_values(|s: String| s@) == names_at(node_names(graph.nodes()), index_seq(ix@)),
{
    let n = ix.len();
    let mut out: Vec<String> = Vec::new();
    let mut k: usize = 0;
    while k < n
        invariant
            n == ix@.len(),
            k <= n,
            forall|j: int| 0 <= j < ix@.len() ==> (#[trigger] ix@[j]) < graph.nodes().len(),
            out@.map_values(|s: String| s@) == names_at(node_names(graph.nodes()), index_seq(ix@)).take(
                k as int,
            ),
        decreases n - k,
    {
        let ghost before = out@.map_values(|s: String| s@);
        let name = graph.node_name(ix[k]);
        proof {
            let ghost all = names_at(node_names(graph.nodes()), index_seq(ix@));
            assert(index_seq(ix@)[k as int] == ix@[k as int] as nat);
            assert(node_names(graph.nodes())[ix@[k as int] as int] == graph.nodes()[ix@[k as int] as int].0);
            assert(all[k as int] == name@);
            assert(all.take(k + 1) =~= all.take(k as int).push(name@));
        }
        out.push(name);
        k = k + 1;
        assert(out@.map_values(|s: String| s@) =~= names_at(node_names(graph.nodes()), index_seq(ix@)).take(
            k as int,
        ));
    }
    assert(names_at(node_names(graph.nodes()), index_seq(ix@)).take(n as int) =~= names_at(
        node_names(graph.nodes()),
        index_seq(ix@),
    ));
    out
}

/// The skills that depend directly on the skill named `skill_name` (the last
/// of that name), most recently added edge first; `None` when no skill has
/// that name.
pub fn query_uses(graph: &SkillGraph, skill_name: &str) -> (r: Option<Vec<String>>)
    ensures
        r is Some <==> node_names(graph.nodes()).contains(skill_name@),
        r is Some ==> r.unwrap()@.map_values(|s: String| s@) == names_at(
            node_names(graph.nodes()),
            neighbors_spec(
                graph.edges(),
                node_for(node_names(graph.nodes()), skill_name@),
                EdgeDirection::Incoming,
            ),
        ),
{
    let n = graph.node_count();
    proof {
        lemma_last_index_of(node_names(graph.nodes()), skill_name@);
    }
    match graph.node_index(skill_name) {
        None => None,
        Some(i) => {
            let users = graph.neighbors(i, EdgeDirection::Incoming);
            proof {
                lemma_neighbors_spec(graph.edges(), i as nat, EdgeDirection::Incoming);
                assert forall|j: int| 0 <= j < users@.len() implies (#[trigger] users@[j]) < graph.nodes().len() by {
                    assert(index_seq(users@)[j] == users@[j]);
                    assert(has_edge(graph.edges(), users@[j] as nat, i as nat));
                    let k = choose|k: int| 0 <= k < graph.edges().len() && graph.edges()[k] == (users@[j] as nat, i as nat);
                    assert(graph.edges()[k].0 < n);
                }
            }
            Some(names_of(graph, &users))
        },
    }
}


/// `b` can be reached from `a` through at least one edge: `a` depends on `b`,
/// directly or through other skills.
pub open spec fn depends_on(edges: Seq<(nat, nat)>, a: nat, b: nat) -> bool {
    exists|p: Seq<nat>| #[trigger] is_walk(edges, p) && p.len() >= 2 && p[0] == a && p.last() == b
}

/// Every edge that leaves `start` or a node of `res` ends in a node of `res`.
pub open spec fn closed_under(edges: Seq<(nat, nat)>, start: nat, res: Seq<nat>) -> bool {
    forall|u: nat, w: nat|
        (u == start || res.contains(u)) && #[trigger] has_edge(edges, u, w) ==> res.contains(w)
}

pub proof fn lemma_walk_prefix(edges: Seq<(nat, nat)>, p: Seq<nat>, k: int)
    requires
        is_walk(edges, p),
        1 <= k <= p.len(),
    ensures
        is_walk(edges, p.take(k)),
{
    assert forall|i: int| 0 <= i < p.take(k).len() - 1 implies has_edge(edges, #[trigger] p.take(k)[i], p.take(k)[i + 1]) by {
        assert(p.take(k)[i] == p[i]);
        assert(p.take(k)[i + 1] == p[i + 1]);
    }
}

pub proof fn lemma_walk_push(edges: Seq<(nat, nat)>, p: Seq<nat>, w: nat)
    requires
        is_walk(edges, p),
        has_edge(edges, p.last(), w),
    ensures
        is_walk(edges, p.push(w)),
{
    let q = p.push(w);
    assert forall|i: int| 0 <= i < q.len() - 1 implies has_edge(edges, #[trigger] q[i], q[i + 1]) by {
        if i < p.len() - 1 {
            assert(q[i] == p[i] && q[i + 1] == p[i + 1]);
        } else {
            assert(q[i] == p.last() && q[i + 1] == w);
        }
    }
}

/// A node that depends on `start` keeps depending on it through one more edge.
pub proof fn lemma_depends_on_extend(edges: Seq<(nat, nat)>, start: nat, u: nat, w: nat)
    requires
        u == start || depends_on(edges, start, u),
        has_edge(edges, u, w),
    ensures
        depends_on(edges, start, w),
{
    if u == start {
        let p = seq![start, w];
        assert(is_walk(edges, p)) by {
            assert forall|i: int| 0 <= i < p.len() - 1 implies has_edge(edges, #[trigger] p[i], p[i + 1]) by {
                assert(i == 0);
            }
        }
        assert(p.last() == w);
    } else {
        let p = choose|p: Seq<nat>| #[trigger] is_walk(edges, p) && p.len() >= 2 && p[0] == start && p.last() == u;
        lemma_walk_push(edges, p, w);
        assert(p.push(w)[0] == start);
    }
}

pub proof fn lemma_closed_reaches(edges: Seq<(nat, nat)>, start: nat, res: Seq<nat>, p: Seq<nat>)
    requires
        closed_under(edges, start, res),
        is_walk(edges, p),
        p.len() >= 2,
        p[0] == start,
    ensures
        res.contains(p.last()),
    decreases p.len(),
{
    let q = p.drop_last();
    assert(has_edge(edges, p[p.len() - 2], p[p.len() - 1]));
    if p.len() == 2 {
        assert(p[p.len() - 2] == start);
    } else {
        lemma_walk_prefix(edges, p, p.len() - 1);
        assert(p.take(p.len() - 1) =~= q);
        lemma_closed_reaches(edges, start, res, q);
        assert(q.last() == p[p.len() - 2]);
    }
}

/// The set `{0, .., n - 1}` of nodes.
pub open spec fn node_range(n: nat) -> Set<nat> {
    Set::new(|x: nat| x < n)
}

pub proof fn lemma_node_range(n: nat)
    ensures
        node_range(n).finite(),
        node_range(n).len() == n,
    decreases n,
{
    if n == 0 {
        assert(node_range(n) =~= Set::<nat>::empty());
    } else {
        lemma_node_range((n - 1) as nat);
        assert(node_range((n - 1) as nat).insert((n - 1) as nat) =~= node_range(n));
    }
}

/// A sequence of distinct nodes below `n` has at most `n` elements.
pub proof fn lemma_distinct_nodes_bound(s: Seq<nat>, n: nat)
    requires
        s.no_duplicates(),
        forall|j: int| 0 <= j < s.len() ==> #[trigger] s[j] < n,
    ensures
        s.len() <= n,
{
    s.unique_seq_to_set();
    lemma_node_range(n);
    assert(s.to_set().subset_of(node_range(n))) by {
        assert forall|x: nat| s.to_set().contains(x) implies node_range(n).contains(x) by {
            let j = choose|j: int| 0 <= j < s.len() && s[j] == x;
        }
    }
    vstd::set_lib::lemma_len_subset(s.to_set(), node_range(n));
}

/// The skills that `start` depends on, directly or transitively, each once, in
/// the order of a depth-first search.
/// One turn of the depth-first search: each node of `nbrs`, in order, that is
/// not yet in `found` is appended to `found` and pushed on the stack.
pub open spec fn dfs_visit(nbrs: Seq<nat>, stack: Seq<nat>, found: Seq<nat>) -> (Seq<nat>, Seq<nat>)
    decreases nbrs.len(),
{
    if nbrs.len() == 0 {
        (stack, found)
    } else {
        let (s, f) = dfs_visit(nbrs.drop_last(), stack, found);
        if f.contains(nbrs.last()) {
            (s, f)
        } else {
            (s.push(nbrs.last()), f.push(nbrs.last()))
        }
    }
}

/// The nodes found by a depth-first search that starts from this stack and
/// these found nodes and takes at most `fuel` nodes off the stack: each turn
/// takes the last node off the stack and visits its outgoing neighbors, the
/// most recently added edge first.
pub open spec fn dfs_run(edges: Seq<(nat, nat)>, stack: Seq<nat>, found: Seq<nat>, fuel: nat) -> Seq<nat>
    decreases fuel,
{
    if fuel == 0 || stack.len() == 0 {
        found
    } else {
        let (s, f) = dfs_visit(
            neighbors_spec(edges, stack.last(), EdgeDirection::Outgoing),
            stack.drop_last(),
            found,
        );
        dfs_run(edges, s, f, (fuel - 1) as nat)
    }
}

/// The skills that node `start` depends on, in the order in which a
/// depth-first search from `start` finds them (a graph of `node_count` nodes
/// never needs more than `node_count + 1` turns).
pub open spec fn dependency_order(edges: Seq<(nat, nat)>, node_count: nat, start: nat) -> Seq<nat> {
    dfs_run(edges, seq![start], seq![], node_count + 1)
}

fn transitive_dependencies(graph: &SkillGraph, start: usize) -> (r: Vec<usize>)
    requires
        start < graph.nodes().len(),
    ensures
        index_seq(r@).no_duplicates(),
        forall|j: int| 0 <= j < r@.len() ==> (#[trigger] r@[j]) < graph.nodes().len(),
        forall|x: nat| index_seq(r@).contains(x) <==> depends_on(graph.edges(), start as nat, x),
        index_seq(r@) == dependency_order(graph.edges(), graph.nodes().len(), start as nat),
{
    let n = graph.node_count();
    let ghost mut fuel: nat = (n + 1) as nat;
    let ghost edges = graph.edges();
    let mut visited: Vec<bool> = vec![false; n];
    let mut stack: Vec<usize> = vec![start];
    let mut result: Vec<usize> = Vec::new();
    assert(index_seq(stack@)[0] == start);
    assert(index_seq(stack@) =~= seq![start as nat]);
    assert(index_seq(result@) =~= Seq::<nat>::empty());
    while stack.len() > 0
        invariant
            dfs_run(edges, index_seq(stack@), index_seq(result@), fuel) == dependency_order(edges, n as nat, start as nat),
            fuel + result@.len() == stack@.len() + n,
            n == graph.nodes().len(),
            edges == graph.edges(),
            crate::graph::graph_wf(graph.nodes(), edges),
            start < n,
            visited@.len() == n,
            forall|v: int| 0 <= v < n ==> (visited@[v] <==> index_seq(result@).contains(v as nat)),
            index_seq(result@).no_duplicates(),
            forall|j: int| 0 <= j < result@.len() ==> (#[trigger] result@[j]) < n,
            forall|j: int| 0 <= j < stack@.len() ==> (#[trigger] stack@[j]) < n,
            forall|j: int| 0 <= j < result@.len() ==> depends_on(edges, start as nat, #[trigger] index_seq(result@)[j]),
            forall|j: int| 0 <= j < stack@.len() ==> (#[trigger] stack@[j]) == start || index_seq(result@).contains(stack@[j] as nat),
            forall|u: nat, w: nat|
                (u == start || index_seq(result@).contains(u)) && !index_seq(stack@).contains(u)
                    && #[trigger] has_edge(edges, u, w) ==> index_seq(result@).contains(w),
        decreases 2 * (n - result@.len()) + stack@.len(),
    {
        proof {
            lemma_distinct_nodes_bound(index_seq(result@), n as nat);
        }
        let ghost old_stack = stack@;
        let ghost found0 = index_seq(result@);
        assert(fuel > 0);
        let cur = stack.pop().unwrap();
        let ghost stack0 = index_seq(stack@);
        assert(index_seq(old_stack).last() == cur as nat);
        assert(index_seq(old_stack).drop_last() =~= stack0);
        assert(old_stack == stack@.push(cur));
        assert(cur == start || index_seq(result@).contains(cur as nat)) by {
            assert(old_stack[old_stack.len() - 1] == cur);
        }
        proof {
            assert forall|u: nat| !index_seq(stack@).contains(u) && u != cur implies !index_seq(old_stack).contains(u) by {
                if index_seq(old_stack).contains(u) {
                    let j = choose|j: int| 0 <= j < index_seq(old_stack).len() && index_seq(old_stack)[j] == u;
                    assert(j < stack@.len());
                    assert(index_seq(stack@)[j] == u);
                }
            }
        }
        let nbrs = graph.neighbors(cur, EdgeDirection::Outgoing);
        let ghost res_len0 = result@.len();
        let m = nbrs.len();
        let mut k: usize = 0;
        proof {
            lemma_neighbors_spec(edges, cur as nat, EdgeDirection::Outgoing);
            assert forall|j: int| 0 <= j < m implies (#[trigger] nbrs@[j]) < n by {
                assert(index_seq(nbrs@)[j] == nbrs@[j]);
                assert(has_edge(edges, cur as nat, nbrs@[j] as nat));
                let e = choose|e: int| 0 <= e < edges.len() && edges[e] == (cur as nat, nbrs@[j] as nat);
                assert(edges[e].1 < n);
            }
        }
        while k < m
            invariant
                (index_seq(stack@), index_seq(result@)) == dfs_visit(index_seq(nbrs@).take(k as int), stack0, found0),
                stack@.len() + found0.len() == stack0.len() + result@.len(),
                n == graph.nodes().len(),
                edges == graph.edges(),
                crate::graph::graph_wf(graph.nodes(), edges),
                start < n,
                cur < n,
                cur == start || index_seq(result@).contains(cur as nat),
                m == nbrs@.len(),
                index_seq(nbrs@) == neighbors_spec(edges, cur as nat, EdgeDirection::Outgoing),
                forall|j: int| 0 <= j < m ==> (#[trigger] nbrs@[j]) < n,
                k <= m,
                visited@.len() == n,
                forall|v: int| 0 <= v < n ==> (visited@[v] <==> index_seq(result@).contains(v as nat)),
                index_seq(result@).no_duplicates(),
                forall|j: int| 0 <= j < result@.len() ==> (#[trigger] result@[j]) < n,
                forall|j: int| 0 <= j < stack@.len() ==> (#[trigger] stack@[j]) < n,
                forall|j: int| 0 <= j < result@.len() ==> depends_on(edges, start as nat, #[trigger] index_seq(result@)[j]),
                forall|j: int| 0 <= j < stack@.len() ==> (#[trigger] stack@[j]) == start || index_seq(result@).contains(stack@[j] as nat),
                forall|u: nat, w: nat|
                    (u == start || index_seq(result@).contains(u)) && !index_seq(stack@).contains(u)
                        && u != cur && #[trigger] has_edge(edges, u, w) ==> index_seq(result@).contains(w),
                forall|j: int| 0 <= j < k ==> index_seq(result@).contains(#[trigger] nbrs@[j] as nat),
                result@.len() <= n,
                2 * (n - result@.len()) + stack@.len() <= 2 * (n - res_len0) + old_stack.len() - 1,
            decreases m - k,
        {
            let w = nbrs[k];
            proof {
                let t = index_seq(nbrs@).take(k + 1);
                assert(t.drop_last() =~= index_seq(nbrs@).take(k as int));
                assert(t.last() == w as nat);
            }
            if !visited[w] {
                let ghost before = index_seq(result@);
                proof {
                    lemma_neighbors_spec(edges, cur as nat, EdgeDirection::Outgoing);
                    assert(index_seq(nbrs@)[k as int] == w);
                    lemma_depends_on_extend(edges, start as nat, cur as nat, w as nat);
                    lemma_distinct_nodes_bound(before, n as nat);
                    assert(!before.contains(w as nat));
                    assert(index_seq(nbrs@)[k as int] == w);
                    assert(has_edge(edges, cur as nat, w as nat));
                }
                let ghost stack_before = index_seq(stack@);
                visited.set(w, true);
                result.push(w);
                stack.push(w);
                proof {
                    assert(index_seq(stack@) =~= stack_before.push(w as nat));
                    assert(index_seq(stack@)[stack_before.len() as int] == w);
                    assert forall|u: nat| !index_seq(stack@).contains(u) implies !stack_before.contains(u) by {
                        if stack_before.contains(u) {
                            let j = choose|j: int| 0 <= j < stack_before.len() && stack_before[j] == u;
                            assert(index_seq(stack@)[j] == u);
                        }
                    }
                    assert(index_seq(result@) =~= before.push(w as nat));
                    assert forall|x: nat| before.contains(x) implies index_seq(result@).contains(x) by {
                        let j = choose|j: int| 0 <= j < before.len() && before[j] == x;
                        assert(index_seq(result@)[j] == x);
                    }
                    assert(index_seq(result@)[before.len() as int] == w);
                    assert forall|v: int| 0 <= v < n implies (visited@[v] <==> index_seq(result@).contains(v as nat)) by {
                        if index_seq(result@).contains(v as nat) && v != w {
                            let j = choose|j: int| 0 <= j < index_seq(result@).len() && index_seq(result@)[j] == v as nat;
                            assert(j < before.len());
                            assert(before[j] == v);
                        }
                    }
                    assert forall|u: nat, x: nat| (u == start || index_seq(result@).contains(u)) && !index_seq(stack@).contains(u)
                        && u != cur && #[trigger] has_edge(edges, u, x) implies index_seq(result@).contains(x) by {
                        if u != start && !before.contains(u) {
                            assert(u == w);
                        }
                    }
                    lemma_distinct_nodes_bound(index_seq(result@), n as nat);
                }
            } else {
                assert(index_seq(result@).contains(w as nat));
            }
            k = k + 1;
        }
        proof {
            assert(index_seq(nbrs@).take(m as int) =~= index_seq(nbrs@));
            fuel = (fuel - 1) as nat;
        }
        proof {
            assert forall|w: nat| has_edge(edges, cur as nat, w) implies index_seq(result@).contains(w) by {
                assert(index_seq(nbrs@).contains(w));
                let j = choose|j: int| 0 <= j < index_seq(nbrs@).len() && index_seq(nbrs@)[j] == w;
                assert(nbrs@[j] == w);
            }
        }
    }
    proof {
        assert(closed_under(edges, start as nat, index_seq(result@))) by {
            assert forall|u: nat, w: nat| (u == start || index_seq(result@).contains(u)) && #[trigger] has_edge(edges, u, w) implies index_seq(result@).contains(w) by {
                assert(!index_seq(stack@).contains(u));
            }
        }
        assert forall|x: nat| index_seq(result@).contains(x) <==> depends_on(edges, start as nat, x) by {
            if depends_on(edges, start as nat, x) {
                let p = choose|p: Seq<nat>| #[trigger] is_walk(edges, p) && p.len() >= 2 && p[0] == start && p.last() == x;
                lemma_closed_reaches(edges, start as nat, index_seq(result@), p);
            }
            if index_seq(result@).contains(x) {
                let j = choose|j: int| 0 <= j < index_seq(result@).len() && index_seq(result@)[j] == x;
            }
        }
    }
    result
}


/// The skills that the skill named `skill_name` (the last of that name)
/// depends on, directly or transitively, in the order in which a depth-first
/// search finds them (see `dependency_order`): each once, and exactly those it
/// depends on. `None` when no skill has that name.
pub fn query_deps(graph: &SkillGraph, skill_name: &str) -> (r: Option<Vec<String>>)
    ensures
        r is Some <==> node_names(graph.nodes()).contains(skill_name@),
        r is Some ==> r.unwrap()@.map_values(|s: String| s@) == names_at(
            node_names(graph.nodes()),
            dependency_order(graph.edges(), graph.nodes().len(), node_for(node_names(graph.nodes()), skill_name@)),
        ),
        r is Some ==> dependency_order(
            graph.edges(),
            graph.nodes().len(),
            node_for(node_names(graph.nodes()), skill_name@),
        ).no_duplicates(),
        r is Some ==> forall|x: nat|
            #[trigger] dependency_order(
                graph.edges(),
                graph.nodes().len(),
                node_for(node_names(graph.nodes()), skill_name@),
            ).contains(x) <==> depends_on(graph.edges(), node_for(node_names(graph.nodes()), skill_name@), x),
{
    proof {
        lemma_last_index_of(node_names(graph.nodes()), skill_name@);
    }
    match graph.node_index(skill_name) {
        None => None,
        Some(i) => {
            let deps = transitive_dependencies(graph, i);
            let names = names_of(graph, &deps);
            assert(names@.map_values(|s: String| s@) == names_at(node_names(graph.nodes()), index_seq(deps@)));
            Some(names)
        },
    }
}


/// The two skills are joined by an edge, in either direction.
pub open spec fn linked(edges: Seq<(nat, nat)>, a: nat, b: nat) -> bool {
    has_edge(edges, a, b) || has_edge(edges, b, a)
}

/// `p` connects `a` to `b` through edges taken in either direction.
pub open spec fn connects(edges: Seq<(nat, nat)>, p: Seq<nat>, a: nat, b: nat) -> bool {
    &&& p.len() > 0
    &&& p[0] == a
    &&& p.last() == b
    &&& forall|i: int| 0 <= i < p.len() - 1 ==> linked(edges, #[trigger] p[i], p[i + 1])
}

/// `p` connects `a` to `b`, and no connection between them has fewer nodes.
pub open spec fn is_shortest_connection(edges: Seq<(nat, nat)>, p: Seq<nat>, a: nat, b: nat) -> bool {
    &&& connects(edges, p, a, b)
    &&& forall|q: Seq<nat>| #[trigger] connects(edges, q, a, b) ==> p.len() <= q.len()
}

/// A connection read backwards connects the two skills the other way round:
/// there is a path from `a` to `b` exactly when there is one from `b` to `a`,
/// and the shortest ones have the same number of skills.
pub proof fn lemma_connects_reverse(edges: Seq<(nat, nat)>, p: Seq<nat>, a: nat, b: nat)
    requires
        connects(edges, p, a, b),
    ensures
        connects(edges, p.reverse(), b, a),
        p.reverse().len() == p.len(),
{
    let q = p.reverse();
    let n = p.len() as int;
    assert(q[0] == p[n - 1]);
    assert(q.last() == p[0]);
    assert forall|i: int| 0 <= i < q.len() - 1 implies linked(edges, #[trigger] q[i], q[i + 1]) by {
        assert(q[i] == p[n - 1 - i] && q[i + 1] == p[n - 2 - i]);
        assert(linked(edges, p[n - 2 - i], p[n - 1 - i]));
    }
}

/// The skills that use a skill directly are those that list it among their
/// direct dependencies: `a` occurs among the incoming neighbors of `b` exactly
/// when `b` occurs among the outgoing neighbors of `a`.
pub proof fn lemma_uses_inverse_of_dependencies(edges: Seq<(nat, nat)>, a: nat, b: nat)
    ensures
        neighbors_spec(edges, b, EdgeDirection::Incoming).contains(a) <==> neighbors_spec(
            edges,
            a,
            EdgeDirection::Outgoing,
        ).contains(b),
{
    lemma_neighbors_spec(edges, b, EdgeDirection::Incoming);
    lemma_neighbors_spec(edges, a, EdgeDirection::Outgoing);
}

pub proof fn lemma_connects_push(edges: Seq<(nat, nat)>, p: Seq<nat>, a: nat, b: nat, w: nat)
    requires
        connects(edges, p, a, b),
        linked(edges, b, w),
    ensures
        connects(edges, p.push(w), a, w),
{
    let q = p.push(w);
    assert forall|i: int| 0 <= i < q.len() - 1 implies linked(edges, #[trigger] q[i], q[i + 1]) by {
        if i < p.len() - 1 {
            assert(q[i] == p[i] && q[i + 1] == p[i + 1]);
        } else {
            assert(q[i] == b && q[i + 1] == w);
        }
    }
}

pub proof fn lemma_connects_prefix(edges: Seq<(nat, nat)>, p: Seq<nat>, a: nat, b: nat)
    requires
        connects(edges, p, a, b),
        p.len() >= 2,
    ensures
        connects(edges, p.drop_last(), a, p[p.len() - 2]),
        linked(edges, p[p.len() - 2], b),
{
    let q = p.drop_last();
    assert forall|i: int| 0 <= i < q.len() - 1 implies linked(edges, #[trigger] q[i], q[i + 1]) by {
        assert(q[i] == p[i] && q[i + 1] == p[i + 1]);
    }
    assert(linked(edges, p[p.len() - 2], p[p.len() - 1]));
}

/// The nodes of a connection that starts at a node of the graph are nodes of the graph.
pub proof fn lemma_connects_within(edges: Seq<(nat, nat)>, n: nat, p: Seq<nat>, a: nat, b: nat)
    requires
        crate::graph::edges_within(edges, n),
        a < n,
        connects(edges, p, a, b),
    ensures
        forall|j: int| 0 <= j < p.len() ==> #[trigger] p[j] < n,
{
    assert forall|j: int| 0 <= j < p.len() implies #[trigger] p[j] < n by {
        if j > 0 {
            assert(linked(edges, p[j - 1], p[j]));
            if has_edge(edges, p[j - 1], p[j]) {
                let e = choose|e: int| 0 <= e < edges.len() && edges[e] == (p[j - 1], p[j]);
                assert(edges[e].1 < n);
            } else {
                let e = choose|e: int| 0 <= e < edges.len() && edges[e] == (p[j], p[j - 1]);
                assert(edges[e].0 < n);
            }
        }
    }
}

/// When the marked nodes include `a` and are closed under edges in either
/// direction, every node connected to `a` is marked.
pub proof fn lemma_closed_connects(edges: Seq<(nat, nat)>, marked: Seq<bool>, a: nat, p: Seq<nat>, b: nat)
    requires
        a < marked.len(),
        marked[a as int],
        forall|u: nat, w: nat|
            u < marked.len() && marked[u as int] && #[trigger] linked(edges, u, w) ==> w < marked.len()
                && marked[w as int],
        connects(edges, p, a, b),
    ensures
        b < marked.len() && marked[b as int],
    decreases p.len(),
{
    if p.len() >= 2 {
        lemma_connects_prefix(edges, p, a, b);
        lemma_closed_connects(edges, marked, a, p.drop_last(), p[p.len() - 2]);
    }
}

/// The nodes joined to `u`, as its outgoing then its incoming neighbors.
fn linked_neighbors(graph: &SkillGraph, u: usize) -> (v: Vec<usize>)
    requires
        u < graph.nodes().len(),
        crate::graph::graph_wf(graph.nodes(), graph.edges()),
    ensures
        index_seq(v@) == neighbors_spec(graph.edges(), u as nat, EdgeDirection::Outgoing) + neighbors_spec(
            graph.edges(),
            u as nat,
            EdgeDirection::Incoming,
        ),
        forall|w: nat| index_seq(v@).contains(w) <==> linked(graph.edges(), u as nat, w),
        forall|j: int| 0 <= j < v@.len() ==> (#[trigger] v@[j]) < graph.nodes().len(),
{
    let mut out = graph.neighbors(u, EdgeDirection::Outgoing);
    let mut inc = graph.neighbors(u, EdgeDirection::Incoming);
    let ghost o = index_seq(out@);
    let ghost i = index_seq(inc@);
    out.append(&mut inc);
    let ghost edges = graph.edges();
    proof {
        assert(index_seq(out@) =~= o + i);
        lemma_neighbors_spec(edges, u as nat, EdgeDirection::Outgoing);
        lemma_neighbors_spec(edges, u as nat, EdgeDirection::Incoming);
        assert forall|w: nat| index_seq(out@).contains(w) <==> linked(edges, u as nat, w) by {
            if index_seq(out@).contains(w) {
                let j = choose|j: int| 0 <= j < index_seq(out@).len() && index_seq(out@)[j] == w;
                if j < o.len() {
                    assert(o[j] == w);
                    assert(o.contains(w));
                } else {
                    assert(i[j - o.len()] == w);
                    assert(i.contains(w));
                }
            }
            if has_edge(edges, u as nat, w) {
                assert(o.contains(w));
                let j = choose|j: int| 0 <= j < o.len() && o[j] == w;
                assert(index_seq(out@)[j] == w);
            } else if has_edge(edges, w, u as nat) {
                assert(i.contains(w));
                let j = choose|j: int| 0 <= j < i.len() && i[j] == w;
                assert(index_seq(out@)[j + o.len()] == w);
            }
        }
        assert forall|j: int| 0 <= j < out@.len() implies (#[trigger] out@[j]) < graph.nodes().len() by {
            let w = index_seq(out@)[j];
            assert(index_seq(out@).contains(w));
            if has_edge(edges, u as nat, w) {
                let e = choose|e: int| 0 <= e < edges.len() && edges[e] == (u as nat, w);
                assert(edges[e].1 < graph.nodes().len());
            } else {
                let e = choose|e: int| 0 <= e < edges.len() && edges[e] == (w, u as nat);
                assert(edges[e].0 < graph.nodes().len());
            }
        }
    }
    out
}

/// A copy of `v` with `w` appended.
fn extended(v: &Vec<usize>, w: usize) -> (r: Vec<usize>)
    ensures
        r@ == v@.push(w),
{
    let mut r: Vec<usize> = Vec::new();
    let n = v.len();
    let mut k: usize = 0;
    while k < n
        invariant
            n == v@.len(),
            k <= n,
            r@ == v@.take(k as int),
        decreases n - k,
    {
        r.push(v[k]);
        k = k + 1;
        assert(r@ =~= v@.take(k as int));
    }
    r.push(w);
    assert(r@ =~= v@.push(w));
    r
}


/// The node sequences held by a sequence of index vectors.
pub open spec fn paths_view(v: Seq<Vec<usize>>) -> Seq<Seq<nat>> {
    v.map_values(|p: Vec<usize>| index_seq(p@))
}

/// The state of the breadth-first search: the queue holds distinct visited
/// nodes, starting with `from`, each with a shortest connection from `from`,
/// by non-decreasing length; every visited node is queued; `to` is not visited.
#[verifier::opaque]
pub open spec fn queue_ok(
    edges: Seq<(nat, nat)>,
    n: nat,
    from: nat,
    to: nat,
    visited: Seq<bool>,
    qn: Seq<nat>,
    qp: Seq<Seq<nat>>,
) -> bool {
    &&& visited.len() == n
    &&& to < n
    &&& qn.len() == qp.len()
    &&& qn.len() > 0
    &&& qn[0] == from
    &&& qn.no_duplicates()
    &&& forall|i: int| 0 <= i < qn.len() ==> #[trigger] qn[i] < n && visited[qn[i] as int]
    &&& forall|v: int| 0 <= v < n && #[trigger] visited[v] ==> qn.contains(v as nat)
    &&& forall|i: int| 0 <= i < qn.len() ==> connects(edges, #[trigger] qp[i], from, qn[i])
    &&& forall|i: int, j: int| 0 <= i <= j < qn.len() ==> (#[trigger] qp[i]).len() <= (#[trigger] qp[j]).len()
    &&& forall|i: int, q: Seq<nat>|
        0 <= i < qn.len() && #[trigger] connects(edges, q, from, qn[i]) ==> qp[i].len() <= q.len()
    &&& !visited[to as int]
}

/// The neighbors of the first `h` queued nodes have all been visited.
#[verifier::opaque]
pub open spec fn processed(edges: Seq<(nat, nat)>, n: nat, visited: Seq<bool>, qn: Seq<nat>, h: int) -> bool {
    forall|i: int, w: nat| 0 <= i < h && #[trigger] linked(edges, qn[i], w) ==> w < n && visited[w as int]
}

/// Every node with a connection from `from` of at most `len` nodes is visited.
#[verifier::opaque]
pub open spec fn short_visited(edges: Seq<(nat, nat)>, n: nat, from: nat, visited: Seq<bool>, len: nat) -> bool {
    forall|x: nat, q: Seq<nat>| #[trigger] connects(edges, q, from, x) && q.len() <= len ==> x < n && visited[x as int]
}

/// The connections queued from position `h` on have at most `bound` nodes.
#[verifier::opaque]
pub open spec fn tail_bounded(qp: Seq<Seq<nat>>, h: int, bound: nat) -> bool {
    forall|j: int| h <= j < qp.len() ==> (#[trigger] qp[j]).len() <= bound
}

pub proof fn lemma_bfs_start(edges: Seq<(nat, nat)>, n: nat, from: nat, to: nat, visited: Seq<bool>)
    requires
        from < n,
        to < n,
        from != to,
        visited.len() == n,
        forall|v: int| 0 <= v < n ==> visited[v] == (v == from),
    ensures
        queue_ok(edges, n, from, to, visited, seq![from], seq![seq![from]]),
        processed(edges, n, visited, seq![from], 0),
        short_visited(edges, n, from, visited, 1),
        tail_bounded(seq![seq![from]], 0, 2),
{
    reveal(queue_ok);
    reveal(processed);
    reveal(short_visited);
    reveal(tail_bounded);
    let qn = seq![from];
    let qp = seq![seq![from]];
    assert forall|v: int| 0 <= v < n && #[trigger] visited[v] implies qn.contains(v as nat) by {
        assert(qn[0] == v);
    }
    assert forall|i: int, q: Seq<nat>| 0 <= i < qn.len() && #[trigger] connects(edges, q, from, qn[i]) implies qp[i].len() <= q.len() by {}
    assert forall|i: int| 0 <= i < qn.len() implies connects(edges, #[trigger] qp[i], from, qn[i]) by {
        assert(qp[i] =~= seq![from]);
    }
}

/// Visiting a new neighbor `w` of the node at `h` keeps the search state.
pub proof fn lemma_bfs_push(
    edges: Seq<(nat, nat)>,
    n: nat,
    from: nat,
    to: nat,
    visited: Seq<bool>,
    qn: Seq<nat>,
    qp: Seq<Seq<nat>>,
    h: int,
    w: nat,
)
    requires
        queue_ok(edges, n, from, to, visited, qn, qp),
        processed(edges, n, visited, qn, h),
        0 <= h < qn.len(),
        short_visited(edges, n, from, visited, qp[h].len()),
        tail_bounded(qp, h, qp[h].len() + 1),
        w < n,
        !visited[w as int],
        w != to,
        linked(edges, qn[h], w),
    ensures
        queue_ok(edges, n, from, to, visited.update(w as int, true), qn.push(w), qp.push(qp[h].push(w))),
        processed(edges, n, visited.update(w as int, true), qn.push(w), h),
        short_visited(edges, n, from, visited.update(w as int, true), qp[h].len()),
        tail_bounded(qp.push(qp[h].push(w)), h, qp[h].len() + 1),
        connects(edges, qp[h].push(w), from, w),
        forall|q: Seq<nat>| #[trigger] connects(edges, q, from, w) ==> qp[h].len() + 1 <= q.len(),
{
    reveal(queue_ok);
    reveal(processed);
    reveal(short_visited);
    reveal(tail_bounded);
    let v2 = visited.update(w as int, true);
    let qn2 = qn.push(w);
    let p = qp[h].push(w);
    let qp2 = qp.push(p);
    let lh = qp[h].len();
    assert(connects(edges, qp[h], from, qn[h]));
    lemma_connects_push(edges, qp[h], from, qn[h], w);
    assert forall|q: Seq<nat>| #[trigger] connects(edges, q, from, w) implies lh + 1 <= q.len() by {
        if q.len() <= lh {
            assert(visited[w as int]);
        }
    }
    assert(!qn.contains(w)) by {
        if qn.contains(w) {
            let i = choose|i: int| 0 <= i < qn.len() && qn[i] == w;
            assert(visited[qn[i] as int]);
        }
    }
    assert(qn2.no_duplicates()) by {
        assert forall|i: int, j: int| 0 <= i < qn2.len() && 0 <= j < qn2.len() && i != j implies qn2[i] != qn2[j] by {
            if i < qn.len() && j < qn.len() {
                assert(qn2[i] == qn[i] && qn2[j] == qn[j]);
            } else if i < qn.len() {
                assert(qn2[i] == qn[i]);
                assert(qn.contains(qn[i]));
            } else if j < qn.len() {
                assert(qn2[j] == qn[j]);
                assert(qn.contains(qn[j]));
            }
        }
    }
    assert forall|i: int| 0 <= i < qn2.len() implies #[trigger] qn2[i] < n && v2[qn2[i] as int] by {
        if i < qn.len() {
            assert(qn2[i] == qn[i]);
            assert(visited[qn[i] as int]);
        }
    }
    assert forall|v: int| 0 <= v < n && #[trigger] v2[v] implies qn2.contains(v as nat) by {
        if v == w {
            assert(qn2[qn.len() as int] == w);
        } else {
            assert(visited[v]);
            let i = choose|i: int| 0 <= i < qn.len() && qn[i] == v;
            assert(qn2[i] == v);
        }
    }
    assert forall|i: int| 0 <= i < qn2.len() implies connects(edges, #[trigger] qp2[i], from, qn2[i]) by {
        if i < qn.len() {
            assert(qp2[i] == qp[i] && qn2[i] == qn[i]);
        }
    }
    assert forall|i: int, j: int| 0 <= i <= j < qn2.len() implies (#[trigger] qp2[i]).len() <= (#[trigger] qp2[j]).len() by {
        if j < qn.len() {
            assert(qp2[i] == qp[i] && qp2[j] == qp[j]);
        } else if i < qn.len() {
            assert(qp2[i] == qp[i]);
            if i >= h {
                assert(qp[i].len() <= lh + 1);
            } else {
                assert(qp[i].len() <= qp[h].len());
            }
        }
    }
    assert forall|i: int, q: Seq<nat>| 0 <= i < qn2.len() && #[trigger] connects(edges, q, from, qn2[i]) implies qp2[i].len() <= q.len() by {
        if i < qn.len() {
            assert(qp2[i] == qp[i] && qn2[i] == qn[i]);
        }
    }
    assert forall|i: int, x: nat| 0 <= i < h && #[trigger] linked(edges, qn2[i], x) implies x < n && v2[x as int] by {
        assert(qn2[i] == qn[i]);
    }
    assert forall|j: int| h <= j < qp2.len() implies (#[trigger] qp2[j]).len() <= lh + 1 by {
        if j < qp.len() {
            assert(qp2[j] == qp[j]);
        }
    }
}

/// Once every neighbor of the node at `h` is visited, the search moves on to `h + 1`.
pub proof fn lemma_bfs_advance(
    edges: Seq<(nat, nat)>,
    n: nat,
    from: nat,
    to: nat,
    visited: Seq<bool>,
    qn: Seq<nat>,
    qp: Seq<Seq<nat>>,
    h: int,
)
    requires
        queue_ok(edges, n, from, to, visited, qn, qp),
        processed(edges, n, visited, qn, h),
        0 <= h < qn.len(),
        forall|w: nat| #[trigger] linked(edges, qn[h], w) ==> w < n && visited[w as int],
        short_visited(edges, n, from, visited, qp[h].len()),
        tail_bounded(qp, h, qp[h].len() + 1),
    ensures
        processed(edges, n, visited, qn, h + 1),
        h + 1 < qn.len() ==> short_visited(edges, n, from, visited, qp[h + 1].len()),
        h + 1 < qn.len() ==> tail_bounded(qp, h + 1, qp[h + 1].len() + 1),
{
    reveal(queue_ok);
    reveal(processed);
    reveal(short_visited);
    reveal(tail_bounded);
    assert forall|i: int, w: nat| 0 <= i < h + 1 && #[trigger] linked(edges, qn[i], w) implies w < n && visited[w as int] by {
        if i < h {
        }
    }
    if h + 1 < qn.len() {
        let lh = qp[h].len();
        let lh1 = qp[h + 1].len();
        assert(lh <= lh1 <= lh + 1);
        assert(lh >= 1) by {
            assert(connects(edges, qp[h], from, qn[h]));
        }
        assert forall|x: nat, q: Seq<nat>| #[trigger] connects(edges, q, from, x) && q.len() <= lh1 implies x < n && visited[x as int] by {
            if q.len() > lh {
                lemma_connects_prefix(edges, q, from, x);
                let y = q[q.len() - 2];
                assert(y < n && visited[y as int]);
                let i = choose|i: int| 0 <= i < qn.len() && qn[i] == y;
                assert(qp[i].len() <= q.drop_last().len());
                if i > h {
                    assert(qp[h + 1].len() <= qp[i].len());
                }
                assert(linked(edges, qn[i], x));
            }
        }
        assert forall|j: int| h + 1 <= j < qp.len() implies (#[trigger] qp[j]).len() <= lh1 + 1 by {
            assert(qp[j].len() <= lh + 1);
        }
    }
}

/// With the queue exhausted, `to` is not connected to `from`.
pub proof fn lemma_bfs_done(
    edges: Seq<(nat, nat)>,
    n: nat,
    from: nat,
    to: nat,
    visited: Seq<bool>,
    qn: Seq<nat>,
    qp: Seq<Seq<nat>>,
)
    requires
        queue_ok(edges, n, from, to, visited, qn, qp),
        processed(edges, n, visited, qn, qn.len() as int),
    ensures
        forall|q: Seq<nat>| !connects(edges, q, from, to),
{
    reveal(queue_ok);
    reveal(processed);
    assert forall|x: nat, y: nat| x < visited.len() && visited[x as int] && #[trigger] linked(edges, x, y) implies y < visited.len() && visited[y as int] by {
        let i = choose|i: int| 0 <= i < qn.len() && qn[i] == x;
    }
    assert forall|q: Seq<nat>| !connects(edges, q, from, to) by {
        if connects(edges, q, from, to) {
            assert(visited[qn[0] as int]);
            lemma_closed_connects(edges, visited, from, q, to);
        }
    }
}

/// One turn of the breadth-first search from the queued node whose connection
/// is `path`: each node of `nbrs`, in order, that is not yet queued is queued
/// with `path` extended by it, until `to` comes up, whose connection is then
/// found.
pub open spec fn bfs_visit(nbrs: Seq<nat>, to: nat, path: Seq<nat>, qn: Seq<nat>, qp: Seq<Seq<nat>>) -> (
    Option<Seq<nat>>,
    Seq<nat>,
    Seq<Seq<nat>>,
)
    decreases nbrs.len(),
{
    if nbrs.len() == 0 {
        (None, qn, qp)
    } else {
        let (found, q1, p1) = bfs_visit(nbrs.drop_last(), to, path, qn, qp);
        let w = nbrs.last();
        if found is Some || q1.contains(w) {
            (found, q1, p1)
        } else if w == to {
            (Some(path.push(w)), q1, p1)
        } else {
            (None, q1.push(w), p1.push(path.push(w)))
        }
    }
}

/// The connection that the breadth-first search finds from the queue `qn`
/// (with connections `qp`) at position `h`, taking at most `fuel` turns: each
/// turn visits the outgoing, then the incoming neighbors of the next queued
/// node, the most recently added edge first.
pub open spec fn bfs_run(edges: Seq<(nat, nat)>, to: nat, qn: Seq<nat>, qp: Seq<Seq<nat>>, h: nat, fuel: nat) -> Option<
    Seq<nat>,
>
    decreases fuel,
{
    if fuel == 0 || h >= qn.len() {
        None
    } else {
        let nbrs = neighbors_spec(edges, qn[h as int], EdgeDirection::Outgoing) + neighbors_spec(
            edges,
            qn[h as int],
            EdgeDirection::Incoming,
        );
        let (found, q1, p1) = bfs_visit(nbrs, to, qp[h as int], qn, qp);
        match found {
            Some(p) => Some(p),
            None => bfs_run(edges, to, q1, p1, h + 1, (fuel - 1) as nat),
        }
    }
}

/// The connection from `from` to `to` that the breadth-first search finds in
/// a graph of `node_count` nodes (which never needs more than `node_count` turns).
pub open spec fn bfs_path(edges: Seq<(nat, nat)>, node_count: nat, from: nat, to: nat) -> Option<Seq<nat>> {
    bfs_run(edges, to, seq![from], seq![seq![from]], 0, node_count)
}

/// Once a turn has found the connection on a prefix of the neighbors, the
/// whole turn finds that connection.
pub proof fn lemma_bfs_visit_found(nbrs: Seq<nat>, to: nat, path: Seq<nat>, qn: Seq<nat>, qp: Seq<Seq<nat>>, j: int)
    requires
        0 <= j <= nbrs.len(),
        bfs_visit(nbrs.take(j), to, path, qn, qp).0 is Some,
    ensures
        bfs_visit(nbrs, to, path, qn, qp).0 == bfs_visit(nbrs.take(j), to, path, qn, qp).0,
    decreases nbrs.len() - j,
{
    if j < nbrs.len() {
        assert(nbrs.drop_last().take(j) =~= nbrs.take(j));
        lemma_bfs_visit_found(nbrs.drop_last(), to, path, qn, qp, j);
    } else {
        assert(nbrs.take(j) =~= nbrs);
    }
}

/// A shortest connection from `from` to `to` through edges taken in either
/// direction, found by breadth-first search over each node's outgoing then
/// incoming neighbors; `None` when they are not connected.
fn shortest_connection(graph: &SkillGraph, from: usize, to: usize) -> (r: Option<Vec<usize>>)
    requires
        from < graph.nodes().len(),
        to < graph.nodes().len(),
        from != to,
    ensures
        r is Some ==> is_shortest_connection(graph.edges(), index_seq(r.unwrap()@), from as nat, to as nat),
        r is Some ==> forall|j: int| 0 <= j < r.unwrap()@.len() ==> (#[trigger] r.unwrap()@[j]) < graph.nodes().len(),
        r is None ==> forall|q: Seq<nat>| !connects(graph.edges(), q, from as nat, to as nat),
        r is Some <==> bfs_path(graph.edges(), graph.nodes().len(), from as nat, to as nat) is Some,
        r is Some ==> index_seq(r.unwrap()@) == bfs_path(graph.edges(), graph.nodes().len(), from as nat, to as nat).unwrap(),
{
    let n = graph.node_count();
    let ghost mut fuel: nat = n as nat;
    let ghost edges = graph.edges();
    let mut visited: Vec<bool> = vec![false; n];
    let mut qn: Vec<usize> = Vec::new();
    let mut qp: Vec<Vec<usize>> = Vec::new();
    visited.set(from, true);
    qn.push(from);
    let mut first: Vec<usize> = Vec::new();
    first.push(from);
    qp.push(first);
    let mut h: usize = 0;
    proof {
        assert(index_seq(qn@) =~= seq![from as nat]);
        assert(index_seq(qp@[0]@) =~= seq![from as nat]);
        assert(paths_view(qp@) =~= seq![seq![from as nat]]);
        lemma_bfs_start(edges, n as nat, from as nat, to as nat, visited@);
    }
    while h < qn.len()
        invariant
            bfs_run(edges, to as nat, index_seq(qn@), paths_view(qp@), h as nat, fuel) == bfs_path(
                edges,
                n as nat,
                from as nat,
                to as nat,
            ),
            fuel + h == n,
            n == graph.nodes().len(),
            edges == graph.edges(),
            crate::graph::graph_wf(graph.nodes(), edges),
            from < n,
            to < n,
            from != to,
            h <= qn@.len(),
            qn@.len() == qp@.len(),
            queue_ok(edges, n as nat, from as nat, to as nat, visited@, index_seq(qn@), paths_view(qp@)),
            processed(edges, n as nat, visited@, index_seq(qn@), h as int),
            h < qn@.len() ==> short_visited(edges, n as nat, from as nat, visited@, paths_view(qp@)[h as int].len()),
            h < qn@.len() ==> tail_bounded(paths_view(qp@), h as int, paths_view(qp@)[h as int].len() + 1),
        decreases n - h,
    {
        proof {
            reveal(queue_ok);
        }
        let u = qn[h];
        assert(index_seq(qn@)[h as int] == u);
        let nbrs = linked_neighbors(graph, u);
        let m = nbrs.len();
        let mut k: usize = 0;
        let ghost lh = paths_view(qp@)[h as int].len();
        let ghost ph = paths_view(qp@)[h as int];
        let ghost qn_start = index_seq(qn@);
        let ghost qp_start = paths_view(qp@);
        proof {
            reveal(queue_ok);
            lemma_distinct_nodes_bound(index_seq(qn@), n as nat);
            assert(fuel > 0);
            assert(index_seq(nbrs@).take(0) =~= Seq::<nat>::empty());
        }
        while k < m
            invariant
                bfs_visit(index_seq(nbrs@).take(k as int), to as nat, ph, qn_start, qp_start) == (
                    None::<Seq<nat>>,
                    index_seq(qn@),
                    paths_view(qp@),
                ),
                index_seq(nbrs@) == neighbors_spec(edges, u as nat, EdgeDirection::Outgoing) + neighbors_spec(
                    edges,
                    u as nat,
                    EdgeDirection::Incoming,
                ),
                qn_start.len() == h + 1 || qn_start.len() > h,
                qn_start[h as int] == u,
                qp_start[h as int] == ph,
                bfs_run(edges, to as nat, qn_start, qp_start, h as nat, fuel) == bfs_path(
                    edges,
                    n as nat,
                    from as nat,
                    to as nat,
                ),
                fuel > 0,
                n == graph.nodes().len(),
                edges == graph.edges(),
                crate::graph::graph_wf(graph.nodes(), edges),
                from < n,
                to < n,
                from != to,
                h < qn@.len(),
                qn@.len() == qp@.len(),
                u == qn@[h as int],
                ph == paths_view(qp@)[h as int],
                lh == ph.len(),
                m == nbrs@.len(),
                k <= m,
                forall|w: nat| index_seq(nbrs@).contains(w) <==> linked(edges, u as nat, w),
                forall|j: int| 0 <= j < nbrs@.len() ==> (#[trigger] nbrs@[j]) < n,
                forall|j: int| 0 <= j < k ==> visited@[#[trigger] nbrs@[j] as int],
                visited@.len() == n,
                queue_ok(edges, n as nat, from as nat, to as nat, visited@, index_seq(qn@), paths_view(qp@)),
                processed(edges, n as nat, visited@, index_seq(qn@), h as int),
                short_visited(edges, n as nat, from as nat, visited@, lh),
                tail_bounded(paths_view(qp@), h as int, lh + 1),
            decreases m - k,
        {
            let w = nbrs[k];
            proof {
                reveal(queue_ok);
                let t = index_seq(nbrs@).take(k + 1);
                assert(t.drop_last() =~= index_seq(nbrs@).take(k as int));
                assert(t.last() == w as nat);
                if visited@[w as int] {
                    assert(index_seq(qn@).contains(w as nat));
                } else if index_seq(qn@).contains(w as nat) {
                    let i = choose|i: int| 0 <= i < index_seq(qn@).len() && index_seq(qn@)[i] == w as nat;
                    assert(visited@[index_seq(qn@)[i] as int]);
                }
            }
            if !visited[w] {
                let ghost qn0 = index_seq(qn@);
                let ghost qp0 = paths_view(qp@);
                let ghost vis0 = visited@;
                let next = extended(&qp[h], w);
                proof {
                    assert(index_seq(nbrs@)[k as int] == w);
                    assert(index_seq(nbrs@).contains(w as nat));
                    assert(qp0[h as int] == index_seq(qp@[h as int]@));
                    assert(index_seq(next@) =~= ph.push(w as nat));
                }
                if w == to {
                    proof {
                        reveal(queue_ok);
                        reveal(short_visited);
                        assert(connects(edges, ph, from as nat, u as nat));
                        lemma_connects_push(edges, ph, from as nat, u as nat, w as nat);
                        assert forall|q: Seq<nat>| #[trigger] connects(edges, q, from as nat, to as nat) implies index_seq(next@).len() <= q.len() by {
                            if q.len() <= lh {
                                assert(vis0[to as int]);
                            }
                        }
                        lemma_connects_within(edges, n as nat, index_seq(next@), from as nat, w as nat);
                        assert forall|j: int| 0 <= j < next@.len() implies (#[trigger] next@[j]) < n by {
                            assert(index_seq(next@)[j] == next@[j]);
                        }
                        lemma_bfs_visit_found(index_seq(nbrs@), to as nat, ph, qn_start, qp_start, k + 1);
                    }
                    return Some(next);
                }
                proof {
                    lemma_bfs_push(edges, n as nat, from as nat, to as nat, vis0, qn0, qp0, h as int, w as nat);
                }
                visited.set(w, true);
                qn.push(w);
                qp.push(next);
                proof {
                    assert(visited@ == vis0.update(w as int, true));
                    assert(index_seq(qn@) =~= qn0.push(w as nat));
                    assert(paths_view(qp@) =~= qp0.push(ph.push(w as nat)));
                }
            }
            k = k + 1;
        }
        proof {
            assert(index_seq(nbrs@).take(m as int) =~= index_seq(nbrs@));
            fuel = (fuel - 1) as nat;
            assert forall|w: nat| #[trigger] linked(edges, index_seq(qn@)[h as int], w) implies w < n && visited@[w as int] by {
                assert(index_seq(nbrs@).contains(w));
                let j = choose|j: int| 0 <= j < index_seq(nbrs@).len() && index_seq(nbrs@)[j] == w;
                assert(nbrs@[j] == w);
            }
            lemma_bfs_advance(edges, n as nat, from as nat, to as nat, visited@, index_seq(qn@), paths_view(qp@), h as int);
            reveal(queue_ok);
            lemma_distinct_nodes_bound(index_seq(qn@), n as nat);
        }
        h = h + 1;
    }
    proof {
        lemma_bfs_done(edges, n as nat, from as nat, to as nat, visited@, index_seq(qn@), paths_view(qp@));
    }
    None
}


/// The nodes that the path query gives between nodes `a` and `b`: `[a]` when
/// they are the same node, else the connection the breadth-first search finds.
pub open spec fn path_between(edges: Seq<(nat, nat)>, node_count: nat, a: nat, b: nat) -> Option<Seq<nat>> {
    if a == b {
        Some(seq![a])
    } else {
        bfs_path(edges, node_count, a, b)
    }
}

/// A shortest path between the skills named `from` and `to` (the last of each
/// name), following dependencies in either direction: the one the
/// breadth-first search finds (see `path_between`); `[from]` when both name
/// the same skill; `None` when either name is unknown or the two are not
/// connected.
pub fn query_path(graph: &SkillGraph, from: &str, to: &str) -> (r: Option<Vec<String>>)
    ensures
        r is Some <==> {
            &&& node_names(graph.nodes()).contains(from@)
            &&& node_names(graph.nodes()).contains(to@)
            &&& exists|q: Seq<nat>|
                #[trigger] connects(
                    graph.edges(),
                    q,
                    node_for(node_names(graph.nodes()), from@),
                    node_for(node_names(graph.nodes()), to@),
                )
        },
        r is Some ==> path_between(
            graph.edges(),
            graph.nodes().len(),
            node_for(node_names(graph.nodes()), from@),
            node_for(node_names(graph.nodes()), to@),
        ) is Some,
        r is Some ==> r.unwrap()@.map_values(|s: String| s@) == names_at(
            node_names(graph.nodes()),
            path_between(
                graph.edges(),
                graph.nodes().len(),
                node_for(node_names(graph.nodes()), from@),
                node_for(node_names(graph.nodes()), to@),
            ).unwrap(),
        ),
        r is Some ==> is_shortest_connection(
            graph.edges(),
            path_between(
                graph.edges(),
                graph.nodes().len(),
                node_for(node_names(graph.nodes()), from@),
                node_for(node_names(graph.nodes()), to@),
            ).unwrap(),
            node_for(node_names(graph.nodes()), from@),
            node_for(node_names(graph.nodes()), to@),
        ),
{
    let ghost names = node_names(graph.nodes());
    proof {
        lemma_last_index_of(names, from@);
        lemma_last_index_of(names, to@);
    }
    let a = match graph.node_index(from) {
        Some(a) => a,
        None => return None,
    };
    let b = match graph.node_index(to) {
        Some(b) => b,
        None => return None,
    };
    if a == b {
        let mut single: Vec<String> = Vec::new();
        single.push(String::from_str(from));
        proof {
            let p = seq![a as nat];
            assert(node_for(names, from@) == a && node_for(names, to@) == b);
            assert(connects(graph.edges(), p, node_for(names, from@), node_for(names, to@)));
            assert(single@.map_values(|s: String| s@) =~= names_at(names, p));
            assert(path_between(graph.edges(), graph.nodes().len(), a as nat, b as nat) == Some(p));
            assert forall|q: Seq<nat>| #[trigger] connects(graph.edges(), q, a as nat, b as nat) implies p.len() <= q.len() by {}
        }
        return Some(single);
    }
    match shortest_connection(graph, a, b) {
        None => {
            assert(node_for(names, from@) == a && node_for(names, to@) == b);
            None
        },
        Some(ix) => {
            let path = names_of(graph, &ix);
            proof {
                assert(node_for(names, from@) == a && node_for(names, to@) == b);
                assert(connects(graph.edges(), index_seq(ix@), node_for(names, from@), node_for(names, to@)));
                assert(path_between(graph.edges(), graph.nodes().len(), a as nat, b as nat) == Some(index_seq(ix@)));
            }
            Some(path)
        },
    }
}

} // verus!
