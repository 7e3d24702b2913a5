//! The skill graph as Cypher statements.
use vstd::prelude::*;
use crate::graph::{SkillGraph, node_names};
use crate::text::{concat, lemma_concat_take, push_chars, push_str, replace_all, replace_str, string_of};

verus! {

/// The statement that creates one skill, its description with each `'`
/// written `\'`.
pub open spec fn cypher_node_line(node: (Seq<char>, Seq<char>)) -> Seq<char> {
    "CREATE (:Skill {name: '"@ + node.0 + "', description: '"@ + replace_all(node.1, "'"@, "\\'"@)
        + "'});\n"@
}

/// The statement that creates one dependency.
pub open spec fn cypher_edge_line(names: Seq<Seq<char>>, e: (nat, nat)) -> Seq<char> {
    "MATCH (a:Skill {name: '"@ + names[e.0 as int] + "'}), (b:Skill {name: '"@ + names[e.1 as int]
        + "'}) CREATE (a)-[:DEPENDS_ON]->(b);\n"@
}

/// The Cypher text of a graph: one statement per skill in node order, a blank
/// line when there are both skills and dependencies, then one statement per
/// edge in edge order.
pub open spec fn cypher_text(nodes: Seq<(Seq<char>, Seq<char>)>, edges: Seq<(nat, nat)>) -> Seq<char> {
    concat(nodes.map_values(|n: (Seq<char>, Seq<char>)| cypher_node_line(n)))
        + (if nodes.len() > 0 && edges.len() > 0 { "\n"@ } else { seq![] })
        + concat(edges.map_values(|e: (nat, nat)| cypher_edge_line(node_names(nodes), e)))
}

/// The Cypher text of a graph is, for the `i`-th skill in node order, the
/// statement that creates it with its name and description (each `'` written
/// `\'`); a blank line when there are both skills and edges; then for the
/// `k`-th edge `(a, b)`, in edge order, the statement that makes `a`'s skill
/// depend on `b`'s.
pub proof fn lemma_cypher_lines(nodes: Seq<(Seq<char>, Seq<char>)>, edges: Seq<(nat, nat)>)
    ensures
        cypher_text(nodes, edges) == concat(
            Seq::new(
                nodes.len(),
                |i: int|
                    "CREATE (:Skill {name: '"@ + nodes[i].0 + "', description: '"@ + replace_all(
                        nodes[i].1,
                        "'"@,
                        "\\'"@,
                    ) + "'});\n"@,
            ),
        ) + (if nodes.len() > 0 && edges.len() > 0 {
            "\n"@
        } else {
            seq![]
        }) + concat(
            Seq::new(
                edges.len(),
                |k: int|
                    "MATCH (a:Skill {name: '"@ + node_names(nodes)[edges[k].0 as int] + "'}), (b:Skill {name: '"@
                        + node_names(nodes)[edges[k].1 as int] + "'}) CREATE (a)-[:DEPENDS_ON]->(b);\n"@,
            ),
        ),
{
    let names = node_names(nodes);
    assert(nodes.map_values(|n: (Seq<char>, Seq<char>)| cypher_node_line(n)) =~= Seq::new(
        nodes.len(),
        |i: int|
            "CREATE (:Skill {name: '"@ + nodes[i].0 + "', description: '"@ + replace_all(nodes[i].1, "'"@, "\\'"@)
                + "'});\n"@,
    ));
    assert(edges.map_values(|e: (nat, nat)| cypher_edge_line(names, e)) =~= Seq::new(
        edges.len(),
        |k: int|
            "MATCH (a:Skill {name: '"@ + names[edges[k].0 as int] + "'}), (b:Skill {name: '"@ + names[edges[k].1 as int]
                + "'}) CREATE (a)-[:DEPENDS_ON]->(b);\n"@,
    ));
}

/// The graph in Cypher (see `cypher_text`).
pub fn render_cypher(graph: &SkillGraph) -> (s: String)
    ensures
        s@ == cypher_text(graph.nodes(), graph.edges()),
{
    let ghost names = node_names(graph.nodes());
    let ghost node_parts = graph.nodes().map_values(|n: (Seq<char>, Seq<char>)| cypher_node_line(n));
    let ghost edge_parts = graph.edges().map_values(|e: (nat, nat)| cypher_edge_line(names, e));
    let mut out: Vec<char> = Vec::new();
    let n = graph.node_count();
    let mut i: usize = 0;
    proof {
        reveal_strlit("'");
    }
    assert(node_parts.take(0) =~= Seq::<Seq<char>>::empty());
    while i < n
        invariant
            n == graph.nodes().len(),
            node_parts == graph.nodes().map_values(|n: (Seq<char>, Seq<char>)| cypher_node_line(n)),
            "'"@.len() == 1,
            i <= n,
            out@ == concat(node_parts.take(i as int)),
        decreases n - i,
    {
        let name = graph.node_name(i);
        let description = graph.node_description(i);
        let escaped = replace_str(description.as_str(), "'", "\\'");
        push_str(&mut out, "CREATE (:Skill {name: '");
        push_str(&mut out, name.as_str());
        push_str(&mut out, "', description: '");
        push_chars(&mut out, escaped.as_slice());
        push_str(&mut out, "'});\n");
        proof {
            lemma_concat_take(node_parts, i as int);
            assert(graph.nodes()[i as int] == (name@, description@));
        }
        i = i + 1;
    }
    assert(node_parts.take(n as int) =~= node_parts);
    let m = graph.edge_count();
    if n > 0 && m > 0 {
        push_str(&mut out, "\n");
    }
    let ghost mid = out@;
    let mut k: usize = 0;
    assert(edge_parts.take(0) =~= Seq::<Seq<char>>::empty());
    while k < m
        invariant
            m == graph.edges().len(),
            names == node_names(graph.nodes()),
            edge_parts == graph.edges().map_values(|e: (nat, nat)| cypher_edge_line(names, e)),
            k <= m,
            out@ == mid + concat(edge_parts.take(k as int)),
        decreases m - k,
    {
        let (a, b) = graph.edge_endpoints(k);
        let source = graph.node_name(a);
        let target = graph.node_name(b);
        push_str(&mut out, "MATCH (a:Skill {name: '");
        push_str(&mut out, source.as_str());
        push_str(&mut out, "'}), (b:Skill {name: '");
        push_str(&mut out, target.as_str());
        push_str(&mut out, "'}) CREATE (a)-[:DEPENDS_ON]->(b);\n");
        proof {
            lemma_concat_take(edge_parts, k as int);
            assert(names[a as int] == source@);
            assert(names[b as int] == target@);
        }
        k = k + 1;
    }
    assert(edge_parts.take(m as int) =~= edge_parts);
    string_of(out.as_slice())
}

} // verus!
