//! The skill graph as RDF, in Turtle.
use vstd::prelude::*;
use crate::graph::{SkillGraph, node_names};
use crate::text::{concat, lemma_concat_take, push_chars, push_str, replace_all, replace_str, string_of};

verus! {

/// The statements of one skill: its type, its label and its description (with
/// each `"` written `\"`), and a blank line.
pub open spec fn turtle_node_lines(node: (Seq<char>, Seq<char>)) -> Seq<char> {
    "skill:"@ + node.0 + " rdf:type skill:Skill ;\n"@ + "    rdfs:label \""@ + node.0 + "\" ;\n"@
        + "    rdfs:comment \""@ + replace_all(node.1, "\""@, "\\\""@) + "\" .\n"@ + "\n"@
}

/// The statement of one dependency.
pub open spec fn turtle_edge_line(names: Seq<Seq<char>>, e: (nat, nat)) -> Seq<char> {
    "skill:"@ + names[e.0 as int] + " skill:dependsOn skill:"@ + names[e.1 as int] + " .\n"@
}

/// The Turtle text of a graph: the prefixes and a blank line, the statements of
/// each skill in node order, then one statement per edge in edge order.
pub open spec fn turtle_text(nodes: Seq<(Seq<char>, Seq<char>)>, edges: Seq<(nat, nat)>) -> Seq<char> {
    "@prefix skill: <http://example.org/skill/> .\n"@
        + "@prefix rdf: <http://www.w3.org/1999/02/22-rdf-syntax-ns#> .\n"@
        + "@prefix rdfs: <http://www.w3.org/2000/01/rdf-schema#> .\n"@ + "\n"@
        + concat(nodes.map_values(|n: (Seq<char>, Seq<char>)| turtle_node_lines(n)))
        + concat(edges.map_values(|e: (nat, nat)| turtle_edge_line(node_names(nodes), e)))
}

/// The Turtle text of a graph is the three prefix lines and a blank line;
/// then for the `i`-th skill, in node order, its type, label and description
/// statements and a blank line; then for the `k`-th edge `(a, b)`, in edge
/// order, the line `skill:<a's name> skill:dependsOn skill:<b's name> .`.
pub proof fn lemma_turtle_lines(nodes: Seq<(Seq<char>, Seq<char>)>, edges: Seq<(nat, nat)>)
    ensures
        turtle_text(nodes, edges) == "@prefix skill: <http://example.org/skill/> .\n"@
            + "@prefix rdf: <http://www.w3.org/1999/02/22-rdf-syntax-ns#> .\n"@
            + "@prefix rdfs: <http://www.w3.org/2000/01/rdf-schema#> .\n"@ + "\n"@ + concat(
            Seq::new(
                nodes.len(),
                |i: int|
                    "skill:"@ + nodes[i].0 + " rdf:type skill:Skill ;\n"@ + "    rdfs:label \""@ + nodes[i].0
                        + "\" ;\n"@ + "    rdfs:comment \""@ + replace_all(nodes[i].1, "\""@, "\\\""@)
                        + "\" .\n"@ + "\n"@,
            ),
        ) + concat(
            Seq::new(
                edges.len(),
                |k: int|
                    "skill:"@ + node_names(nodes)[edges[k].0 as int] + " skill:dependsOn skill:"@ + node_names(
                        nodes,
                    )[edges[k].1 as int] + " .\n"@,
            ),
        ),
{
    let names = node_names(nodes);
    assert(nodes.map_values(|n: (Seq<char>, Seq<char>)| turtle_node_lines(n)) =~= Seq::new(
        nodes.len(),
        |i: int|
            "skill:"@ + nodes[i].0 + " rdf:type skill:Skill ;\n"@ + "    rdfs:label \""@ + nodes[i].0 + "\" ;\n"@
                + "    rdfs:comment \""@ + replace_all(nodes[i].1, "\""@, "\\\""@) + "\" .\n"@ + "\n"@,
    ));
    assert(edges.map_values(|e: (nat, nat)| turtle_edge_line(names, e)) =~= Seq::new(
        edges.len(),
        |k: int| "skill:"@ + names[edges[k].0 as int] + " skill:dependsOn skill:"@ + names[edges[k].1 as int] + " .\n"@,
    ));
}

fn turtle_node_part(name: &String, description: &String) -> (v: Vec<char>)
    ensures
        v@ == turtle_node_lines((name@, description@)),
{
    proof {
        reveal_strlit("\"");
    }
    let escaped = replace_str(description.as_str(), "\"", "\\\"");
    let mut out: Vec<char> = Vec::new();
    push_str(&mut out, "skill:");
    push_str(&mut out, name.as_str());
    push_str(&mut out, " rdf:type skill:Skill ;\n");
    push_str(&mut out, "    rdfs:label \"");
    push_str(&mut out, name.as_str());
    push_str(&mut out, "\" ;\n");
    push_str(&mut out, "    rdfs:comment \"");
    push_chars(&mut out, escaped.as_slice());
    push_str(&mut out, "\" .\n");
    push_str(&mut out, "\n");
    out
}

/// The graph in Turtle (see `turtle_text`).
pub fn render_turtle(graph: &SkillGraph) -> (s: String)
    ensures
        s@ == turtle_text(graph.nodes(), graph.edges()),
{
    let ghost names = node_names(graph.nodes());
    let ghost node_parts = graph.nodes().map_values(|n: (Seq<char>, Seq<char>)| turtle_node_lines(n));
    let ghost edge_parts = graph.edges().map_values(|e: (nat, nat)| turtle_edge_line(names, e));
    let mut out: Vec<char> = Vec::new();
    push_str(&mut out, "@prefix skill: <http://example.org/skill/> .\n");
    push_str(&mut out, "@prefix rdf: <http://www.w3.org/1999/02/22-rdf-syntax-ns#> .\n");
    push_str(&mut out, "@prefix rdfs: <http://www.w3.org/2000/01/rdf-schema#> .\n");
    push_str(&mut out, "\n");
    let ghost head = out@;
    let n = graph.node_count();
    let mut i: usize = 0;
    assert(node_parts.take(0) =~= Seq::<Seq<char>>::empty());
    while i < n
        invariant
            n == graph.nodes().len(),
            node_parts == graph.nodes().map_values(|n: (Seq<char>, Seq<char>)| turtle_node_lines(n)),
            i <= n,
            out@ == head + concat(node_parts.take(i as int)),
        decreases n - i,
    {
        let name = graph.node_name(i);
        let description = graph.node_description(i);
        let part = turtle_node_part(&name, &description);
        push_chars(&mut out, part.as_slice());
        proof {
            lemma_concat_take(node_parts, i as int);
            assert(graph.nodes()[i as int] == (name@, description@));
        }
        i = i + 1;
    }
    assert(node_parts.take(n as int) =~= node_parts);
    let ghost mid = out@;
    let m = graph.edge_count();
    let mut k: usize = 0;
    assert(edge_parts.take(0) =~= Seq::<Seq<char>>::empty());
    while k < m
        invariant
            m == graph.edges().len(),
            names == node_names(graph.nodes()),
            edge_parts == graph.edges().map_values(|e: (nat, nat)| turtle_edge_line(names, e)),
            k <= m,
            out@ == mid + concat(edge_parts.take(k as int)),
        decreases m - k,
    {
        let (a, b) = graph.edge_endpoints(k);
        let source = graph.node_name(a);
        let target = graph.node_name(b);
        push_str(&mut out, "skill:");
        push_str(&mut out, source.as_str());
        push_str(&mut out, " skill:dependsOn skill:");
        push_str(&mut out, target.as_str());
        push_str(&mut out, " .\n");
        proof {
            lemma_concat_take(edge_parts, k as int);
            assert(names[a as int] == source@);
            assert(names[b as int] == target@);
        }
        k = k + 1;
    }
    assert(edge_parts.take(m as int) =~= edge_parts);
    string_of(out.as_slice())
}

} // verus!
