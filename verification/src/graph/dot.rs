//! The skill graph in Graphviz's DOT language.
use vstd::prelude::*;
use super::{SkillGraph, node_names};
use crate::text::{concat, lemma_concat_take, push_chars, push_str, replace_all, replace_str, string_of};

verus! {

/// `s` with each `"` written `\"`.
pub open spec fn escape_quotes(s: Seq<char>) -> Seq<char> {
    replace_all(s, "\""@, "\\\""@)
}

/// The declaration of the node of a skill named `name`.
pub open spec fn dot_node_line(name: Seq<char>) -> Seq<char> {
    "    \""@ + escape_quotes(name) + "\" [label=\""@ + escape_quotes(name) + "\"];\n"@
}

/// The line of an edge, between the nodes' names as they are.
pub open spec fn dot_edge_line(names: Seq<Seq<char>>, e: (nat, nat)) -> Seq<char> {
    "    \""@ + names[e.0 as int] + "\" -> \""@ + names[e.1 as int] + "\";\n"@
}

/// The DOT text of a graph: a header, one line per node in node order, a
/// blank line, one line per edge in edge order, and the closing brace.
pub open spec fn dot_text(nodes: Seq<(Seq<char>, Seq<char>)>, edges: Seq<(nat, nat)>) -> Seq<char> {
    let names = node_names(nodes);
    "digraph skills {\n"@ + "    rankdir=LR;\n"@ + "    node [shape=box, style=rounded];\n"@ + "\n"@
        + concat(names.map_values(|n: Seq<char>| dot_node_line(n))) + "\n"@
        + concat(edges.map_values(|e: (nat, nat)| dot_edge_line(names, e))) + "}\n"@
}

/// The DOT text of a graph is its header and a blank line; then for the
/// `i`-th skill in node order, its declaration labelled with its name (each
/// `"` written `\"` in both); a blank line; then for the `k`-th edge `(a, b)`,
/// in edge order, the line from `a`'s name to `b`'s; and the closing brace.
pub proof fn lemma_dot_lines(nodes: Seq<(Seq<char>, Seq<char>)>, edges: Seq<(nat, nat)>)
    ensures
        dot_text(nodes, edges) == "digraph skills {\n"@ + "    rankdir=LR;\n"@
            + "    node [shape=box, style=rounded];\n"@ + "\n"@ + concat(
            Seq::new(
                nodes.len(),
                |i: int|
                    "    \""@ + replace_all(nodes[i].0, "\""@, "\\\""@) + "\" [label=\""@ + replace_all(
                        nodes[i].0,
                        "\""@,
                        "\\\""@,
                    ) + "\"];\n"@,
            ),
        ) + "\n"@ + concat(
            Seq::new(
                edges.len(),
                |k: int|
                    "    \""@ + node_names(nodes)[edges[k].0 as int] + "\" -> \""@ + node_names(nodes)[edges[k].1 as int]
                        + "\";\n"@,
            ),
        ) + "}\n"@,
{
    let names = node_names(nodes);
    assert(names.map_values(|n: Seq<char>| dot_node_line(n)) =~= Seq::new(
        nodes.len(),
        |i: int|
            "    \""@ + replace_all(nodes[i].0, "\""@, "\\\""@) + "\" [label=\""@ + replace_all(
                nodes[i].0,
                "\""@,
                "\\\""@,
            ) + "\"];\n"@,
    ));
    assert(edges.map_values(|e: (nat, nat)| dot_edge_line(names, e)) =~= Seq::new(
        edges.len(),
        |k: int| "    \""@ + names[edges[k].0 as int] + "\" -> \""@ + names[edges[k].1 as int] + "\";\n"@,
    ));
}

/// The graph in DOT (see `dot_text`).
pub fn render_dot(graph: &SkillGraph) -> (s: String)
    ensures
        s@ == dot_text(graph.nodes(), graph.edges()),
{
    let ghost names = node_names(graph.nodes());
    let ghost node_lines = names.map_values(|n: Seq<char>| dot_node_line(n));
    let ghost edge_lines = graph.edges().map_values(|e: (nat, nat)| dot_edge_line(names, e));
    let mut out: Vec<char> = Vec::new();
    push_str(&mut out, "digraph skills {\n");
    push_str(&mut out, "    rankdir=LR;\n");
    push_str(&mut out, "    node [shape=box, style=rounded];\n");
    push_str(&mut out, "\n");
    let ghost head = out@;
    let n = graph.node_count();
    let mut i: usize = 0;
    proof {
        reveal_strlit("\"");
    }
    assert(node_lines.take(0) =~= Seq::<Seq<char>>::empty());
    while i < n
        invariant
            n == graph.nodes().len(),
            names == node_names(graph.nodes()),
            node_lines == names.map_values(|n: Seq<char>| dot_node_line(n)),
            "\""@.len() == 1,
            i <= n,
            out@ == head + concat(node_lines.take(i as int)),
        decreases n - i,
    {
        let name = graph.node_name(i);
        let escaped = replace_str(name.as_str(), "\"", "\\\"");
        push_str(&mut out, "    \"");
        push_chars(&mut out, escaped.as_slice());
        push_str(&mut out, "\" [label=\"");
        push_chars(&mut out, escaped.as_slice());
        push_str(&mut out, "\"];\n");
        proof {
            lemma_concat_take(node_lines, i as int);
            assert(names[i as int] == name@);
        }
        i = i + 1;
    }
    assert(node_lines.take(n as int) =~= node_lines);
    push_str(&mut out, "\n");
    let ghost mid = out@;
    let m = graph.edge_count();
    let mut k: usize = 0;
    assert(edge_lines.take(0) =~= Seq::<Seq<char>>::empty());
    while k < m
        invariant
            m == graph.edges().len(),
            names == node_names(graph.nodes()),
            edge_lines == graph.edges().map_values(|e: (nat, nat)| dot_edge_line(names, e)),
            k <= m,
            out@ == mid + concat(edge_lines.take(k as int)),
        decreases m - k,
    {
        let (a, b) = graph.edge_endpoints(k);
        let source = graph.node_name(a);
        let target = graph.node_name(b);
        push_str(&mut out, "    \"");
        push_str(&mut out, source.as_str());
        push_str(&mut out, "\" -> \"");
        push_str(&mut out, target.as_str());
        push_str(&mut out, "\";\n");
        proof {
            lemma_concat_take(edge_lines, k as int);
            assert(names[a as int] == source@);
            assert(names[b as int] == target@);
        }
        k = k + 1;
    }
    assert(edge_lines.take(m as int) =~= edge_lines);
    push_str(&mut out, "}\n");
    string_of(out.as_slice())
}

} // verus!
