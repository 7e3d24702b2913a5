//! Exports of the skill graph to other graph formats.
pub mod cypher;
pub mod rdf;

use vstd::prelude::*;
use crate::graph::SkillGraph;
use cypher::{cypher_text, render_cypher};
use rdf::{render_turtle, turtle_text};

verus! {

#[derive(Debug, Clone, Copy)]
pub enum ExportFormat {
    Rdf,
    Cypher,
}

/// The text of a graph in a format.
pub open spec fn export_text(graph: SkillGraph, format: ExportFormat) -> Seq<char> {
    match format {
        ExportFormat::Rdf => turtle_text(graph.nodes(), graph.edges()),
        ExportFormat::Cypher => cypher_text(graph.nodes(), graph.edges()),
    }
}

/// The graph in the format asked for.
pub fn render_export(graph: &SkillGraph, format: ExportFormat) -> (s: String)
    ensures
        s@ == export_text(*graph, format),
{
    match format {
        ExportFormat::Rdf => render_turtle(graph),
        ExportFormat::Cypher => render_cypher(graph),
    }
}

} // verus!
