use skills_md_graph::export::cypher::render_cypher;
use skills_md_graph::export::rdf::render_turtle;
use skills_md_graph::export::{render_export, ExportFormat};
use skills_md_graph::graph::build_graph;
use skills_md_graph::model::{Skill, SkillSet};

fn make_skill(name: &str, dependencies: Vec<&str>) -> Skill {
    Skill {
        name: name.to_string(),
        description: format!("{name} description"),
        dependencies: dependencies.into_iter().map(String::from).collect(),
        inputs: vec![],
        outputs: vec![],
        body: String::new(),
    }
}

fn skill_set(skills: Vec<Skill>) -> SkillSet {
    SkillSet { skills, warnings: vec![] }
}

#[test]
fn cypher_creates_nodes() {
    let graph = build_graph(&skill_set(vec![make_skill("alpha", vec![])]));
    let cypher = render_cypher(&graph);

    assert!(cypher.contains("CREATE (:Skill {name: 'alpha'"));
}

#[test]
fn cypher_creates_relationships() {
    let graph = build_graph(&skill_set(vec![
        make_skill("alpha", vec![]),
        make_skill("beta", vec!["alpha"]),
    ]));
    let cypher = render_cypher(&graph);

    assert!(cypher.contains(
        "MATCH (a:Skill {name: 'beta'}), (b:Skill {name: 'alpha'}) CREATE (a)-[:DEPENDS_ON]->(b)"
    ));
}

#[test]
fn cypher_empty_graph() {
    let graph = build_graph(&skill_set(vec![]));
    let cypher = render_cypher(&graph);

    assert!(cypher.is_empty());
}

#[test]
fn cypher_full_text_escapes_quotes_in_descriptions() {
    let mut alpha = make_skill("alpha", vec![]);
    alpha.description = "it's here".to_string();
    let graph = build_graph(&skill_set(vec![alpha, make_skill("beta", vec!["alpha"])]));
    let cypher = render_cypher(&graph);

    assert_eq!(
        cypher,
        "CREATE (:Skill {name: 'alpha', description: 'it\\'s here'});\n\
         CREATE (:Skill {name: 'beta', description: 'beta description'});\n\
         \n\
         MATCH (a:Skill {name: 'beta'}), (b:Skill {name: 'alpha'}) CREATE (a)-[:DEPENDS_ON]->(b);\n"
    );
}

#[test]
fn cypher_no_blank_line_without_edges() {
    let graph = build_graph(&skill_set(vec![make_skill("alpha", vec![])]));
    assert_eq!(
        render_cypher(&graph),
        "CREATE (:Skill {name: 'alpha', description: 'alpha description'});\n"
    );
}

#[test]
fn turtle_contains_prefixes() {
    let graph = build_graph(&skill_set(vec![make_skill("alpha", vec![])]));
    let turtle = render_turtle(&graph);

    assert!(turtle.contains("@prefix skill:"));
    assert!(turtle.contains("@prefix rdf:"));
}

#[test]
fn turtle_contains_skill_declaration() {
    let graph = build_graph(&skill_set(vec![make_skill("alpha", vec![])]));
    let turtle = render_turtle(&graph);

    assert!(turtle.contains("skill:alpha rdf:type skill:Skill"));
    assert!(turtle.contains("rdfs:label \"alpha\""));
}

#[test]
fn turtle_contains_dependency_relation() {
    let graph = build_graph(&skill_set(vec![
        make_skill("alpha", vec![]),
        make_skill("beta", vec!["alpha"]),
    ]));
    let turtle = render_turtle(&graph);

    assert!(turtle.contains("skill:beta skill:dependsOn skill:alpha"));
}

#[test]
fn turtle_full_text_escapes_double_quotes() {
    let mut alpha = make_skill("alpha", vec![]);
    alpha.description = "say \"hi\"".to_string();
    let graph = build_graph(&skill_set(vec![alpha]));

    assert_eq!(
        render_turtle(&graph),
        "@prefix skill: <http://example.org/skill/> .\n\
         @prefix rdf: <http://www.w3.org/1999/02/22-rdf-syntax-ns#> .\n\
         @prefix rdfs: <http://www.w3.org/2000/01/rdf-schema#> .\n\
         \n\
         skill:alpha rdf:type skill:Skill ;\n    rdfs:label \"alpha\" ;\n    rdfs:comment \"say \\\"hi\\\"\" .\n\n"
    );
}

#[test]
fn render_export_dispatches_on_format() {
    let graph = build_graph(&skill_set(vec![
        make_skill("alpha", vec![]),
        make_skill("beta", vec!["alpha"]),
    ]));

    assert_eq!(render_export(&graph, ExportFormat::Rdf), render_turtle(&graph));
    assert_eq!(render_export(&graph, ExportFormat::Cypher), render_cypher(&graph));
}
