use skills_md_graph::graph::dot::render_dot;
use skills_md_graph::graph::stats::compute_stats;
use skills_md_graph::graph::{build_graph, EdgeDirection};
use skills_md_graph::model::{Skill, SkillSet};

fn make_skill(name: &str, dependencies: Vec<&str>) -> Skill {
    Skill {
        name: name.to_string(),
        description: format!("{name} description"),
        dependencies: dependencies.into_iter().map(String::from).collect(),
        inputs: vec![],
        outputs: vec![],
        body: String::new(),
    }
}

fn skill_set(skills: Vec<Skill>) -> SkillSet {
    SkillSet { skills, warnings: vec![] }
}

#[test]
fn builds_nodes_for_each_skill() {
    let graph = build_graph(&skill_set(vec![make_skill("alpha", vec![]), make_skill("beta", vec![])]));

    assert_eq!(graph.node_count(), 2);
    assert!(graph.contains_skill("alpha"));
    assert!(graph.contains_skill("beta"));
}

#[test]
fn creates_edges_for_valid_dependencies() {
    let graph = build_graph(&skill_set(vec![
        make_skill("alpha", vec![]),
        make_skill("beta", vec!["alpha"]),
    ]));

    assert_eq!(graph.edge_count(), 1);
    let beta_index = graph.node_index("beta").unwrap();
    let alpha_index = graph.node_index("alpha").unwrap();
    assert!(graph.contains_edge(beta_index, alpha_index));
}

#[test]
fn warns_on_missing_dependency() {
    let graph = build_graph(&skill_set(vec![make_skill("alpha", vec!["nonexistent"])]));

    assert_eq!(graph.edge_count(), 0);
    assert_eq!(graph.warnings().len(), 1);
    assert!(graph.warnings()[0].contains("nonexistent"));
}

#[test]
fn missing_dependency_warning_text_is_exact() {
    let graph = build_graph(&skill_set(vec![make_skill("alpha", vec!["x", "beta", "y"]), make_skill("beta", vec![])]));

    assert_eq!(
        graph.warnings(),
        &vec![
            "alpha: dependency \"x\" not found in scanned skills".to_string(),
            "alpha: dependency \"y\" not found in scanned skills".to_string(),
        ]
    );
    assert_eq!(graph.edge_count(), 1);
}

#[test]
fn handles_empty_skill_set() {
    let graph = build_graph(&skill_set(vec![]));

    assert_eq!(graph.node_count(), 0);
    assert_eq!(graph.edge_count(), 0);
    assert!(graph.warnings().is_empty());
}

#[test]
fn handles_diamond_dependency() {
    let graph = build_graph(&skill_set(vec![
        make_skill("base", vec![]),
        make_skill("left", vec!["base"]),
        make_skill("right", vec!["base"]),
        make_skill("top", vec!["left", "right"]),
    ]));

    assert_eq!(graph.node_count(), 4);
    assert_eq!(graph.edge_count(), 4);
    assert!(graph.warnings().is_empty());
}

#[test]
fn edges_follow_skill_and_dependency_order() {
    let graph = build_graph(&skill_set(vec![
        make_skill("base", vec![]),
        make_skill("top", vec!["left", "base"]),
        make_skill("left", vec!["base"]),
    ]));

    assert_eq!(graph.edge_endpoints(0), (1, 2));
    assert_eq!(graph.edge_endpoints(1), (1, 0));
    assert_eq!(graph.edge_endpoints(2), (2, 0));
    assert_eq!(graph.node_name(1), "top");
    assert_eq!(graph.node_description(1), "top description");
}

#[test]
fn duplicate_names_resolve_to_the_last_skill() {
    let graph = build_graph(&skill_set(vec![
        make_skill("dup", vec![]),
        make_skill("user", vec!["dup"]),
        make_skill("dup", vec![]),
    ]));

    assert_eq!(graph.node_count(), 3);
    assert_eq!(graph.node_index("dup"), Some(2));
    assert_eq!(graph.edge_endpoints(0), (1, 2));
}

#[test]
fn neighbors_list_newest_edge_first() {
    let graph = build_graph(&skill_set(vec![
        make_skill("base", vec![]),
        make_skill("a", vec!["base"]),
        make_skill("b", vec!["base"]),
    ]));

    assert_eq!(graph.neighbors(0, EdgeDirection::Incoming), vec![2, 1]);
    assert_eq!(graph.degree(0, EdgeDirection::Incoming), 2);
    assert_eq!(graph.degree(0, EdgeDirection::Outgoing), 0);
}

#[test]
fn dot_contains_digraph_header() {
    let graph = build_graph(&skill_set(vec![make_skill("alpha", vec![])]));
    let dot = render_dot(&graph);

    assert!(dot.starts_with("digraph skills {"));
    assert!(dot.contains("rankdir=LR"));
    assert!(dot.contains("shape=box, style=rounded"));
}

#[test]
fn dot_contains_node_declarations() {
    let graph = build_graph(&skill_set(vec![make_skill("alpha", vec![]), make_skill("beta", vec![])]));
    let dot = render_dot(&graph);

    assert!(dot.contains("\"alpha\" [label=\"alpha\"]"));
    assert!(dot.contains("\"beta\" [label=\"beta\"]"));
}

#[test]
fn dot_contains_edges() {
    let graph = build_graph(&skill_set(vec![
        make_skill("alpha", vec![]),
        make_skill("beta", vec!["alpha"]),
    ]));
    let dot = render_dot(&graph);

    assert!(dot.contains("\"beta\" -> \"alpha\""));
}

#[test]
fn dot_empty_graph() {
    let graph = build_graph(&skill_set(vec![]));
    let dot = render_dot(&graph);

    assert!(dot.contains("digraph skills {"));
    assert!(dot.ends_with("}\n"));
    assert!(!dot.contains("->"));
}

#[test]
fn dot_full_text_escapes_quotes_in_labels() {
    let graph = build_graph(&skill_set(vec![
        make_skill("a\"b", vec![]),
        make_skill("c", vec!["a\"b"]),
    ]));

    assert_eq!(
        render_dot(&graph),
        "digraph skills {\n    rankdir=LR;\n    node [shape=box, style=rounded];\n\n\
         \x20   \"a\\\"b\" [label=\"a\\\"b\"];\n\
         \x20   \"c\" [label=\"c\"];\n\
         \n\
         \x20   \"c\" -> \"a\"b\";\n\
         }\n"
    );
}

#[test]
fn stats_count_skills_edges_and_orphans() {
    let graph = build_graph(&skill_set(vec![
        make_skill("base", vec![]),
        make_skill("top", vec!["base"]),
        make_skill("lonely", vec![]),
        make_skill("alone", vec![]),
    ]));
    let stats = compute_stats(&graph);

    assert_eq!(stats.skill_count, 4);
    assert_eq!(stats.edge_count, 1);
    assert!(!stats.has_cycles);
    assert_eq!(stats.orphan_skills, vec!["lonely", "alone"]);
    assert_eq!(
        stats.to_string(),
        "Skills: 4\nDependencies: 1\nCycles detected: no\nOrphan skills (2):\n  - lonely\n  - alone\n"
    );
}

#[test]
fn stats_report_cycles_and_no_orphans() {
    let graph = build_graph(&skill_set(vec![
        make_skill("a", vec!["b"]),
        make_skill("b", vec!["a"]),
    ]));
    let stats = compute_stats(&graph);

    assert!(stats.has_cycles);
    assert_eq!(
        stats.to_string(),
        "Skills: 2\nDependencies: 2\nCycles detected: yes\nOrphan skills: none\n"
    );
}

#[test]
fn stats_print_large_counts_in_decimal() {
    let skills: Vec<Skill> = (0..120).map(|i| make_skill(&format!("s{i}"), vec![])).collect();
    let graph = build_graph(&skill_set(skills));
    let text = compute_stats(&graph).to_string();

    assert!(text.starts_with("Skills: 120\nDependencies: 0\n"));
    assert!(text.contains("Orphan skills (120):\n"));
}
