use skills_md_graph::analysis::cycles::detect_cycles;
use skills_md_graph::analysis::isolation::{classify_skills, SkillRole};
use skills_md_graph::analysis::{has_errors, lint, Diagnostic, Severity};
use skills_md_graph::graph::build_graph;
use skills_md_graph::graph::stats::compute_stats;
use skills_md_graph::model::{Skill, SkillSet};

fn make_skill(name: &str, dependencies: Vec<&str>) -> Skill {
    Skill {
        name: name.to_string(),
        description: format!("{name} description"),
        dependencies: dependencies.into_iter().map(String::from).collect(),
        inputs: vec![],
        outputs: vec![],
        body: String::new(),
    }
}

fn skill_set(skills: Vec<Skill>) -> SkillSet {
    SkillSet { skills, warnings: vec![] }
}

#[test]
fn no_cycles_in_dag() {
    let graph = build_graph(&skill_set(vec![
        make_skill("alpha", vec![]),
        make_skill("beta", vec!["alpha"]),
        make_skill("gamma", vec!["beta"]),
    ]));

    assert!(detect_cycles(&graph).is_empty());
}

#[test]
fn detects_simple_cycle() {
    let graph = build_graph(&skill_set(vec![
        make_skill("alpha", vec!["beta"]),
        make_skill("beta", vec!["alpha"]),
    ]));
    let cycles = detect_cycles(&graph);

    assert_eq!(cycles.len(), 1);
    assert!(cycles[0].contains(&"alpha".to_string()));
    assert!(cycles[0].contains(&"beta".to_string()));
}

#[test]
fn detects_three_node_cycle() {
    let graph = build_graph(&skill_set(vec![
        make_skill("alpha", vec!["gamma"]),
        make_skill("beta", vec!["alpha"]),
        make_skill("gamma", vec!["beta"]),
    ]));
    let cycles = detect_cycles(&graph);

    assert_eq!(cycles.len(), 1);
    assert_eq!(cycles[0].len(), 3);
}

#[test]
fn ignores_non_cyclic_nodes() {
    let graph = build_graph(&skill_set(vec![
        make_skill("alpha", vec!["beta"]),
        make_skill("beta", vec!["alpha"]),
        make_skill("gamma", vec!["alpha"]),
    ]));
    let cycles = detect_cycles(&graph);

    assert_eq!(cycles.len(), 1);
    assert!(!cycles[0].contains(&"gamma".to_string()));
}

#[test]
fn self_dependency_is_not_reported_as_cycle() {
    let graph = build_graph(&skill_set(vec![make_skill("alpha", vec!["alpha"])]));

    assert!(detect_cycles(&graph).is_empty());
    assert!(graph.is_cyclic());
    assert!(!has_errors(&lint(&graph)));
}

#[test]
fn two_separate_cycles_are_both_reported() {
    let graph = build_graph(&skill_set(vec![
        make_skill("a", vec!["b"]),
        make_skill("b", vec!["a"]),
        make_skill("c", vec!["d"]),
        make_skill("d", vec!["c"]),
    ]));
    let cycles = detect_cycles(&graph);

    assert_eq!(cycles.len(), 2);
    let mut all: Vec<String> = cycles.concat();
    all.sort();
    assert_eq!(all, vec!["a", "b", "c", "d"]);
}

#[test]
fn detects_isolated_skill() {
    let graph = build_graph(&skill_set(vec![
        make_skill("connected-a", vec![]),
        make_skill("connected-b", vec!["connected-a"]),
        make_skill("lonely", vec![]),
    ]));
    let classified = classify_skills(&graph);

    let isolated: Vec<_> = classified
        .iter()
        .filter(|classification| classification.role == SkillRole::Isolated)
        .collect();
    assert_eq!(isolated.len(), 1);
    assert_eq!(isolated[0].name, "lonely");
}

#[test]
fn detects_leaf_skill() {
    let graph = build_graph(&skill_set(vec![
        make_skill("base", vec![]),
        make_skill("consumer", vec!["base"]),
    ]));
    let classified = classify_skills(&graph);

    let leaves: Vec<_> = classified
        .iter()
        .filter(|classification| classification.role == SkillRole::Leaf)
        .collect();
    assert_eq!(leaves.len(), 1);
    assert_eq!(leaves[0].name, "base");
}

#[test]
fn detects_root_skill() {
    let graph = build_graph(&skill_set(vec![
        make_skill("base", vec![]),
        make_skill("consumer", vec!["base"]),
    ]));
    let classified = classify_skills(&graph);

    let roots: Vec<_> = classified
        .iter()
        .filter(|classification| classification.role == SkillRole::Root)
        .collect();
    assert_eq!(roots.len(), 1);
    assert_eq!(roots[0].name, "consumer");
}

#[test]
fn middle_node_has_no_special_role() {
    let graph = build_graph(&skill_set(vec![
        make_skill("base", vec![]),
        make_skill("middle", vec!["base"]),
        make_skill("top", vec!["middle"]),
    ]));
    let classified = classify_skills(&graph);

    assert!(classified
        .iter()
        .all(|classification| classification.name != "middle"));
}

#[test]
fn empty_graph_has_no_classifications() {
    let graph = build_graph(&skill_set(vec![]));
    let classified = classify_skills(&graph);

    assert!(classified.is_empty());
}

#[test]
fn classifications_follow_node_order() {
    let graph = build_graph(&skill_set(vec![
        make_skill("top", vec!["base"]),
        make_skill("lonely", vec![]),
        make_skill("base", vec![]),
    ]));
    let classified = classify_skills(&graph);
    let pairs: Vec<(String, SkillRole)> = classified
        .iter()
        .map(|classification| (classification.name.clone(), classification.role))
        .collect();

    assert_eq!(
        pairs,
        vec![
            ("top".to_string(), SkillRole::Root),
            ("lonely".to_string(), SkillRole::Isolated),
            ("base".to_string(), SkillRole::Leaf),
        ]
    );
}

#[test]
fn lint_clean_graph_has_no_diagnostics() {
    let graph = build_graph(&skill_set(vec![
        make_skill("alpha", vec![]),
        make_skill("beta", vec!["alpha"]),
    ]));
    let diagnostics = lint(&graph);

    assert!(diagnostics.is_empty());
}

#[test]
fn lint_detects_cycle_as_error() {
    let graph = build_graph(&skill_set(vec![
        make_skill("alpha", vec!["beta"]),
        make_skill("beta", vec!["alpha"]),
    ]));
    let diagnostics = lint(&graph);

    assert!(has_errors(&diagnostics));
    assert!(diagnostics
        .iter()
        .any(|diagnostic| matches!(diagnostic, Diagnostic::Cycle { .. })));
}

#[test]
fn lint_detects_isolated_as_info() {
    let graph = build_graph(&skill_set(vec![
        make_skill("connected", vec![]),
        make_skill("consumer", vec!["connected"]),
        make_skill("lonely", vec![]),
    ]));
    let diagnostics = lint(&graph);

    let isolated: Vec<_> = diagnostics
        .iter()
        .filter(|diagnostic| matches!(diagnostic, Diagnostic::Isolated { .. }))
        .collect();
    assert_eq!(isolated.len(), 1);
    assert!(!has_errors(&diagnostics));
}

#[test]
fn lint_detects_missing_dependency() {
    let graph = build_graph(&skill_set(vec![make_skill("alpha", vec!["nonexistent"])]));
    let diagnostics = lint(&graph);

    let missing: Vec<_> = diagnostics
        .iter()
        .filter(|diagnostic| matches!(diagnostic, Diagnostic::MissingDependency { .. }))
        .collect();
    assert_eq!(missing.len(), 1);
}

#[test]
fn lint_missing_dependency_names_skill_and_dependency() {
    let graph = build_graph(&skill_set(vec![make_skill("alpha", vec!["ghost"])]));
    let diagnostics = lint(&graph);

    match &diagnostics[0] {
        Diagnostic::MissingDependency { skill_name, dependency_name } => {
            assert_eq!(skill_name, "alpha");
            assert_eq!(dependency_name, "ghost");
        }
        other => panic!("unexpected diagnostic {other:?}"),
    }
    assert_eq!(
        diagnostics[0].to_string(),
        "warning: \"alpha\" depends on \"ghost\" which was not found"
    );
}

#[test]
fn lint_orders_cycles_then_missing_then_isolated() {
    let graph = build_graph(&skill_set(vec![
        make_skill("a", vec!["b"]),
        make_skill("b", vec!["a", "missing"]),
        make_skill("alone", vec![]),
    ]));
    let diagnostics = lint(&graph);

    assert_eq!(diagnostics.len(), 3);
    assert!(matches!(diagnostics[0], Diagnostic::Cycle { .. }));
    assert!(matches!(diagnostics[1], Diagnostic::MissingDependency { .. }));
    assert!(matches!(diagnostics[2], Diagnostic::Isolated { .. }));
    assert_eq!(diagnostics[0].severity(), Severity::Error);
    assert_eq!(diagnostics[1].severity(), Severity::Warning);
    assert_eq!(diagnostics[2].severity(), Severity::Info);
}

#[test]
fn cycle_display_shows_chain() {
    let diagnostic = Diagnostic::Cycle {
        skill_names: vec!["alpha".to_string(), "beta".to_string()],
    };
    let output = diagnostic.to_string();

    assert!(output.contains("circular dependency"));
    assert!(output.contains("alpha -> beta"));
}

#[test]
fn diagnostic_texts_are_exact() {
    let cycle = Diagnostic::Cycle {
        skill_names: vec!["a".to_string(), "b".to_string(), "c".to_string()],
    };
    let isolated = Diagnostic::Isolated { skill_name: "lonely".to_string() };

    assert_eq!(cycle.to_string(), "error: circular dependency: a -> b -> c");
    assert_eq!(isolated.to_string(), "info: skill \"lonely\" is isolated (no connections)");
}

#[test]
fn has_errors_false_for_warnings_only() {
    let diagnostics = vec![Diagnostic::MissingDependency {
        skill_name: "a".to_string(),
        dependency_name: "b".to_string(),
    }];
    assert!(!has_errors(&diagnostics));
}

#[test]
fn has_errors_true_with_one_cycle_among_others() {
    let diagnostics = vec![
        Diagnostic::Isolated { skill_name: "x".to_string() },
        Diagnostic::Cycle { skill_names: vec!["a".to_string(), "b".to_string()] },
    ];
    assert!(has_errors(&diagnostics));
    assert!(!has_errors(&[]));
}

#[test]
fn lint_reads_back_missing_dependency_unless_name_has_the_marker() {
    let graph = build_graph(&skill_set(vec![make_skill("x: dependency \"y", vec!["z"])]));
    let diagnostics = lint(&graph);

    match &diagnostics[0] {
        Diagnostic::MissingDependency { skill_name, dependency_name } => {
            assert_eq!(skill_name, "x");
            assert_eq!(dependency_name, "y: dependency \"z");
        }
        other => panic!("unexpected diagnostic {other:?}"),
    }
}

#[test]
fn lint_isolated_skills_are_the_stats_orphans() {
    let graph = build_graph(&skill_set(vec![
        make_skill("one", vec![]),
        make_skill("two", vec!["three"]),
        make_skill("three", vec![]),
        make_skill("four", vec![]),
    ]));
    let isolated: Vec<String> = lint(&graph)
        .into_iter()
        .filter_map(|diagnostic| match diagnostic {
            Diagnostic::Isolated { skill_name } => Some(skill_name),
            _ => None,
        })
        .collect();

    assert_eq!(isolated, vec!["one", "four"]);
    assert_eq!(isolated, compute_stats(&graph).orphan_skills);
}
