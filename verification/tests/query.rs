use skills_md_graph::graph::{build_graph, SkillGraph};
use skills_md_graph::model::{Skill, SkillSet};
use skills_md_graph::query::{query_deps, query_path, query_uses};

fn make_skill(name: &str, dependencies: Vec<&str>) -> Skill {
    Skill {
        name: name.to_string(),
        description: format!("{name} description"),
        dependencies: dependencies.into_iter().map(String::from).collect(),
        inputs: vec![],
        outputs: vec![],
        body: String::new(),
    }
}

fn build_test_graph() -> SkillGraph {
    let skill_set = SkillSet {
        skills: vec![
            make_skill("base", vec![]),
            make_skill("middle", vec!["base"]),
            make_skill("top", vec!["middle"]),
            make_skill("lonely", vec![]),
        ],
        warnings: vec![],
    };
    build_graph(&skill_set)
}

#[test]
fn query_uses_finds_direct_dependents() {
    let graph = build_test_graph();
    let users = query_uses(&graph, "base").unwrap();

    assert_eq!(users, vec!["middle"]);
}

#[test]
fn query_uses_returns_empty_for_unused_skill() {
    let graph = build_test_graph();
    let users = query_uses(&graph, "top").unwrap();

    assert!(users.is_empty());
}

#[test]
fn query_uses_returns_none_for_unknown_skill() {
    let graph = build_test_graph();

    assert!(query_uses(&graph, "nonexistent").is_none());
}

#[test]
fn query_uses_lists_newest_dependent_first() {
    let graph = build_graph(&SkillSet {
        skills: vec![
            make_skill("base", vec![]),
            make_skill("a", vec!["base"]),
            make_skill("b", vec!["base"]),
        ],
        warnings: vec![],
    });

    assert_eq!(query_uses(&graph, "base").unwrap(), vec!["b", "a"]);
}

#[test]
fn query_deps_finds_transitive_dependencies() {
    let graph = build_test_graph();
    let dependencies = query_deps(&graph, "top").unwrap();

    assert!(dependencies.contains(&"middle".to_string()));
    assert!(dependencies.contains(&"base".to_string()));
    assert_eq!(dependencies.len(), 2);
}

#[test]
fn query_deps_returns_empty_for_leaf() {
    let graph = build_test_graph();
    let dependencies = query_deps(&graph, "base").unwrap();

    assert!(dependencies.is_empty());
}

#[test]
fn query_deps_returns_none_for_unknown_skill() {
    let graph = build_test_graph();

    assert!(query_deps(&graph, "nonexistent").is_none());
}

#[test]
fn query_deps_in_a_cycle_includes_the_skill_itself_once() {
    let graph = build_graph(&SkillSet {
        skills: vec![
            make_skill("a", vec!["b"]),
            make_skill("b", vec!["a", "c"]),
            make_skill("c", vec![]),
        ],
        warnings: vec![],
    });
    let mut dependencies = query_deps(&graph, "a").unwrap();
    dependencies.sort();

    assert_eq!(dependencies, vec!["a", "b", "c"]);
}

#[test]
fn query_path_finds_direct_connection() {
    let graph = build_test_graph();
    let path = query_path(&graph, "middle", "base").unwrap();

    assert_eq!(path, vec!["middle", "base"]);
}

#[test]
fn query_path_finds_indirect_connection() {
    let graph = build_test_graph();
    let path = query_path(&graph, "top", "base").unwrap();

    assert_eq!(path.len(), 3);
    assert_eq!(path.first().unwrap(), "top");
    assert_eq!(path.last().unwrap(), "base");
}

#[test]
fn query_path_same_node() {
    let graph = build_test_graph();
    let path = query_path(&graph, "base", "base").unwrap();

    assert_eq!(path, vec!["base"]);
}

#[test]
fn query_path_returns_none_for_disconnected_nodes() {
    let graph = build_test_graph();
    let path = query_path(&graph, "lonely", "base");

    assert!(path.is_none());
}

#[test]
fn query_path_returns_none_for_unknown_skill() {
    let graph = build_test_graph();

    assert!(query_path(&graph, "nonexistent", "base").is_none());
}

#[test]
fn query_path_follows_edges_backwards_too() {
    let graph = build_test_graph();

    assert_eq!(query_path(&graph, "base", "top").unwrap(), vec!["base", "middle", "top"]);
}

#[test]
fn query_path_takes_the_shortcut() {
    let graph = build_graph(&SkillSet {
        skills: vec![
            make_skill("a", vec!["b"]),
            make_skill("b", vec!["c"]),
            make_skill("c", vec!["d"]),
            make_skill("d", vec![]),
            make_skill("e", vec!["a", "d"]),
        ],
        warnings: vec![],
    });

    assert_eq!(query_path(&graph, "a", "d").unwrap().len(), 3);
}

fn diamond() -> SkillGraph {
    build_graph(&SkillSet {
        skills: vec![
            make_skill("base", vec![]),
            make_skill("left", vec!["base"]),
            make_skill("right", vec!["base"]),
            make_skill("top", vec!["left", "right"]),
        ],
        warnings: vec![],
    })
}

#[test]
fn query_deps_lists_in_depth_first_order() {
    let graph = diamond();

    assert_eq!(query_deps(&graph, "top").unwrap(), vec!["right", "left", "base"]);
    assert_eq!(query_deps(&build_test_graph(), "top").unwrap(), vec!["middle", "base"]);
}

#[test]
fn query_path_prefers_the_newest_edge_among_shortest_paths() {
    let graph = diamond();

    assert_eq!(query_path(&graph, "top", "base").unwrap(), vec!["top", "right", "base"]);
    assert_eq!(query_path(&graph, "left", "right").unwrap(), vec!["left", "base", "right"]);
}
