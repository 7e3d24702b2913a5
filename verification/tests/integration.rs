use skills_md_graph::analysis::{has_errors, lint, Diagnostic};
use skills_md_graph::config::default_extensions;
use skills_md_graph::error::SkillError;
use skills_md_graph::export::{render_export, ExportFormat};
use skills_md_graph::graph::build_graph;
use skills_md_graph::graph::dot::render_dot;
use skills_md_graph::graph::stats::compute_stats;
use skills_md_graph::model::SkillSet;
use skills_md_graph::parser::frontmatter::{extract_frontmatter, FrontMatter};
use skills_md_graph::parser::{collect_files, scan_directory, skill_from_parts, DirEntryInfo, ScannedFile};
use skills_md_graph::query::{query_deps, query_path, query_uses};

const FIXTURES: &str = "tests/fixtures";

/// The files of the fixtures directory: (path, content).
fn fixture_files() -> Vec<(&'static str, &'static str)> {
    vec![
        (
            "tests/fixtures/error-handling.md",
            "---\nname: error-handling\ndescription: Master Rust error handling patterns\ndependencies:\n  - rust-basics\n---\n\n## Description\n\nThis skill covers Result, Option, and the ? operator.\n",
        ),
        (
            "tests/fixtures/rust-basics.md",
            "---\nname: rust-basics\ndescription: Ownership, borrowing and the basics of Rust\n---\n\n## Description\n\nThe foundations every other skill builds on.\n",
        ),
        (
            "tests/fixtures/skill-invalid.md",
            "This file has no frontmatter at all.\n",
        ),
    ]
}

fn entries() -> Vec<DirEntryInfo> {
    let mut entries = vec![DirEntryInfo {
        path: FIXTURES.to_string(),
        is_file: false,
        extension: None,
    }];
    for (path, _) in fixture_files() {
        entries.push(DirEntryInfo {
            path: path.to_string(),
            is_file: true,
            extension: Some("md".to_string()),
        });
    }
    entries
}

fn strings(value: &serde_yaml::Value) -> Vec<String> {
    match value.as_sequence() {
        Some(items) => items.iter().map(|item| item.as_str().unwrap().to_string()).collect(),
        None => vec![],
    }
}

/// Reads one fixture the way the command line does: locate the frontmatter,
/// parse its YAML, and build the skill.
fn read_skill(path: &str, content: &str) -> ScannedFile {
    let invalid = |message: String| SkillError::InvalidYaml {
        path: path.to_string(),
        message,
    };
    let outcome = match extract_frontmatter(content, &vec![]) {
        Err(_) => Err(invalid("missing frontmatter delimiters".to_string())),
        Ok(parts) => match serde_yaml::from_str::<serde_yaml::Value>(&parts.yaml) {
            Err(error) => Err(invalid(error.to_string())),
            Ok(yaml) => match yaml["name"].as_str() {
                None => Err(invalid("missing field `name`".to_string())),
                Some(name) => {
                    let frontmatter = FrontMatter {
                        name: name.to_string(),
                        description: yaml["description"].as_str().unwrap_or("").to_string(),
                        dependencies: strings(&yaml["dependencies"]),
                        inputs: strings(&yaml["inputs"]),
                        outputs: strings(&yaml["outputs"]),
                    };
                    Ok(skill_from_parts(frontmatter, &parts.body))
                }
            },
        },
    };
    ScannedFile {
        path: path.to_string(),
        outcome,
    }
}

fn scan_fixtures() -> SkillSet {
    let paths = collect_files(FIXTURES, true, &entries(), &default_extensions()).unwrap();
    let files = fixture_files();
    let scanned = paths
        .iter()
        .map(|path| {
            let (_, content) = files.iter().find(|(p, _)| p == path).unwrap();
            read_skill(path, content)
        })
        .collect();
    scan_directory(scanned)
}

#[test]
fn scan_fixtures_finds_valid_skills() {
    let skill_set = scan_fixtures();

    assert_eq!(skill_set.skills.len(), 2);

    let skill_names: Vec<&str> = skill_set.skills.iter().map(|s| s.name.as_str()).collect();
    assert!(skill_names.contains(&"rust-basics"));
    assert!(skill_names.contains(&"error-handling"));
}

#[test]
fn scan_fixtures_reports_warnings_for_invalid_files() {
    let skill_set = scan_fixtures();

    assert!(!skill_set.warnings.is_empty());
    assert!(
        skill_set.warnings.iter().any(|warning| warning.contains("skill-invalid")),
        "expected a warning about skill-invalid.md"
    );
}

#[test]
fn scan_fixtures_parses_dependencies() {
    let skill_set = scan_fixtures();

    let error_handling = skill_set
        .skills
        .iter()
        .find(|skill| skill.name == "error-handling")
        .expect("error-handling skill not found");

    assert_eq!(error_handling.dependencies, vec!["rust-basics"]);
}

#[test]
fn scan_nonexistent_directory_returns_error() {
    let result = collect_files("nonexistent/path", false, &vec![], &default_extensions());
    assert!(result.is_err());
}

#[test]
fn graph_from_fixtures_has_correct_structure() {
    let graph = build_graph(&scan_fixtures());

    assert_eq!(graph.node_count(), 2);
    assert_eq!(graph.edge_count(), 1);
    assert!(graph.contains_skill("rust-basics"));
    assert!(graph.contains_skill("error-handling"));
}

#[test]
fn graph_dot_output_contains_expected_elements() {
    let graph = build_graph(&scan_fixtures());
    let dot = render_dot(&graph);

    assert!(dot.contains("digraph skills"));
    assert!(dot.contains("\"rust-basics\""));
    assert!(dot.contains("\"error-handling\""));
    assert!(dot.contains("\"error-handling\" -> \"rust-basics\""));
}

#[test]
fn graph_stats_from_fixtures_are_accurate() {
    let graph = build_graph(&scan_fixtures());
    let stats = compute_stats(&graph);

    assert_eq!(stats.skill_count, 2);
    assert_eq!(stats.edge_count, 1);
    assert!(!stats.has_cycles);
    assert!(stats.orphan_skills.is_empty());
}

#[test]
fn graph_warns_on_missing_dependency_in_fixtures() {
    let graph = build_graph(&scan_fixtures());

    assert!(graph.warnings().is_empty());
}

#[test]
fn lint_fixtures_has_no_errors() {
    let graph = build_graph(&scan_fixtures());
    let diagnostics = lint(&graph);

    assert!(!has_errors(&diagnostics));
}

#[test]
fn lint_fixtures_reports_isolated_invalid_warning() {
    let graph = build_graph(&scan_fixtures());
    let diagnostics = lint(&graph);

    let isolated: Vec<_> = diagnostics
        .iter()
        .filter(|diagnostic| matches!(diagnostic, Diagnostic::Isolated { .. }))
        .collect();
    assert!(isolated.is_empty());
}

#[test]
fn query_uses_on_fixtures() {
    let graph = build_graph(&scan_fixtures());

    let users = query_uses(&graph, "rust-basics").unwrap();
    assert_eq!(users, vec!["error-handling"]);
}

#[test]
fn query_deps_on_fixtures() {
    let graph = build_graph(&scan_fixtures());

    let dependencies = query_deps(&graph, "error-handling").unwrap();
    assert_eq!(dependencies, vec!["rust-basics"]);
}

#[test]
fn query_path_on_fixtures() {
    let graph = build_graph(&scan_fixtures());

    let path_result = query_path(&graph, "error-handling", "rust-basics").unwrap();
    assert_eq!(path_result, vec!["error-handling", "rust-basics"]);
}

#[test]
fn query_unknown_skill_returns_none() {
    let graph = build_graph(&scan_fixtures());

    assert!(query_uses(&graph, "nonexistent").is_none());
}

#[test]
fn export_rdf_from_fixtures() {
    let graph = build_graph(&scan_fixtures());
    let turtle = render_export(&graph, ExportFormat::Rdf);

    assert!(turtle.contains("@prefix skill:"));
    assert!(turtle.contains("skill:dependsOn"));
}

#[test]
fn export_cypher_from_fixtures() {
    let graph = build_graph(&scan_fixtures());
    let cypher = render_export(&graph, ExportFormat::Cypher);

    assert!(cypher.contains("CREATE (:Skill"));
    assert!(cypher.contains("DEPENDS_ON"));
}
