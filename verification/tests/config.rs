use skills_md_graph::config::{
    apply_aliases, default_workers, discover_config_path, Config, SchemaConfig, CONFIG_FILENAME,
};

#[test]
fn default_config_has_sensible_values() {
    let config = Config::default_with_workers(default_workers(None));

    assert_eq!(config.schema.required_fields, vec!["name"]);
    assert!(config
        .schema
        .optional_fields
        .contains(&"description".to_string()));
    assert!(config.schema.aliases.is_empty());
    assert!(config.scan.workers > 0);
    assert_eq!(config.scan.extensions, vec!["md"]);
}

#[test]
fn default_workers_uses_reported_parallelism() {
    assert_eq!(default_workers(Some(8)), 8);
    assert_eq!(default_workers(None), 4);
}

#[test]
fn schema_default_lists_optional_fields() {
    let schema = SchemaConfig::default();
    assert_eq!(
        schema.optional_fields,
        vec!["description", "dependencies", "inputs", "outputs"]
    );
}

#[test]
fn apply_aliases_replaces_keys() {
    let aliases = vec![
        ("deps".to_string(), "dependencies".to_string()),
        ("desc".to_string(), "description".to_string()),
    ];

    let yaml = "name: test\ndeps:\n  - alpha\ndesc: hello";
    let result = apply_aliases(yaml, &aliases);

    assert!(result.contains("dependencies:"));
    assert!(result.contains("description:"));
    assert!(!result.contains("deps:"));
    assert!(!result.contains("desc:"));
}

#[test]
fn apply_aliases_noop_when_empty() {
    let aliases: Vec<(String, String)> = vec![];
    let yaml = "name: test\ndeps:\n  - alpha";
    let result = apply_aliases(yaml, &aliases);

    assert_eq!(result, yaml);
}

#[test]
fn apply_aliases_rewrites_first_line_key() {
    let aliases = vec![("deps".to_string(), "dependencies".to_string())];
    let result = apply_aliases("deps:\n  - a\nname: x", &aliases);

    assert_eq!(result, "dependencies:\n  - a\nname: x");
}

#[test]
fn apply_aliases_leaves_values_and_inner_text() {
    let aliases = vec![("deps".to_string(), "dependencies".to_string())];
    let result = apply_aliases("name: deps: thing\n  deps: nested", &aliases);

    assert_eq!(result, "name: deps: thing\n  deps: nested");
}

#[test]
fn discover_config_walks_up_parents() {
    let candidates = vec![
        (format!("/tmp/skill-graph-test-discover/sub/deep/{CONFIG_FILENAME}"), false),
        (format!("/tmp/skill-graph-test-discover/sub/{CONFIG_FILENAME}"), false),
        (format!("/tmp/skill-graph-test-discover/{CONFIG_FILENAME}"), true),
        (format!("/tmp/{CONFIG_FILENAME}"), true),
    ];

    let found = discover_config_path(&candidates);
    assert_eq!(
        found,
        Some(format!("/tmp/skill-graph-test-discover/{CONFIG_FILENAME}"))
    );
}

#[test]
fn discover_config_finds_nothing_without_file() {
    let candidates = vec![
        ("/a/b/.skill-graph.toml".to_string(), false),
        ("/a/.skill-graph.toml".to_string(), false),
    ];
    assert_eq!(discover_config_path(&candidates), None);
    assert_eq!(discover_config_path(&vec![]), None);
}
