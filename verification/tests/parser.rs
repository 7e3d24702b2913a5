use skills_md_graph::error::SkillError;
use skills_md_graph::model::Skill;
use skills_md_graph::parser::frontmatter::{extract_frontmatter, FrontMatter, FrontmatterError};
use skills_md_graph::parser::markdown::{parse_body, parse_heading};
use skills_md_graph::parser::{
    collect_files, gather_scan_results, scan_directory, skill_from_parts, DirEntryInfo, ScannedFile,
};

fn no_aliases() -> Vec<(String, String)> {
    vec![]
}

fn yaml_of(text: &str) -> serde_yaml::Value {
    serde_yaml::from_str(text).unwrap()
}

fn strings(value: &serde_yaml::Value) -> Vec<String> {
    value
        .as_sequence()
        .unwrap()
        .iter()
        .map(|item| item.as_str().unwrap().to_string())
        .collect()
}

#[test]
fn valid_frontmatter_with_all_fields() {
    let content = "---\nname: my-skill\ndescription: A test skill\ndependencies:\n  - dep-a\ninputs:\n  - input-1\noutputs:\n  - output-1\n---\n\nBody content here.";
    let parts = extract_frontmatter(content, &no_aliases()).unwrap();
    let yaml = yaml_of(&parts.yaml);

    assert_eq!(yaml["name"].as_str().unwrap(), "my-skill");
    assert_eq!(yaml["description"].as_str().unwrap(), "A test skill");
    assert_eq!(strings(&yaml["dependencies"]), vec!["dep-a"]);
    assert_eq!(strings(&yaml["inputs"]), vec!["input-1"]);
    assert_eq!(strings(&yaml["outputs"]), vec!["output-1"]);
    assert_eq!(parts.body, "Body content here.");
}

#[test]
fn valid_frontmatter_with_minimal_fields() {
    let content = "---\nname: minimal\n---\n\nSome body.";
    let parts = extract_frontmatter(content, &no_aliases()).unwrap();
    let yaml = yaml_of(&parts.yaml);

    assert_eq!(yaml["name"].as_str().unwrap(), "minimal");
    assert!(yaml.get("description").is_none());
    assert!(yaml.get("dependencies").is_none());
    assert_eq!(parts.body, "Some body.");
}

#[test]
fn missing_opening_delimiter() {
    let content = "name: no-delimiter\n---\nBody.";
    let result = extract_frontmatter(content, &no_aliases());
    assert!(result.is_err());
    assert_eq!(result.unwrap_err(), FrontmatterError::MissingOpeningDelimiter);
}

#[test]
fn missing_closing_delimiter() {
    let content = "---\nname: unclosed\nBody without closing.";
    let result = extract_frontmatter(content, &no_aliases());
    assert!(result.is_err());
    assert_eq!(result.unwrap_err(), FrontmatterError::MissingClosingDelimiter);
}

#[test]
fn invalid_yaml_content() {
    let content = "---\n: : : broken yaml [[\n---\nBody.";
    let parts = extract_frontmatter(content, &no_aliases()).unwrap();
    assert_eq!(parts.yaml, "\n: : : broken yaml [[");
    assert!(serde_yaml::from_str::<serde_yaml::Value>(&parts.yaml).is_err());
}

#[test]
fn empty_body_after_frontmatter() {
    let content = "---\nname: no-body\n---\n";
    let parts = extract_frontmatter(content, &no_aliases()).unwrap();

    assert_eq!(yaml_of(&parts.yaml)["name"].as_str().unwrap(), "no-body");
    assert_eq!(parts.body, "");
}

#[test]
fn aliases_resolve_before_parsing() {
    let aliases = vec![("deps".to_string(), "dependencies".to_string())];

    let content = "---\nname: aliased\ndeps:\n  - alpha\n  - beta\n---\n";
    let parts = extract_frontmatter(content, &aliases).unwrap();

    assert_eq!(strings(&yaml_of(&parts.yaml)["dependencies"]), vec!["alpha", "beta"]);
}

#[test]
fn frontmatter_after_leading_white_space() {
    let parts = extract_frontmatter("  \n---\nname: x\n---\n\n\nText", &no_aliases()).unwrap();
    assert_eq!(parts.yaml, "\nname: x");
    assert_eq!(parts.body, "Text");
}

#[test]
fn empty_body() {
    let result = parse_body("");
    assert!(result.sections.is_empty());
    assert_eq!(result.raw, "");
}

#[test]
fn multiple_sections() {
    let content = "## Description\n\nThis is the description.\n\n## Usage\n\nHow to use it.\n\n### Example\n\nSome example code.";
    let result = parse_body(content);

    assert_eq!(result.sections.len(), 3);

    assert_eq!(result.sections[0].heading, "Description");
    assert_eq!(result.sections[0].level, 2);
    assert_eq!(result.sections[0].content, "This is the description.");

    assert_eq!(result.sections[1].heading, "Usage");
    assert_eq!(result.sections[1].level, 2);
    assert_eq!(result.sections[1].content, "How to use it.");

    assert_eq!(result.sections[2].heading, "Example");
    assert_eq!(result.sections[2].level, 3);
    assert_eq!(result.sections[2].content, "Some example code.");
}

#[test]
fn body_without_headings() {
    let content = "Just some text\nwithout any headings.";
    let result = parse_body(content);

    assert!(result.sections.is_empty());
    assert_eq!(result.raw, content);
}

#[test]
fn section_with_empty_content() {
    let content = "## Empty Section\n## Next Section\n\nHas content.";
    let result = parse_body(content);

    assert_eq!(result.sections.len(), 2);
    assert_eq!(result.sections[0].heading, "Empty Section");
    assert_eq!(result.sections[0].content, "");
    assert_eq!(result.sections[1].content, "Has content.");
}

#[test]
fn text_before_first_heading_is_dropped_and_lines_join() {
    let result = parse_body("intro\n## A\nline one\r\nline two\n# not a section heading\n####### nor this");
    assert_eq!(result.sections.len(), 1);
    assert_eq!(result.sections[0].heading, "A");
    assert_eq!(
        result.sections[0].content,
        "line one\nline two\n# not a section heading\n####### nor this"
    );
}

#[test]
fn parse_heading_levels() {
    assert_eq!(parse_heading("## Title"), Some((2, "Title".to_string())));
    assert_eq!(parse_heading("   ######   Deep  "), Some((6, "Deep".to_string())));
    assert_eq!(parse_heading("# Top"), None);
    assert_eq!(parse_heading("####### Seven"), None);
    assert_eq!(parse_heading("##   "), None);
    assert_eq!(parse_heading("plain"), None);
}

fn entry(path: &str, is_file: bool, extension: Option<&str>) -> DirEntryInfo {
    DirEntryInfo {
        path: path.to_string(),
        is_file,
        extension: extension.map(String::from),
    }
}

#[test]
fn collect_files_keeps_files_with_extension_in_order() {
    let entries = vec![
        entry("d", false, None),
        entry("d/b.md", true, Some("md")),
        entry("d/notes.txt", true, Some("txt")),
        entry("d/sub.md", false, Some("md")),
        entry("d/a.md", true, Some("md")),
        entry("d/README", true, None),
    ];
    let files = collect_files("d", true, &entries, &vec!["md".to_string()]).unwrap();
    assert_eq!(files, vec!["d/b.md", "d/a.md"]);
}

#[test]
fn collect_files_reports_missing_directory_and_no_files() {
    match collect_files("gone", false, &vec![], &vec!["md".to_string()]) {
        Err(SkillError::DirectoryNotFound { path }) => assert_eq!(path, "gone"),
        other => panic!("unexpected {other:?}"),
    }
    let entries = vec![entry("d/x.txt", true, Some("txt"))];
    match collect_files("d", true, &entries, &vec!["md".to_string()]) {
        Err(SkillError::NoSkillFiles { path }) => assert_eq!(path, "d"),
        other => panic!("unexpected {other:?}"),
    }
}

fn front(name: &str, deps: Vec<&str>) -> FrontMatter {
    FrontMatter {
        name: name.to_string(),
        description: String::new(),
        dependencies: deps.into_iter().map(String::from).collect(),
        inputs: vec![],
        outputs: vec![],
    }
}

#[test]
fn skill_from_parts_keeps_fields_and_body() {
    let skill = skill_from_parts(front("s", vec!["d"]), "## H\nbody");
    assert_eq!(skill.name, "s");
    assert_eq!(skill.dependencies, vec!["d"]);
    assert_eq!(skill.body, "## H\nbody");
}

fn skill(name: &str) -> Skill {
    skill_from_parts(front(name, vec![]), "")
}

#[test]
fn scan_directory_collects_skills_and_warnings() {
    let files = vec![
        ScannedFile { path: "d/a.md".to_string(), outcome: Ok(skill("a")) },
        ScannedFile {
            path: "d/bad.md".to_string(),
            outcome: Err(SkillError::DirectoryNotFound { path: "x".to_string() }),
        },
        ScannedFile { path: "d/b.md".to_string(), outcome: Ok(skill("b")) },
    ];
    let set = scan_directory(files);
    let names: Vec<&str> = set.skills.iter().map(|s| s.name.as_str()).collect();
    assert_eq!(names, vec!["a", "b"]);
    assert_eq!(
        set.warnings,
        vec!["skipping d/bad.md: directory not found: x\n  hint: provide a valid directory path"]
    );
}

#[test]
fn gather_scan_results_reports_errors_without_path() {
    let outcomes = vec![
        Err(SkillError::FileRead { path: "p.md".to_string(), message: "denied".to_string() }),
        Ok(skill("a")),
    ];
    let set = gather_scan_results(outcomes);
    assert_eq!(set.skills.len(), 1);
    assert_eq!(
        set.warnings,
        vec!["skipping: p.md: failed to read file — denied\n  hint: check that the file exists and is readable"]
    );
}

#[test]
fn error_texts_are_exact() {
    let invalid = SkillError::InvalidYaml { path: "f.md".to_string(), message: "bad".to_string() };
    let none = SkillError::NoSkillFiles { path: "dir".to_string() };
    assert_eq!(
        invalid.to_string(),
        "f.md: invalid YAML frontmatter — bad\n  hint: ensure the file starts with `---` and contains valid YAML"
    );
    assert_eq!(
        none.to_string(),
        "no .md skill files found in dir\n  hint: add markdown files with YAML frontmatter to this directory"
    );
}

#[test]
fn sync_and_concurrent_scans_agree_on_the_same_outcomes() {
    let make_files = || {
        vec![
            ScannedFile { path: "d/a.md".to_string(), outcome: Ok(skill("a")) },
            ScannedFile {
                path: "d/bad.md".to_string(),
                outcome: Err(SkillError::InvalidYaml { path: "d/bad.md".to_string(), message: "m".to_string() }),
            },
            ScannedFile { path: "d/b.md".to_string(), outcome: Ok(skill("b")) },
        ]
    };
    let sync = scan_directory(make_files());
    let concurrent = gather_scan_results(make_files().into_iter().map(|f| f.outcome).collect());

    let names = |set: &skills_md_graph::model::SkillSet| -> Vec<String> {
        set.skills.iter().map(|s| s.name.clone()).collect()
    };
    assert_eq!(names(&sync), names(&concurrent));
    assert_eq!(sync.warnings.len(), concurrent.warnings.len());
    assert_eq!(sync.warnings[0], format!("skipping d/bad.md: {}", &concurrent.warnings[0]["skipping: ".len()..]));
}
