//! Errors met while reading skill files.
use vstd::prelude::*;
use crate::text::{push_str, string_of};

verus! {

#[derive(Debug)]
pub enum SkillError {
    /// The file's frontmatter is missing or is not valid YAML; `message`
    /// is what the YAML parser reported.
    InvalidYaml { path: String, message: String },
    /// The file could not be read; `message` is the I/O error.
    FileRead { path: String, message: String },
    DirectoryNotFound { path: String },
    NoSkillFiles { path: String },
}

/// The text that describes an error to the user, with a hint.
pub open spec fn error_text(e: SkillError) -> Seq<char> {
    match e {
        SkillError::InvalidYaml { path, message } => path@ + ": invalid YAML frontmatter — "@
            + message@ + "\n  hint: ensure the file starts with `---` and contains valid YAML"@,
        SkillError::FileRead { path, message } => path@ + ": failed to read file — "@ + message@
            + "\n  hint: check that the file exists and is readable"@,
        SkillError::DirectoryNotFound { path } => "directory not found: "@ + path@
            + "\n  hint: provide a valid directory path"@,
        SkillError::NoSkillFiles { path } => "no .md skill files found in "@ + path@
            + "\n  hint: add markdown files with YAML frontmatter to this directory"@,
    }
}

impl SkillError {
    /// The error's text (see `error_text`).
    pub fn to_string(&self) -> (s: String)
        ensures
            s@ == error_text(*self),
    {
        let mut out: Vec<char> = Vec::new();
        match self {
            SkillError::InvalidYaml { path, message } => {
                push_str(&mut out, path.as_str());
                push_str(&mut out, ": invalid YAML frontmatter — ");
                push_str(&mut out, message.as_str());
                push_str(&mut out, "\n  hint: ensure the file starts with `---` and contains valid YAML");
            },
            SkillError::FileRead { path, message } => {
                push_str(&mut out, path.as_str());
                push_str(&mut out, ": failed to read file — ");
                push_str(&mut out, message.as_str());
                push_str(&mut out, "\n  hint: check that the file exists and is readable");
            },
            SkillError::DirectoryNotFound { path } => {
                push_str(&mut out, "directory not found: ");
                push_str(&mut out, path.as_str());
                push_str(&mut out, "\n  hint: provide a valid directory path");
            },
            SkillError::NoSkillFiles { path } => {
                push_str(&mut out, "no .md skill files found in ");
                push_str(&mut out, path.as_str());
                push_str(&mut out, "\n  hint: add markdown files with YAML frontmatter to this directory");
            },
        }
        string_of(out.as_slice())
    }
}

} // verus!
