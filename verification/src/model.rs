//! Skills as read from their markdown files.
use vstd::prelude::*;

verus! {

#[derive(Debug, Clone)]
pub struct Skill {
    pub name: String,
    pub description: String,
    pub dependencies: Vec<String>,
    pub inputs: Vec<String>,
    pub outputs: Vec<String>,
    pub body: String,
}

/// The skills read from a directory, and one warning for each file skipped.
#[derive(Debug, Clone)]
pub struct SkillSet {
    pub skills: Vec<Skill>,
    pub warnings: Vec<String>,
}

} // verus!
