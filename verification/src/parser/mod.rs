//! From files found in a directory to a set of skills.
pub mod frontmatter;
pub mod markdown;

use vstd::prelude::*;
use crate::error::{SkillError, error_text};
use crate::model::{Skill, SkillSet};
use crate::text::{push_str, string_of};
use self::frontmatter::FrontMatter;
use self::markdown::parse_body;

verus! {

/// The skill described by a file's frontmatter fields and its body text.
pub fn skill_from_parts(frontmatter: FrontMatter, body_content: &str) -> (skill: Skill)
    ensures
        skill.name == frontmatter.name,
        skill.description == frontmatter.description,
        skill.dependencies == frontmatter.dependencies,
        skill.inputs == frontmatter.inputs,
        skill.outputs == frontmatter.outputs,
        skill.body@ == body_content@,
{
    let body = parse_body(body_content);
    Skill {
        name: frontmatter.name,
        description: frontmatter.description,
        dependencies: frontmatter.dependencies,
        inputs: frontmatter.inputs,
        outputs: frontmatter.outputs,
        body: body.raw,
    }
}

/// An entry found while walking a directory: its path, whether it is a
/// regular file, and its extension, if any.
#[derive(Debug, Clone)]
pub struct DirEntryInfo {
    pub path: String,
    pub is_file: bool,
    pub extension: Option<String>,
}

pub open spec fn entry_selected(e: DirEntryInfo, extensions: Seq<Seq<char>>) -> bool {
    e.is_file && (e.extension matches Some(x) && extensions.contains(x@))
}

/// The paths of the entries that are files with one of the extensions, in order.
pub open spec fn selected_paths(entries: Seq<DirEntryInfo>, extensions: Seq<Seq<char>>) -> Seq<Seq<char>>
    decreases entries.len(),
{
    if entries.len() == 0 {
        seq![]
    } else {
        let rest = selected_paths(entries.drop_last(), extensions);
        if entry_selected(entries.last(), extensions) {
            rest.push(entries.last().path@)
        } else {
            rest
        }
    }
}

/// The skill files are exactly the entries that are regular files with one of
/// the extensions, each given by its path, in the order found.
pub proof fn lemma_selected_paths(entries: Seq<DirEntryInfo>, extensions: Seq<Seq<char>>)
    ensures
        selected_paths(entries, extensions).len() <= entries.len(),
        forall|i: int|
            0 <= i < entries.len() && (#[trigger] entries[i]).is_file && entries[i].extension is Some
                && extensions.contains(entries[i].extension.unwrap()@) ==> selected_paths(entries, extensions).contains(
                entries[i].path@,
            ),
        forall|k: int|
            #![trigger selected_paths(entries, extensions)[k]]
            0 <= k < selected_paths(entries, extensions).len() ==> exists|i: int|
                0 <= i < entries.len() && (#[trigger] entries[i]).is_file && entries[i].extension is Some
                    && extensions.contains(entries[i].extension.unwrap()@) && selected_paths(entries, extensions)[k]
                    == entries[i].path@,
    decreases entries.len(),
{
    if entries.len() > 0 {
        let init = entries.drop_last();
        let l = entries.len() - 1;
        lemma_selected_paths(init, extensions);
        let rest = selected_paths(init, extensions);
        let all = selected_paths(entries, extensions);
        assert(entries.last() == entries[l]);
        if entry_selected(entries[l], extensions) {
            assert(all == rest.push(entries[l].path@));
        } else {
            assert(all == rest);
        }
        assert forall|i: int|
            0 <= i < entries.len() && (#[trigger] entries[i]).is_file && entries[i].extension is Some
                && extensions.contains(entries[i].extension.unwrap()@) implies all.contains(entries[i].path@) by {
            if i < l {
                assert(init[i] == entries[i]);
                assert(rest.contains(init[i].path@));
                let k = choose|k: int| 0 <= k < rest.len() && rest[k] == init[i].path@;
                assert(all[k] == rest[k]);
            } else {
                assert(all[all.len() - 1] == entries[l].path@);
            }
        }
        assert forall|k: int| #![trigger all[k]] 0 <= k < all.len() implies exists|i: int|
            0 <= i < entries.len() && (#[trigger] entries[i]).is_file && entries[i].extension is Some
                && extensions.contains(entries[i].extension.unwrap()@) && all[k] == entries[i].path@ by {
            if k < rest.len() {
                assert(all[k] == rest[k]);
                let i0 = choose|i: int|
                    0 <= i < init.len() && (#[trigger] init[i]).is_file && init[i].extension is Some
                        && extensions.contains(init[i].extension.unwrap()@) && rest[k] == init[i].path@;
                assert(entries[i0] == init[i0]);
            } else {
                assert(all[k] == entries[l].path@);
            }
        }
    }
}

fn has_extension(ext: &String, extensions: &Vec<String>) -> (b: bool)
    ensures
        b == extensions@.map_values(|s: String| s@).contains(ext@),
{
    let ghost exts = extensions@.map_values(|s: String| s@);
    let n = extensions.len();
    let mut i: usize = 0;
    while i < n
        invariant
            n == extensions@.len(),
            exts == extensions@.map_values(|s: String| s@),
            i <= n,
            forall|j: int| 0 <= j < i ==> exts[j] != ext@,
        decreases n - i,
    {
        if extensions[i] == *ext {
            assert(exts[i as int] == ext@);
            return true;
        }
        i = i + 1;
    }
    false
}

/// The skill files of a directory: the file entries with one of the given
/// extensions, in the order found. Fails when the directory does not exist or
/// holds no such file.
pub fn collect_files(
    directory: &str,
    directory_exists: bool,
    entries: &Vec<DirEntryInfo>,
    extensions: &Vec<String>,
) -> (r: Result<Vec<String>, SkillError>)
    ensures
        !directory_exists ==> (r matches Err(SkillError::DirectoryNotFound { path }) && path@
            == directory@),
        directory_exists && selected_paths(entries@, extensions@.map_values(|s: String| s@)).len()
            == 0 ==> (r matches Err(SkillError::NoSkillFiles { path }) && path@ == directory@),
        directory_exists && selected_paths(entries@, extensions@.map_values(|s: String| s@)).len()
            > 0 ==> (r matches Ok(files) && files@.map_values(|s: String| s@) == selected_paths(
            entries@,
            extensions@.map_values(|s: String| s@),
        )),
{
    if !directory_exists {
        return Err(SkillError::DirectoryNotFound { path: String::from_str(directory) });
    }
    let ghost exts = extensions@.map_values(|s: String| s@);
    let n = entries.len();
    let mut files: Vec<String> = Vec::new();
    let mut i: usize = 0;
    while i < n
        invariant
            n == entries@.len(),
            exts == extensions@.map_values(|s: String| s@),
            i <= n,
            files@.map_values(|s: String| s@) == selected_paths(entries@.take(i as int), exts),
        decreases n - i,
    {
        let e = &entries[i];
        let ghost before = files@.map_values(|s: String| s@);
        assert(entries@.take(i + 1).drop_last() =~= entries@.take(i as int));
        let keep = match &e.extension {
            Some(x) => e.is_file && has_extension(x, extensions),
            None => false,
        };
        if keep {
            files.push(e.path.clone());
            assert(files@.map_values(|s: String| s@) =~= before.push(e.path@));
        }
        i = i + 1;
    }
    assert(entries@.take(n as int) =~= entries@);
    if files.len() == 0 {
        return Err(SkillError::NoSkillFiles { path: String::from_str(directory) });
    }
    Ok(files)
}

/// A file of a scanned directory and the outcome of reading it as a skill.
#[derive(Debug)]
pub struct ScannedFile {
    pub path: String,
    pub outcome: Result<Skill, SkillError>,
}

/// The skills read, in order.
pub open spec fn scanned_skills(files: Seq<ScannedFile>) -> Seq<Skill>
    decreases files.len(),
{
    if files.len() == 0 {
        seq![]
    } else {
        let rest = scanned_skills(files.drop_last());
        match files.last().outcome {
            Ok(s) => rest.push(s),
            Err(_) => rest,
        }
    }
}

/// One warning for each file that could not be read as a skill, in order.
pub open spec fn scan_warnings(files: Seq<ScannedFile>) -> Seq<Seq<char>>
    decreases files.len(),
{
    if files.len() == 0 {
        seq![]
    } else {
        let rest = scan_warnings(files.drop_last());
        match files.last().outcome {
            Ok(_) => rest,
            Err(e) => rest.push("skipping "@ + files.last().path@ + ": "@ + error_text(e)),
        }
    }
}

/// A scan keeps the skill of every file read as one, and only those, and warns
/// `skipping <path>: <error>` for every file that could not be, and only for
/// those.
pub proof fn lemma_scan_outcomes(files: Seq<ScannedFile>)
    ensures
        forall|i: int|
            0 <= i < files.len() && (#[trigger] files[i]).outcome is Ok ==> scanned_skills(files).contains(
                files[i].outcome->Ok_0,
            ),
        forall|k: int|
            #![trigger scanned_skills(files)[k]]
            0 <= k < scanned_skills(files).len() ==> exists|i: int|
                0 <= i < files.len() && (#[trigger] files[i]).outcome == Ok::<Skill, SkillError>(scanned_skills(files)[k]),
        forall|i: int|
            0 <= i < files.len() && (#[trigger] files[i]).outcome is Err ==> scan_warnings(files).contains(
                "skipping "@ + files[i].path@ + ": "@ + error_text(files[i].outcome->Err_0),
            ),
        forall|k: int|
            #![trigger scan_warnings(files)[k]]
            0 <= k < scan_warnings(files).len() ==> exists|i: int|
                0 <= i < files.len() && (#[trigger] files[i]).outcome is Err && scan_warnings(files)[k] == "skipping "@
                    + files[i].path@ + ": "@ + error_text(files[i].outcome->Err_0),
    decreases files.len(),
{
    if files.len() > 0 {
        let init = files.drop_last();
        let l = files.len() - 1;
        lemma_scan_outcomes(init);
        let rs = scanned_skills(init);
        let rw = scan_warnings(init);
        let sk = scanned_skills(files);
        let sw = scan_warnings(files);
        assert(files.last() == files[l]);
        match files[l].outcome {
            Ok(x) => {
                assert(sk == rs.push(x));
                assert(sw == rw);
            },
            Err(e) => {
                assert(sk == rs);
                assert(sw == rw.push("skipping "@ + files[l].path@ + ": "@ + error_text(e)));
            },
        }
        assert forall|i: int| 0 <= i < files.len() && (#[trigger] files[i]).outcome is Ok implies sk.contains(
            files[i].outcome->Ok_0,
        ) by {
            if i < l {
                assert(init[i] == files[i]);
                let k = choose|k: int| 0 <= k < rs.len() && rs[k] == init[i].outcome->Ok_0;
                assert(sk[k] == rs[k]);
            } else {
                assert(sk[sk.len() - 1] == files[l].outcome->Ok_0);
            }
        }
        assert forall|k: int| #![trigger sk[k]] 0 <= k < sk.len() implies exists|i: int|
            0 <= i < files.len() && (#[trigger] files[i]).outcome == Ok::<Skill, SkillError>(sk[k]) by {
            if k < rs.len() {
                assert(sk[k] == rs[k]);
                let i0 = choose|i: int| 0 <= i < init.len() && (#[trigger] init[i]).outcome == Ok::<Skill, SkillError>(rs[k]);
                assert(files[i0] == init[i0]);
            } else {
                assert(files[l].outcome == Ok::<Skill, SkillError>(sk[k]));
            }
        }
        assert forall|i: int| 0 <= i < files.len() && (#[trigger] files[i]).outcome is Err implies sw.contains(
            "skipping "@ + files[i].path@ + ": "@ + error_text(files[i].outcome->Err_0),
        ) by {
            if i < l {
                assert(init[i] == files[i]);
                let x = "skipping "@ + init[i].path@ + ": "@ + error_text(init[i].outcome->Err_0);
                let k = choose|k: int| 0 <= k < rw.len() && rw[k] == x;
                assert(sw[k] == rw[k]);
            } else {
                assert(sw[sw.len() - 1] == "skipping "@ + files[l].path@ + ": "@ + error_text(files[l].outcome->Err_0));
            }
        }
        assert forall|k: int| #![trigger sw[k]] 0 <= k < sw.len() implies exists|i: int|
            0 <= i < files.len() && (#[trigger] files[i]).outcome is Err && sw[k] == "skipping "@ + files[i].path@
                + ": "@ + error_text(files[i].outcome->Err_0) by {
            if k < rw.len() {
                assert(sw[k] == rw[k]);
                let i0 = choose|i: int|
                    0 <= i < init.len() && (#[trigger] init[i]).outcome is Err && rw[k] == "skipping "@ + init[i].path@
                        + ": "@ + error_text(init[i].outcome->Err_0);
                assert(files[i0] == init[i0]);
            } else {
                assert(files[l].outcome is Err);
                assert(sw[k] == "skipping "@ + files[l].path@ + ": "@ + error_text(files[l].outcome->Err_0));
            }
        }
    } else {
        assert(scan_warnings(files).len() == 0);
        assert(scanned_skills(files).len() == 0);
    }
}

/// Every file scanned gives either a skill or a warning, never both nor neither.
pub proof fn lemma_each_file_accounted(files: Seq<ScannedFile>)
    ensures
        scanned_skills(files).len() + scan_warnings(files).len() == files.len(),
    decreases files.len(),
{
    if files.len() > 0 {
        lemma_each_file_accounted(files.drop_last());
    }
}

/// Every outcome of a concurrent scan gives either a skill or a warning.
pub proof fn lemma_each_outcome_accounted(outcomes: Seq<Result<Skill, SkillError>>)
    ensures
        outcome_skills(outcomes).len() + outcome_warnings(outcomes).len() == outcomes.len(),
    decreases outcomes.len(),
{
    if outcomes.len() > 0 {
        lemma_each_outcome_accounted(outcomes.drop_last());
    }
}

/// The outcomes of reading the files, in order.
pub open spec fn file_outcomes(files: Seq<ScannedFile>) -> Seq<Result<Skill, SkillError>> {
    files.map_values(|f: ScannedFile| f.outcome)
}

/// A scan one file after another and a concurrent scan of the same files with
/// the same outcomes agree: the same skills in the same order, and one warning
/// for each failed file in both, the one naming the file's path and the other
/// not.
pub proof fn lemma_scans_agree(files: Seq<ScannedFile>)
    ensures
        scanned_skills(files) == outcome_skills(file_outcomes(files)),
        scan_warnings(files).len() == outcome_warnings(file_outcomes(files)).len(),
        forall|i: int|
            0 <= i < scan_warnings(files).len() ==> exists|path: Seq<char>|
                #[trigger] scan_warnings(files)[i] == "skipping "@ + path + ": "@ + outcome_warnings(
                    file_outcomes(files),
                )[i].skip("skipping: "@.len() as int),
    decreases files.len(),
{
    reveal_strlit("skipping: ");
    if files.len() > 0 {
        let init = files.drop_last();
        lemma_scans_agree(init);
        assert(file_outcomes(files).drop_last() =~= file_outcomes(init));
        assert(file_outcomes(files).last() == files.last().outcome);
        let w = scan_warnings(files);
        let o = outcome_warnings(file_outcomes(files));
        let wi = scan_warnings(init);
        let oi = outcome_warnings(file_outcomes(init));
        match files.last().outcome {
            Ok(_) => {
                assert(w == wi && o == oi);
                assert forall|i: int| 0 <= i < w.len() implies exists|path: Seq<char>|
                    #[trigger] w[i] == "skipping "@ + path + ": "@ + o[i].skip("skipping: "@.len() as int) by {
                    assert(w[i] == wi[i] && o[i] == oi[i]);
                }
            },
            Err(e) => {
                assert(w == wi.push("skipping "@ + files.last().path@ + ": "@ + error_text(e)));
                assert(o == oi.push("skipping: "@ + error_text(e)));
                assert forall|i: int| 0 <= i < w.len() implies exists|path: Seq<char>|
                    #[trigger] w[i] == "skipping "@ + path + ": "@ + o[i].skip("skipping: "@.len() as int) by {
                    if i < wi.len() {
                        assert(w[i] == wi[i] && o[i] == oi[i]);
                    } else {
                        assert(o[i].skip("skipping: "@.len() as int) =~= error_text(e));
                        assert(w[i] == "skipping "@ + files.last().path@ + ": "@ + o[i].skip(
                            "skipping: "@.len() as int,
                        ));
                    }
                }
            },
        }
    }
}

/// Gathers the skills read from a directory's files; each file that could not
/// be read becomes a warning `skipping <path>: <error>`.
pub fn scan_directory(files: Vec<ScannedFile>) -> (set: SkillSet)
    ensures
        set.skills@ == scanned_skills(files@),
        set.warnings@.map_values(|s: String| s@) == scan_warnings(files@),
{
    let ghost all = files@;
    let mut skills: Vec<Skill> = Vec::new();
    let mut warnings: Vec<String> = Vec::new();
    let mut i: usize = 0;
    let mut files = files;
    let n = files.len();
    assert(all.take(0) =~= Seq::<ScannedFile>::empty());
    assert(all.skip(0) =~= all);
    while i < n
        invariant
            i <= n,
            n == all.len(),
            files@ == all.skip(i as int),
            skills@ == scanned_skills(all.take(i as int)),
            warnings@.map_values(|s: String| s@) == scan_warnings(all.take(i as int)),
        decreases n - i,
    {
        let f = files.remove(0);
        assert(f == all[i as int]);
        assert(files@ =~= all.skip(i + 1));
        assert(all.take(i + 1).drop_last() =~= all.take(i as int));
        let ghost wb = warnings@.map_values(|s: String| s@);
        match f.outcome {
            Ok(skill) => {
                skills.push(skill);
            },
            Err(e) => {
                let mut w: Vec<char> = Vec::new();
                push_str(&mut w, "skipping ");
                push_str(&mut w, f.path.as_str());
                push_str(&mut w, ": ");
                let text = e.to_string();
                push_str(&mut w, text.as_str());
                let ws = string_of(w.as_slice());
                warnings.push(ws);
                assert(warnings@.map_values(|s: String| s@) =~= wb.push(ws@));
            },
        }
        i = i + 1;
    }
    assert(all.take(n as int) =~= all);
    SkillSet { skills, warnings }
}

/// The skills among the outcomes of reading files, in order.
pub open spec fn outcome_skills(outcomes: Seq<Result<Skill, SkillError>>) -> Seq<Skill>
    decreases outcomes.len(),
{
    if outcomes.len() == 0 {
        seq![]
    } else {
        let rest = outcome_skills(outcomes.drop_last());
        match outcomes.last() {
            Ok(s) => rest.push(s),
            Err(_) => rest,
        }
    }
}

/// One warning `skipping: <error>` for each outcome that is an error, in order.
pub open spec fn outcome_warnings(outcomes: Seq<Result<Skill, SkillError>>) -> Seq<Seq<char>>
    decreases outcomes.len(),
{
    if outcomes.len() == 0 {
        seq![]
    } else {
        let rest = outcome_warnings(outcomes.drop_last());
        match outcomes.last() {
            Ok(_) => rest,
            Err(e) => rest.push("skipping: "@ + error_text(e)),
        }
    }
}

/// Gathers the outcomes of the files read by a concurrent scan, in the order
/// of the files: the skills read, and a warning `skipping: <error>` for each
/// file that could not be read as a skill.
pub fn gather_scan_results(outcomes: Vec<Result<Skill, SkillError>>) -> (set: SkillSet)
    ensures
        set.skills@ == outcome_skills(outcomes@),
        set.warnings@.map_values(|s: String| s@) == outcome_warnings(outcomes@),
{
    let ghost all = outcomes@;
    let mut skills: Vec<Skill> = Vec::new();
    let mut warnings: Vec<String> = Vec::new();
    let mut outcomes = outcomes;
    let n = outcomes.len();
    let mut i: usize = 0;
    assert(all.take(0) =~= Seq::<Result<Skill, SkillError>>::empty());
    assert(all.skip(0) =~= all);
    while i < n
        invariant
            i <= n,
            n == all.len(),
            outcomes@ == all.skip(i as int),
            skills@ == outcome_skills(all.take(i as int)),
            warnings@.map_values(|s: String| s@) == outcome_warnings(all.take(i as int)),
        decreases n - i,
    {
        let o = outcomes.remove(0);
        assert(o == all[i as int]);
        assert(outcomes@ =~= all.skip(i + 1));
        assert(all.take(i + 1).drop_last() =~= all.take(i as int));
        let ghost wb = warnings@.map_values(|s: String| s@);
        match o {
            Ok(skill) => {
                skills.push(skill);
            },
            Err(e) => {
                let mut w: Vec<char> = Vec::new();
                push_str(&mut w, "skipping: ");
                let text = e.to_string();
                push_str(&mut w, text.as_str());
                let ws = string_of(w.as_slice());
                warnings.push(ws);
                assert(warnings@.map_values(|s: String| s@) =~= wb.push(ws@));
            },
        }
        i = i + 1;
    }
    assert(all.take(n as int) =~= all);
    SkillSet { skills, warnings }
}

} // verus!
