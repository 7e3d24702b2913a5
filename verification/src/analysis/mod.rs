//! Lint diagnostics over the skill graph: circular dependencies, missing
//! dependencies and isolated skills.
pub mod cycles;
pub mod isolation;

use vstd::prelude::*;
use crate::graph::{
    SkillGraph, dependency_names, dependency_warnings, expected_warnings, last_index_of,
    missing_dependency_message, node_names, skill_names, warnings_of_skills,
};
use crate::model::Skill;
use crate::query::names_at;
use crate::text::{
    char_vectors, chars_of, clone_strings, join, join_exec, push_chars, push_str, split_once, split_once_exec,
    string_of, string_views, strip_suffix, strip_suffix_exec, lemma_find_is, occurs_at,
};
use cycles::{cycle_views, detect_cycles, multi_node_components, mutually_dependent_pair, name_lists};
use isolation::{SkillRole, classification_views, classified, classify_skills, node_role};
use crate::graph::stats::{is_orphan, orphan_names};

verus! {

#[derive(Debug, Clone, Copy, PartialEq, Eq, Structural)]
pub enum Severity {
    Error,
    Warning,
    Info,
}

#[derive(Debug, Clone)]
pub enum Diagnostic {
    Cycle { skill_names: Vec<String> },
    Isolated { skill_name: String },
    MissingDependency { skill_name: String, dependency_name: String },
}

/// A diagnostic with its names as character sequences.
pub enum DiagnosticView {
    Cycle(Seq<Seq<char>>),
    Isolated(Seq<char>),
    MissingDependency(Seq<char>, Seq<char>),
}

impl View for Diagnostic {
    type V = DiagnosticView;

    open spec fn view(&self) -> DiagnosticView {
        match self {
            Diagnostic::Cycle { skill_names } => DiagnosticView::Cycle(string_views(skill_names@)),
            Diagnostic::Isolated { skill_name } => DiagnosticView::Isolated(skill_name@),
            Diagnostic::MissingDependency { skill_name, dependency_name } => DiagnosticView::MissingDependency(
                skill_name@,
                dependency_name@,
            ),
        }
    }
}

/// A cycle is an error, a missing dependency a warning, an isolated skill
/// only information.
pub open spec fn severity_of(d: DiagnosticView) -> Severity {
    match d {
        DiagnosticView::Cycle(_) => Severity::Error,
        DiagnosticView::MissingDependency(_, _) => Severity::Warning,
        DiagnosticView::Isolated(_) => Severity::Info,
    }
}

/// The line that reports a diagnostic.
pub open spec fn diagnostic_text(d: DiagnosticView) -> Seq<char> {
    match d {
        DiagnosticView::Cycle(names) => "error: circular dependency: "@ + join(names, " -> "@),
        DiagnosticView::Isolated(name) => "info: skill \""@ + name + "\" is isolated (no connections)"@,
        DiagnosticView::MissingDependency(skill, dependency) => "warning: \""@ + skill
            + "\" depends on \""@ + dependency + "\" which was not found"@,
    }
}

impl Diagnostic {
    pub fn severity(&self) -> (s: Severity)
        ensures
            s == severity_of(self@),
    {
        match self {
            Diagnostic::Cycle { .. } => Severity::Error,
            Diagnostic::MissingDependency { .. } => Severity::Warning,
            Diagnostic::Isolated { .. } => Severity::Info,
        }
    }

    /// The line that reports this diagnostic (see `diagnostic_text`).
    pub fn to_string(&self) -> (s: String)
        ensures
            s@ == diagnostic_text(self@),
    {
        let mut out: Vec<char> = Vec::new();
        match self {
            Diagnostic::Cycle { skill_names } => {
                push_str(&mut out, "error: circular dependency: ");
                let parts = char_vectors(skill_names);
                let sep = chars_of(" -> ");
                let chain = join_exec(&parts, sep.as_slice());
                push_chars(&mut out, chain.as_slice());
            },
            Diagnostic::Isolated { skill_name } => {
                push_str(&mut out, "info: skill \"");
                push_str(&mut out, skill_name.as_str());
                push_str(&mut out, "\" is isolated (no connections)");
            },
            Diagnostic::MissingDependency { skill_name, dependency_name } => {
                push_str(&mut out, "warning: \"");
                push_str(&mut out, skill_name.as_str());
                push_str(&mut out, "\" depends on \"");
                push_str(&mut out, dependency_name.as_str());
                push_str(&mut out, "\" which was not found");
            },
        }
        string_of(out.as_slice())
    }
}

pub open spec fn diagnostic_views(v: Seq<Diagnostic>) -> Seq<DiagnosticView> {
    v.map_values(|d: Diagnostic| d@)
}

/// The skill and the dependency that a missing-dependency warning of the
/// graph names: the text before the first `: dependency "`, and the rest
/// without its closing `" not found in scanned skills`.
pub open spec fn parse_missing(w: Seq<char>) -> Option<(Seq<char>, Seq<char>)> {
    match split_once(w, ": dependency \""@) {
        Some((skill, rest)) => match strip_suffix(rest, "\" not found in scanned skills"@) {
            Some(dependency) => Some((skill, dependency)),
            None => None,
        },
        None => None,
    }
}

/// A missing-dependency diagnostic for each warning that reads as one, in order.
pub open spec fn missing_diagnostics(warnings: Seq<Seq<char>>) -> Seq<DiagnosticView>
    decreases warnings.len(),
{
    if warnings.len() == 0 {
        seq![]
    } else {
        let rest = missing_diagnostics(warnings.drop_last());
        match parse_missing(warnings.last()) {
            Some((skill, dependency)) => rest.push(DiagnosticView::MissingDependency(skill, dependency)),
            None => rest,
        }
    }
}

/// An isolated-skill diagnostic for each classified skill that is isolated, in order.
pub open spec fn isolated_diagnostics(cs: Seq<(Seq<char>, SkillRole)>) -> Seq<DiagnosticView>
    decreases cs.len(),
{
    if cs.len() == 0 {
        seq![]
    } else {
        let rest = isolated_diagnostics(cs.drop_last());
        if cs.last().1 == SkillRole::Isolated {
            rest.push(DiagnosticView::Isolated(cs.last().0))
        } else {
            rest
        }
    }
}

pub open spec fn cycle_diagnostics(lists: Seq<Seq<Seq<char>>>) -> Seq<DiagnosticView> {
    lists.map_values(|l: Seq<Seq<char>>| DiagnosticView::Cycle(l))
}

/// The diagnostics of a graph: its cycles, then its missing dependencies,
/// then its isolated skills.
pub open spec fn lint_of(graph: SkillGraph) -> Seq<DiagnosticView> {
    let names = node_names(graph.nodes());
    cycle_diagnostics(name_lists(names, multi_node_components(graph.components())))
        + missing_diagnostics(graph.warning_texts())
        + isolated_diagnostics(classified(names, graph.edges(), graph.nodes().len()))
}

/// Some diagnostic is an error.
pub open spec fn any_error(ds: Seq<DiagnosticView>) -> bool {
    exists|i: int| 0 <= i < ds.len() && severity_of(#[trigger] ds[i]) == Severity::Error
}

fn missing_from_warning(w: &String) -> (r: Option<Diagnostic>)
    ensures
        r is Some <==> parse_missing(w@) is Some,
        r is Some ==> r.unwrap()@ == DiagnosticView::MissingDependency(
            parse_missing(w@).unwrap().0,
            parse_missing(w@).unwrap().1,
        ),
{
    let cs = chars_of(w.as_str());
    let marker = chars_of(": dependency \"");
    match split_once_exec(cs.as_slice(), marker.as_slice()) {
        Some((skill, rest)) => {
            let tail = chars_of("\" not found in scanned skills");
            match strip_suffix_exec(rest.as_slice(), tail.as_slice()) {
                Some(dependency) => Some(
                    Diagnostic::MissingDependency {
                        skill_name: string_of(skill.as_slice()),
                        dependency_name: string_of(dependency.as_slice()),
                    },
                ),
                None => None,
            }
        },
        None => None,
    }
}

/// The diagnostics of the graph (see `lint_of`). It reports an error exactly
/// when two different skills depend on each other, directly or not.
pub fn lint(graph: &SkillGraph) -> (ds: Vec<Diagnostic>)
    ensures
        diagnostic_views(ds@) == lint_of(*graph),
        any_error(diagnostic_views(ds@)) <==> mutually_dependent_pair(graph.edges(), graph.nodes().len()),
        forall|i: int|
            0 <= i < multi_node_components(graph.components()).len() ==> #[trigger] ds@[i]@ == DiagnosticView::Cycle(
                names_at(node_names(graph.nodes()), multi_node_components(graph.components())[i]),
            ),
        forall|i: int|
            multi_node_components(graph.components()).len() <= i < ds@.len() ==> !(#[trigger] ds@[i]@ is Cycle),
{
    let ghost names = node_names(graph.nodes());
    let mut ds: Vec<Diagnostic> = Vec::new();

    let cycles = detect_cycles(graph);
    let ghost lists = name_lists(names, multi_node_components(graph.components()));
    let nc = cycles.len();
    let mut i: usize = 0;
    while i < nc
        invariant
            nc == cycles@.len(),
            cycle_views(cycles@) == lists,
            i <= nc,
            diagnostic_views(ds@) == cycle_diagnostics(lists.take(i as int)),
        decreases nc - i,
    {
        let ghost before = diagnostic_views(ds@);
        let skill_names = clone_strings(&cycles[i]);
        assert(string_views(skill_names@) == lists[i as int]);
        ds.push(Diagnostic::Cycle { skill_names });
        assert(diagnostic_views(ds@) =~= before.push(DiagnosticView::Cycle(lists[i as int])));
        assert(lists.take(i + 1) =~= lists.take(i as int).push(lists[i as int]));
        i = i + 1;
        assert(diagnostic_views(ds@) =~= cycle_diagnostics(lists.take(i as int)));
    }
    assert(lists.take(nc as int) =~= lists);
    let ghost after_cycles = diagnostic_views(ds@);

    let warnings = graph.warnings();
    let ghost ws = graph.warning_texts();
    let nw = warnings.len();
    i = 0;
    assert(ws.take(0) =~= Seq::<Seq<char>>::empty());
    while i < nw
        invariant
            nw == ws.len(),
            warnings@.map_values(|s: String| s@) == ws,
            i <= nw,
            diagnostic_views(ds@) == after_cycles + missing_diagnostics(ws.take(i as int)),
        decreases nw - i,
    {
        let ghost before = diagnostic_views(ds@);
        assert(ws.take(i + 1).drop_last() =~= ws.take(i as int));
        assert(ws[i as int] == warnings@[i as int]@);
        match missing_from_warning(&warnings[i]) {
            Some(d) => {
                ds.push(d);
                assert(diagnostic_views(ds@) =~= before.push(d@));
            },
            None => {},
        }
        i = i + 1;
        assert(diagnostic_views(ds@) =~= after_cycles + missing_diagnostics(ws.take(i as int)));
    }
    assert(ws.take(nw as int) =~= ws);
    let ghost after_missing = diagnostic_views(ds@);

    let classes = classify_skills(graph);
    let ghost cs = classified(names, graph.edges(), graph.nodes().len());
    let nk = classes.len();
    i = 0;
    assert(cs.take(0) =~= Seq::<(Seq<char>, SkillRole)>::empty());
    while i < nk
        invariant
            nk == cs.len(),
            classification_views(classes@) == cs,
            i <= nk,
            diagnostic_views(ds@) == after_missing + isolated_diagnostics(cs.take(i as int)),
        decreases nk - i,
    {
        let ghost before = diagnostic_views(ds@);
        assert(cs.take(i + 1).drop_last() =~= cs.take(i as int));
        assert(cs[i as int] == (classes@[i as int].name@, classes@[i as int].role));
        if classes[i].role == SkillRole::Isolated {
            let skill_name = classes[i].name.clone();
            ds.push(Diagnostic::Isolated { skill_name });
            assert(diagnostic_views(ds@) =~= before.push(DiagnosticView::Isolated(cs[i as int].0)));
        }
        i = i + 1;
        assert(diagnostic_views(ds@) =~= after_missing + isolated_diagnostics(cs.take(i as int)));
    }
    assert(cs.take(nk as int) =~= cs);
    assert(diagnostic_views(ds@) =~= lint_of(*graph));
    proof {
        lemma_errors_are_cycles(lists, ws, cs);
        lemma_lint_cycles(*graph);
        crate::analysis::cycles::lemma_name_lists(names, multi_node_components(graph.components()));
        let dv = diagnostic_views(ds@);
        assert forall|i: int| 0 <= i < multi_node_components(graph.components()).len() implies #[trigger] ds@[i]@
            == DiagnosticView::Cycle(names_at(names, multi_node_components(graph.components())[i])) by {
            assert(dv[i] == ds@[i]@);
            assert(lists[i] == names_at(names, multi_node_components(graph.components())[i]));
        }
        assert forall|i: int| multi_node_components(graph.components()).len() <= i < ds@.len() implies !(
        #[trigger] ds@[i]@ is Cycle) by {
            assert(dv[i] == ds@[i]@);
        }
        assert(lists.len() == cycles@.len());
    }
    ds
}

/// The lint of a graph starts with one cycle diagnostic for each cycle of the
/// graph, in order, each holding that cycle's names; no other diagnostic is a
/// cycle diagnostic.
pub proof fn lemma_lint_cycles(graph: SkillGraph)
    ensures
        lint_of(graph).len() >= name_lists(
            node_names(graph.nodes()),
            multi_node_components(graph.components()),
        ).len(),
        forall|i: int|
            0 <= i < name_lists(node_names(graph.nodes()), multi_node_components(graph.components())).len()
                ==> #[trigger] lint_of(graph)[i] == DiagnosticView::Cycle(
                name_lists(node_names(graph.nodes()), multi_node_components(graph.components()))[i],
            ),
        forall|i: int|
            name_lists(node_names(graph.nodes()), multi_node_components(graph.components())).len() <= i
                < lint_of(graph).len() ==> !(#[trigger] lint_of(graph)[i] is Cycle),
{
    let names = node_names(graph.nodes());
    let lists = name_lists(names, multi_node_components(graph.components()));
    let ws = graph.warning_texts();
    let cs = classified(names, graph.edges(), graph.nodes().len());
    let c = cycle_diagnostics(lists);
    let m = missing_diagnostics(ws);
    let d = isolated_diagnostics(cs);
    let all = c + m + d;
    assert(all == lint_of(graph));
    lemma_no_errors_missing(ws);
    lemma_no_errors_isolated(cs);
    assert(c.len() == lists.len());
    assert forall|i: int| 0 <= i < lists.len() implies #[trigger] all[i] == DiagnosticView::Cycle(lists[i]) by {
        assert(all[i] == c[i]);
    }
    assert forall|i: int| lists.len() <= i < all.len() implies !(#[trigger] all[i] is Cycle) by {
        if i < lists.len() + m.len() {
            assert(all[i] == m[i - lists.len()]);
            assert(severity_of(m[i - lists.len()]) == Severity::Warning);
        } else {
            assert(all[i] == d[i - lists.len() - m.len()]);
            assert(severity_of(d[i - lists.len() - m.len()]) == Severity::Info);
        }
    }
}

/// Only cycle diagnostics are errors.
proof fn lemma_errors_are_cycles(
    lists: Seq<Seq<Seq<char>>>,
    ws: Seq<Seq<char>>,
    cs: Seq<(Seq<char>, SkillRole)>,
)
    ensures
        any_error(cycle_diagnostics(lists) + missing_diagnostics(ws) + isolated_diagnostics(cs))
            <==> lists.len() > 0,
{
    let all = cycle_diagnostics(lists) + missing_diagnostics(ws) + isolated_diagnostics(cs);
    lemma_no_errors_missing(ws);
    lemma_no_errors_isolated(cs);
    if lists.len() > 0 {
        assert(severity_of(all[0]) == Severity::Error);
    }
    if any_error(all) {
        let i = choose|i: int| 0 <= i < all.len() && severity_of(#[trigger] all[i]) == Severity::Error;
        if i >= lists.len() {
            let m = missing_diagnostics(ws);
            if i < lists.len() + m.len() {
                assert(all[i] == m[i - lists.len()]);
            } else {
                assert(all[i] == isolated_diagnostics(cs)[i - lists.len() - m.len()]);
            }
        }
    }
}

proof fn lemma_no_errors_missing(ws: Seq<Seq<char>>)
    ensures
        forall|i: int|
            0 <= i < missing_diagnostics(ws).len() ==> severity_of(#[trigger] missing_diagnostics(ws)[i])
                == Severity::Warning,
    decreases ws.len(),
{
    if ws.len() > 0 {
        lemma_no_errors_missing(ws.drop_last());
    }
}

proof fn lemma_no_errors_isolated(cs: Seq<(Seq<char>, SkillRole)>)
    ensures
        forall|i: int|
            0 <= i < isolated_diagnostics(cs).len() ==> severity_of(#[trigger] isolated_diagnostics(cs)[i])
                == Severity::Info,
    decreases cs.len(),
{
    if cs.len() > 0 {
        lemma_no_errors_isolated(cs.drop_last());
    }
}

/// A missing-dependency warning of the graph reads back as the skill and the
/// dependency it was made from, when the skill's name holds no colon.
pub proof fn lemma_missing_round_trip(skill: Seq<char>, dependency: Seq<char>)
    requires
        !skill.contains(':'),
    ensures
        parse_missing(missing_dependency_message(skill, dependency)) == Some((skill, dependency)),
{
    let marker = ": dependency \""@;
    let tail = "\" not found in scanned skills"@;
    reveal_strlit(": dependency \"");
    let w = missing_dependency_message(skill, dependency);
    assert(w =~= skill + marker + dependency + tail);
    let k = skill.len() as int;
    assert(w.subrange(k, k + marker.len()) =~= marker);
    assert forall|j: int| 0 <= j < k implies !occurs_at(w, marker, j) by {
        if occurs_at(w, marker, j) {
            assert(w.subrange(j, j + marker.len())[0] == marker[0]);
            assert(w[j] == skill[j]);
            assert(skill.contains(':'));
        }
    }
    lemma_find_is(w, marker, k);
    let rest = w.skip(k + marker.len());
    assert(rest =~= dependency + tail);
    assert(w.take(k) =~= skill);
    assert(rest.skip(rest.len() - tail.len()) =~= tail);
    assert(rest.take(rest.len() - tail.len()) =~= dependency);
}

/// The missing-dependency diagnostics of a list of dependency warnings: one
/// for each dependency of `deps` that names no skill, in order.
pub open spec fn missing_of_dependencies(names: Seq<Seq<char>>, skill: Seq<char>, deps: Seq<Seq<char>>) -> Seq<
    DiagnosticView,
>
    decreases deps.len(),
{
    if deps.len() == 0 {
        seq![]
    } else {
        let rest = missing_of_dependencies(names, skill, deps.drop_last());
        match last_index_of(names, deps.last()) {
            Some(_) => rest,
            None => rest.push(DiagnosticView::MissingDependency(skill, deps.last())),
        }
    }
}

/// For each skill in order, the missing-dependency diagnostics of its dependencies.
pub open spec fn missing_of_skills(names: Seq<Seq<char>>, skills: Seq<Skill>) -> Seq<DiagnosticView>
    decreases skills.len(),
{
    if skills.len() == 0 {
        seq![]
    } else {
        missing_of_skills(names, skills.drop_last()) + missing_of_dependencies(
            names,
            skills.last().name@,
            dependency_names(skills.last()),
        )
    }
}

proof fn lemma_missing_diagnostics_append(a: Seq<Seq<char>>, b: Seq<Seq<char>>)
    ensures
        missing_diagnostics(a + b) == missing_diagnostics(a) + missing_diagnostics(b),
    decreases b.len(),
{
    if b.len() == 0 {
        assert(a + b =~= a);
        assert(missing_diagnostics(a) + missing_diagnostics(b) =~= missing_diagnostics(a));
    } else {
        lemma_missing_diagnostics_append(a, b.drop_last());
        assert((a + b).drop_last() =~= a + b.drop_last());
        assert((a + b).last() == b.last());
        match parse_missing(b.last()) {
            Some((x, y)) => {
                assert(missing_diagnostics(a) + missing_diagnostics(b) =~= (missing_diagnostics(a)
                    + missing_diagnostics(b.drop_last())).push(DiagnosticView::MissingDependency(x, y)));
            },
            None => {},
        }
    }
}

proof fn lemma_missing_of_dependencies(names: Seq<Seq<char>>, skill: Seq<char>, deps: Seq<Seq<char>>)
    requires
        !skill.contains(':'),
    ensures
        missing_diagnostics(dependency_warnings(names, skill, deps)) == missing_of_dependencies(names, skill, deps),
    decreases deps.len(),
{
    if deps.len() > 0 {
        lemma_missing_of_dependencies(names, skill, deps.drop_last());
        let rest = dependency_warnings(names, skill, deps.drop_last());
        match last_index_of(names, deps.last()) {
            Some(_) => {},
            None => {
                let w = missing_dependency_message(skill, deps.last());
                lemma_missing_round_trip(skill, deps.last());
                lemma_missing_diagnostics_append(rest, seq![w]);
                assert(rest.push(w) =~= rest + seq![w]);
                assert(seq![w].drop_last() =~= Seq::<Seq<char>>::empty());
                assert(seq![w].last() == w);
                assert(missing_diagnostics(Seq::<Seq<char>>::empty()) =~= Seq::<DiagnosticView>::empty());
                assert(missing_diagnostics(seq![w]) =~= seq![DiagnosticView::MissingDependency(skill, deps.last())]);
                assert(missing_diagnostics(rest.push(w)) =~= missing_diagnostics(rest).push(
                    DiagnosticView::MissingDependency(skill, deps.last()),
                ));
            },
        }
    }
}

/// The lint of a graph built from skills whose names hold no colon reports,
/// for each skill in order and each of its dependencies in order that names
/// no skill, that missing dependency.
pub proof fn lemma_lint_reports_missing(skills: Seq<Skill>)
    requires
        forall|k: int| 0 <= k < skills.len() ==> !(#[trigger] skills[k]).name@.contains(':'),
    ensures
        missing_diagnostics(expected_warnings(skills)) == missing_of_skills(skill_names(skills), skills),
{
    lemma_missing_of_skills(skill_names(skills), skills);
}

proof fn lemma_missing_of_skills(names: Seq<Seq<char>>, skills: Seq<Skill>)
    requires
        forall|k: int| 0 <= k < skills.len() ==> !(#[trigger] skills[k]).name@.contains(':'),
    ensures
        missing_diagnostics(warnings_of_skills(names, skills)) == missing_of_skills(names, skills),
    decreases skills.len(),
{
    if skills.len() > 0 {
        let init = skills.drop_last();
        assert forall|k: int| 0 <= k < init.len() implies !(#[trigger] init[k]).name@.contains(':') by {
            assert(init[k] == skills[k]);
        }
        lemma_missing_of_skills(names, init);
        assert(skills.last() == skills[skills.len() - 1]);
        lemma_missing_of_dependencies(names, skills.last().name@, dependency_names(skills.last()));
        lemma_missing_diagnostics_append(
            warnings_of_skills(names, init),
            dependency_warnings(names, skills.last().name@, dependency_names(skills.last())),
        );
    }
}

/// The skills that the lint reports as isolated are the orphan skills of the
/// graph's statistics, in the same order.
pub proof fn lemma_isolated_are_orphans(names: Seq<Seq<char>>, edges: Seq<(nat, nat)>, n: nat)
    ensures
        isolated_diagnostics(classified(names, edges, n)) == orphan_names(names, edges, n).map_values(
            |name: Seq<char>| DiagnosticView::Isolated(name),
        ),
    decreases n,
{
    if n == 0 {
        assert(isolated_diagnostics(classified(names, edges, 0)) =~= Seq::<DiagnosticView>::empty());
        assert(orphan_names(names, edges, 0).map_values(|name: Seq<char>| DiagnosticView::Isolated(name))
            =~= Seq::<DiagnosticView>::empty());
    } else {
        let m = (n - 1) as nat;
        lemma_isolated_are_orphans(names, edges, m);
        let rest = classified(names, edges, m);
        match node_role(edges, m) {
            Some(role) => {
                assert(classified(names, edges, n) == rest.push((names[m as int], role)));
                assert(classified(names, edges, n).drop_last() =~= rest);
            },
            None => {},
        }
        assert(orphan_names(names, edges, n).map_values(|name: Seq<char>| DiagnosticView::Isolated(name))
            =~= if is_orphan(edges, m) {
            orphan_names(names, edges, m).map_values(|name: Seq<char>| DiagnosticView::Isolated(name)).push(
                DiagnosticView::Isolated(names[m as int]),
            )
        } else {
            orphan_names(names, edges, m).map_values(|name: Seq<char>| DiagnosticView::Isolated(name))
        });
    }
}

/// Whether some diagnostic is an error.
pub fn has_errors(diagnostics: &[Diagnostic]) -> (b: bool)
    ensures
        b == any_error(diagnostic_views(diagnostics@)),
{
    let n = diagnostics.len();
    let mut i: usize = 0;
    while i < n
        invariant
            n == diagnostics@.len(),
            i <= n,
            forall|j: int| 0 <= j < i ==> severity_of(#[trigger] diagnostic_views(diagnostics@)[j]) != Severity::Error,
        decreases n - i,
    {
        if diagnostics[i].severity() == Severity::Error {
            assert(severity_of(diagnostic_views(diagnostics@)[i as int]) == Severity::Error);
            return true;
        }
        i = i + 1;
    }
    false
}

} // verus!
