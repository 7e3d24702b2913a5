//! Configuration values and the schema aliases that rewrite frontmatter keys.
use vstd::prelude::*;
use crate::text::{chars_of, lemma_replace_absent, lemma_replace_keeps_prefix, occurs_at, string_views, push_chars, replace_all, replace_all_exec, starts_with, starts_with_exec, slice_to_vec, string_of};

verus! {

#[derive(Debug, Clone)]
pub struct Config {
    pub schema: SchemaConfig,
    pub scan: ScanConfig,
}

/// Frontmatter schema. `aliases` holds (alias, canonical) pairs, no alias
/// twice (see `distinct_aliases`), in the order in which they are applied.
#[derive(Debug, Clone)]
pub struct SchemaConfig {
    pub required_fields: Vec<String>,
    pub optional_fields: Vec<String>,
    pub aliases: Vec<(String, String)>,
}

#[derive(Debug, Clone)]
pub struct ScanConfig {
    pub workers: usize,
    pub extensions: Vec<String>,
}

pub open spec fn alias_views(v: Seq<(String, String)>) -> Seq<(Seq<char>, Seq<char>)> {
    v.map_values(|p: (String, String)| (p.0@, p.1@))
}

pub fn default_required_fields() -> (v: Vec<String>)
    ensures
        string_views(v@) == seq!["name"@],
{
    let v = vec![String::from_str("name")];
    assert(string_views(v@) =~= seq!["name"@]);
    v
}

pub fn default_optional_fields() -> (v: Vec<String>)
    ensures
        string_views(v@) == seq!["description"@, "dependencies"@, "inputs"@, "outputs"@],
{
    let v = vec![
        String::from_str("description"),
        String::from_str("dependencies"),
        String::from_str("inputs"),
        String::from_str("outputs"),
    ];
    assert(string_views(v@) =~= seq!["description"@, "dependencies"@, "inputs"@, "outputs"@]);
    v
}

/// The default number of scan workers: the parallelism that the machine
/// reports (`available`, which is positive when present), or 4 when it
/// reports none.
pub fn default_workers(available: Option<usize>) -> (n: usize)
    requires
        available matches Some(k) ==> k > 0,
    ensures
        n == match available {
            Some(k) => k,
            None => 4,
        },
        n > 0,
{
    match available {
        Some(k) => k,
        None => 4,
    }
}

pub fn default_extensions() -> (v: Vec<String>)
    ensures
        string_views(v@) == seq!["md"@],
{
    let v = vec![String::from_str("md")];
    assert(string_views(v@) =~= seq!["md"@]);
    v
}

impl SchemaConfig {
    pub open spec fn is_default(&self) -> bool {
        &&& string_views(self.required_fields@) == seq!["name"@]
        &&& string_views(self.optional_fields@) == seq![
            "description"@,
            "dependencies"@,
            "inputs"@,
            "outputs"@,
        ]
        &&& self.aliases@.len() == 0
    }
}

impl Default for SchemaConfig {
    fn default() -> (s: Self)
        ensures
            s.is_default(),
    {
        SchemaConfig {
            required_fields: default_required_fields(),
            optional_fields: default_optional_fields(),
            aliases: Vec::new(),
        }
    }
}

impl ScanConfig {
    /// The default scan settings, with `workers` scan workers.
    pub fn default_with_workers(workers: usize) -> (s: Self)
        ensures
            s.workers == workers,
            string_views(s.extensions@) == seq!["md"@],
    {
        ScanConfig { workers, extensions: default_extensions() }
    }
}

impl Config {
    /// The default configuration, with `workers` scan workers.
    pub fn default_with_workers(workers: usize) -> (c: Self)
        ensures
            c.schema.is_default(),
            c.scan.workers == workers,
            string_views(c.scan.extensions@) == seq!["md"@],
    {
        Config { schema: SchemaConfig::default(), scan: ScanConfig::default_with_workers(workers) }
    }
}

/// The name of the configuration file.
pub const CONFIG_FILENAME: &'static str = ".skill-graph.toml";

/// The first candidate path that is a file.
pub open spec fn first_found(candidates: Seq<(Seq<char>, bool)>) -> Option<Seq<char>>
    decreases candidates.len(),
{
    if candidates.len() == 0 {
        None
    } else if candidates[0].1 {
        Some(candidates[0].0)
    } else {
        first_found(candidates.drop_first())
    }
}

/// The candidate found is the first that is a file: it is one of the
/// candidates, it is a file, and no candidate before it is; nothing is found
/// exactly when no candidate is a file.
pub proof fn lemma_first_found(candidates: Seq<(Seq<char>, bool)>)
    ensures
        first_found(candidates) is None <==> forall|i: int| 0 <= i < candidates.len() ==> !(#[trigger] candidates[i]).1,
        first_found(candidates) is Some ==> exists|i: int|
            0 <= i < candidates.len() && (#[trigger] candidates[i]).1 && candidates[i].0 == first_found(candidates)->0
                && forall|j: int| 0 <= j < i ==> !(#[trigger] candidates[j]).1,
    decreases candidates.len(),
{
    if candidates.len() > 0 {
        let t = candidates.drop_first();
        lemma_first_found(t);
        assert forall|i: int| 0 <= i < t.len() implies #[trigger] t[i] == candidates[i + 1] by {}
        if !candidates[0].1 {
            if first_found(t) is Some {
                let i = choose|i: int|
                    0 <= i < t.len() && (#[trigger] t[i]).1 && t[i].0 == first_found(t)->0 && forall|j: int|
                        0 <= j < i ==> !(#[trigger] t[j]).1;
                assert(candidates[i + 1] == t[i]);
                assert forall|j: int| 0 <= j < i + 1 implies !(#[trigger] candidates[j]).1 by {
                    if j > 0 {
                        assert(candidates[j] == t[j - 1]);
                    }
                }
            } else {
                assert forall|i: int| 0 <= i < candidates.len() implies !(#[trigger] candidates[i]).1 by {
                    if i > 0 {
                        assert(candidates[i] == t[i - 1]);
                    }
                }
            }
        } else {
            assert(candidates[0].1);
        }
    }
}

/// The configuration file that applies to a directory: `candidates` holds, for
/// the directory and then each of its ancestors up to the root, the path of
/// `CONFIG_FILENAME` in it and whether that path is a file. The first that is
/// a file is found; `None` when none is.
pub fn discover_config_path(candidates: &Vec<(String, bool)>) -> (r: Option<String>)
    ensures
        r matches Some(p) ==> first_found(candidates@.map_values(|c: (String, bool)| (c.0@, c.1))) == Some(
            p@,
        ),
        r is None ==> first_found(candidates@.map_values(|c: (String, bool)| (c.0@, c.1))) is None,
{
    let ghost all = candidates@.map_values(|c: (String, bool)| (c.0@, c.1));
    let n = candidates.len();
    let mut i: usize = 0;
    assert(all.skip(0) =~= all);
    while i < n
        invariant
            n == candidates@.len(),
            all == candidates@.map_values(|c: (String, bool)| (c.0@, c.1)),
            i <= n,
            first_found(all) == first_found(all.skip(i as int)),
        decreases n - i,
    {
        assert(all.skip(i as int)[0] == all[i as int]);
        assert(all.skip(i as int).drop_first() =~= all.skip(i + 1));
        if candidates[i].1 {
            return Some(candidates[i].0.clone());
        }
        i = i + 1;
    }
    assert(all.skip(n as int) =~= Seq::<(Seq<char>, bool)>::empty());
    None
}

/// With no aliases the text is left as it is.
pub proof fn lemma_no_aliases(s: Seq<char>)
    ensures
        apply_aliases_spec(s, seq![]) == s,
{
}

/// The effect of one alias on YAML text: every key `alias:` that starts a line
/// after the first becomes `canonical:`, and then so does a leading `alias:`.
pub open spec fn apply_alias(s: Seq<char>, alias: Seq<char>, canonical: Seq<char>) -> Seq<char> {
    let r = replace_all(s, seq!['\n'] + alias + seq![':'], seq!['\n'] + canonical + seq![':']);
    if starts_with(r, alias + seq![':']) {
        canonical + seq![':'] + r.skip(alias.len() + 1 as int)
    } else {
        r
    }
}

/// An alias leaves text in which no line starts with its key as it is; and a
/// text that starts with the key (of an alias without newlines) starts, once
/// the alias is applied, with the canonical key.
pub proof fn lemma_alias_effect(s: Seq<char>, alias: Seq<char>, canonical: Seq<char>)
    ensures
        (forall|j: int| !occurs_at(s, seq!['\n'] + alias + seq![':'], j)) && !starts_with(s, alias + seq![':'])
            ==> apply_alias(s, alias, canonical) == s,
        starts_with(s, alias + seq![':']) && !alias.contains('\n') ==> starts_with(
            apply_alias(s, alias, canonical),
            canonical + seq![':'],
        ),
{
    let p = seq!['\n'] + alias + seq![':'];
    let q = alias + seq![':'];
    let r = replace_all(s, p, seq!['\n'] + canonical + seq![':']);
    if (forall|j: int| !occurs_at(s, p, j)) && !starts_with(s, q) {
        lemma_replace_absent(s, p, seq!['\n'] + canonical + seq![':']);
    }
    if starts_with(s, q) && !alias.contains('\n') {
        assert(!q.contains('\n')) by {
            if q.contains('\n') {
                let k = choose|k: int| 0 <= k < q.len() && q[k] == '\n';
                if k < alias.len() {
                    assert(alias[k] == '\n');
                }
            }
        }
        assert(p[0] == '\n');
        lemma_replace_keeps_prefix(s, p, seq!['\n'] + canonical + seq![':'], q);
        let out = canonical + seq![':'] + r.skip(alias.len() + 1 as int);
        assert(out.take((canonical + seq![':']).len() as int) =~= canonical + seq![':']);
    }
}

/// The aliases applied one after another, in order.
pub open spec fn apply_aliases_spec(s: Seq<char>, aliases: Seq<(Seq<char>, Seq<char>)>) -> Seq<char>
    decreases aliases.len(),
{
    if aliases.len() == 0 {
        s
    } else {
        apply_alias(apply_aliases_spec(s, aliases.drop_last()), aliases.last().0, aliases.last().1)
    }
}

fn apply_alias_chars(s: &Vec<char>, alias: &str, canonical: &str) -> (out: Vec<char>)
    ensures
        out@ == apply_alias(s@, alias@, canonical@),
{
    let a = chars_of(alias);
    let c = chars_of(canonical);
    let mut pattern: Vec<char> = Vec::new();
    pattern.push('\n');
    push_chars(&mut pattern, a.as_slice());
    pattern.push(':');
    let mut replacement: Vec<char> = Vec::new();
    replacement.push('\n');
    push_chars(&mut replacement, c.as_slice());
    replacement.push(':');
    assert(pattern@ =~= seq!['\n'] + alias@ + seq![':']);
    assert(replacement@ =~= seq!['\n'] + canonical@ + seq![':']);
    let r = replace_all_exec(s.as_slice(), pattern.as_slice(), replacement.as_slice());
    let mut key: Vec<char> = Vec::new();
    push_chars(&mut key, a.as_slice());
    key.push(':');
    assert(key@ =~= alias@ + seq![':']);
    if starts_with_exec(r.as_slice(), key.as_slice()) {
        let mut out: Vec<char> = Vec::new();
        push_chars(&mut out, c.as_slice());
        out.push(':');
        let tail = slice_to_vec(r.as_slice(), key.len(), r.len());
        push_chars(&mut out, tail.as_slice());
        assert(tail@ =~= r@.skip(alias@.len() + 1 as int));
        assert(out@ =~= canonical@ + seq![':'] + r@.skip(alias@.len() + 1 as int));
        out
    } else {
        r
    }
}

/// No alias appears twice among the (alias, canonical) pairs: they form a map
/// from alias to canonical name.
pub open spec fn distinct_aliases(aliases: Seq<(Seq<char>, Seq<char>)>) -> bool {
    forall|i: int, j: int| 0 <= i < j < aliases.len() ==> #[trigger] aliases[i].0 != #[trigger] aliases[j].0
}

/// Rewrites aliased keys in raw YAML text to their canonical names
/// (see `apply_aliases_spec`); with no aliases the text is returned unchanged.
/// The aliases form a map: no alias appears twice.
pub fn apply_aliases(yaml_content: &str, aliases: &Vec<(String, String)>) -> (out: String)
    requires
        distinct_aliases(alias_views(aliases@)),
    ensures
        out@ == apply_aliases_spec(yaml_content@, alias_views(aliases@)),
{
    let n = aliases.len();
    let mut cur = chars_of(yaml_content);
    let mut i: usize = 0;
    while i < n
        invariant
            n == aliases@.len(),
            i <= n,
            cur@ == apply_aliases_spec(yaml_content@, alias_views(aliases@).take(i as int)),
        decreases n - i,
    {
        let (alias, canonical) = (&aliases[i].0, &aliases[i].1);
        cur = apply_alias_chars(&cur, alias.as_str(), canonical.as_str());
        i = i + 1;
        assert(alias_views(aliases@).take(i as int).drop_last() =~= alias_views(aliases@).take(
            i - 1,
        ));
    }
    assert(alias_views(aliases@).take(n as int) =~= alias_views(aliases@));
    string_of(cur.as_slice())
}

} // verus!
