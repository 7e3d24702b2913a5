//! Locating a skill file's YAML frontmatter between `---` delimiters.
use vstd::prelude::*;
use crate::config::{alias_views, apply_aliases, apply_aliases_spec, distinct_aliases};
use crate::text::{chars_of, find, find_exec, lemma_find, occurs_at, slice_to_vec, starts_with, starts_with_exec, string_of, trim_start, trim_start_chars};

verus! {

/// The fields of a skill's frontmatter. Only `name` is required; the others
/// default to empty.
#[derive(Debug, Clone)]
pub struct FrontMatter {
    pub name: String,
    pub description: String,
    pub dependencies: Vec<String>,
    pub inputs: Vec<String>,
    pub outputs: Vec<String>,
}

/// Why no frontmatter could be located.
#[derive(Debug, Clone, Copy, PartialEq, Eq, Structural)]
pub enum FrontmatterError {
    /// After leading white space, the text does not start with `---`.
    MissingOpeningDelimiter,
    /// No line starting with `---` closes the frontmatter.
    MissingClosingDelimiter,
}

/// The YAML text of the frontmatter (aliases applied) and the body after it.
#[derive(Debug, Clone)]
pub struct FrontmatterParts {
    pub yaml: String,
    pub body: String,
}

/// `s` without its leading `\n` characters (std `trim_start_matches('\n')`).
pub open spec fn trim_leading_newlines(s: Seq<char>) -> Seq<char>
    decreases s.len(),
{
    if s.len() > 0 && s[0] == '\n' {
        trim_leading_newlines(s.drop_first())
    } else {
        s
    }
}

/// The frontmatter's raw YAML and the body, as located in `content`: after
/// leading white space the text must open with `---`; the YAML runs up to the
/// first `\n---` after that, and the body follows it, without leading newlines.
pub open spec fn split_frontmatter(content: Seq<char>) -> Result<(Seq<char>, Seq<char>), FrontmatterError> {
    let t = trim_start(content);
    if !starts_with(t, "---"@) {
        Err(FrontmatterError::MissingOpeningDelimiter)
    } else {
        let after = t.skip("---"@.len() as int);
        match find(after, "\n---"@) {
            None => Err(FrontmatterError::MissingClosingDelimiter),
            Some(c) => Ok(
                (after.take(c as int), trim_leading_newlines(after.skip((c + "\n---"@.len()) as int))),
            ),
        }
    }
}

/// Dropping leading newlines removes exactly the newlines at the start: the
/// result is `s` from some position on, everything before it is a newline, and
/// the result does not start with one.
pub proof fn lemma_leading_newlines_dropped(s: Seq<char>)
    ensures
        exists|a: int|
            #![trigger s.skip(a)]
            0 <= a <= s.len() && trim_leading_newlines(s) == s.skip(a) && (forall|j: int|
                0 <= j < a ==> #[trigger] s[j] == '\n') && (a < s.len() ==> s[a] != '\n'),
    decreases s.len(),
{
    if s.len() > 0 && s[0] == '\n' {
        let t = s.drop_first();
        lemma_leading_newlines_dropped(t);
        let a = choose|a: int|
            #![trigger t.skip(a)]
            0 <= a <= t.len() && trim_leading_newlines(t) == t.skip(a) && (forall|j: int|
                0 <= j < a ==> #[trigger] t[j] == '\n') && (a < t.len() ==> t[a] != '\n');
        assert(t.skip(a) =~= s.skip(a + 1));
        assert forall|j: int| 0 <= j < a + 1 implies #[trigger] s[j] == '\n' by {
            if j > 0 {
                assert(s[j] == t[j - 1]);
            }
        }
        if a + 1 < s.len() {
            assert(s[a + 1] == t[a]);
        }
    } else {
        assert(s.skip(0) =~= s);
    }
}

/// The frontmatter closes at the first line that starts with `---` after the
/// opening `---`: the YAML is the text between the two, holds no such line
/// itself, and the body is what follows, without leading newlines. The
/// frontmatter is missing its opening exactly when the text (after leading
/// white space) does not start with `---`, and its closing exactly when no line
/// after the opening starts with `---`.
pub proof fn lemma_frontmatter_delimiters(content: Seq<char>)
    ensures
        ({
            let t = trim_start(content);
            let after = t.skip(3);
            match split_frontmatter(content) {
                Ok((yaml, body)) => {
                    &&& starts_with(t, "---"@)
                    &&& yaml.len() + 4 <= after.len()
                    &&& after.take(yaml.len() as int) == yaml
                    &&& occurs_at(after, "\n---"@, yaml.len() as int)
                    &&& forall|j: int| 0 <= j < yaml.len() ==> !occurs_at(after, "\n---"@, j)
                    &&& body == trim_leading_newlines(after.skip(yaml.len() + 4 as int))
                },
                Err(FrontmatterError::MissingOpeningDelimiter) => !starts_with(t, "---"@),
                Err(FrontmatterError::MissingClosingDelimiter) => starts_with(t, "---"@) && forall|j: int|
                    !occurs_at(after, "\n---"@, j),
            }
        }),
{
    reveal_strlit("---");
    reveal_strlit("\n---");
    let t = trim_start(content);
    let after = t.skip(3);
    assert("---"@.len() == 3);
    assert("\n---"@.len() == 4);
    lemma_find(after, "\n---"@);
}

pub proof fn lemma_trim_leading_newlines(s: Seq<char>, i: int)
    requires
        0 <= i <= s.len(),
        forall|j: int| 0 <= j < i ==> s[j] == '\n',
        i == s.len() || s[i] != '\n',
    ensures
        trim_leading_newlines(s) == s.skip(i),
    decreases i,
{
    if i > 0 {
        assert(s[0] == '\n');
        assert forall|j: int| 0 <= j < i - 1 implies s.drop_first()[j] == '\n' by {
            assert(s[j + 1] == '\n');
        }
        lemma_trim_leading_newlines(s.drop_first(), i - 1);
        assert(s.drop_first().skip(i - 1) =~= s.skip(i));
    } else {
        assert(s.skip(0) =~= s);
    }
}

/// Locates the frontmatter of a skill file (see `split_frontmatter`) and
/// applies the schema aliases, no alias twice, to its YAML text.
pub fn extract_frontmatter(content: &str, aliases: &Vec<(String, String)>) -> (r: Result<
    FrontmatterParts,
    FrontmatterError,
>)
    requires
        distinct_aliases(alias_views(aliases@)),
    ensures
        match split_frontmatter(content@) {
            Ok((yaml, body)) => r matches Ok(parts) && parts.yaml@ == apply_aliases_spec(
                yaml,
                alias_views(aliases@),
            ) && parts.body@ == body,
            Err(e) => r == Err::<FrontmatterParts, FrontmatterError>(e),
        },
{
    let cs = chars_of(content);
    let t = trim_start_chars(cs.as_slice());
    let open = chars_of("---");
    if !starts_with_exec(t.as_slice(), open.as_slice()) {
        return Err(FrontmatterError::MissingOpeningDelimiter);
    }
    let after = slice_to_vec(t.as_slice(), open.len(), t.len());
    assert(after@ =~= t@.skip("---"@.len() as int));
    let close = chars_of("\n---");
    match find_exec(after.as_slice(), close.as_slice()) {
        None => Err(FrontmatterError::MissingClosingDelimiter),
        Some(c) => {
            let yaml_raw = slice_to_vec(after.as_slice(), 0, c);
            assert(yaml_raw@ =~= after@.take(c as int));
            let n = after.len();
            let mut b = c + close.len();
            while b < n && after[b] == '\n'
                invariant
                    n == after@.len(),
                    c + close@.len() <= b <= n,
                    forall|j: int| c + close@.len() <= j < b ==> after@[j] == '\n',
                decreases n - b,
            {
                b = b + 1;
            }
            let ghost rest = after@.skip(c + close@.len());
            proof {
                assert forall|j: int| 0 <= j < b - (c + close@.len()) implies rest[j] == '\n' by {
                    assert(rest[j] == after@[j + c + close@.len()]);
                }
                if b < n {
                    assert(rest[b - (c + close@.len())] == after@[b as int]);
                }
                lemma_trim_leading_newlines(rest, b - (c + close@.len()));
            }
            let body = slice_to_vec(after.as_slice(), b, n);
            assert(body@ =~= rest.skip(b - (c + close@.len())));
            let yaml_text = string_of(yaml_raw.as_slice());
            let yaml = apply_aliases(yaml_text.as_str(), aliases);
            Ok(FrontmatterParts { yaml, body: string_of(body.as_slice()) })
        },
    }
}

} // verus!
