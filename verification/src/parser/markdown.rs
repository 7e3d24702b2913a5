//! Splitting a skill's markdown body into sections at its `##`..`######` headings.
use vstd::prelude::*;
use crate::text::{
    is_white_space, lemma_trim,
    chars_of, join, join_exec, lines, lines_of, slice_to_vec, string_of, trim, trim_chars, trim_start,
    trim_start_chars, views,
};

verus! {

#[derive(Debug, Clone)]
pub struct Section {
    pub heading: String,
    pub level: u8,
    pub content: String,
}

#[derive(Debug, Clone)]
pub struct MarkdownBody {
    pub raw: String,
    pub sections: Vec<Section>,
}

/// A section as plain values: heading text, level, content.
pub open spec fn section_view(s: Section) -> (Seq<char>, u8, Seq<char>) {
    (s.heading@, s.level, s.content@)
}

pub open spec fn section_views(s: Seq<Section>) -> Seq<(Seq<char>, u8, Seq<char>)> {
    s.map_values(|x: Section| section_view(x))
}

/// Number of `#` characters at the start of `s`.
pub open spec fn leading_hashes(s: Seq<char>) -> nat
    decreases s.len(),
{
    if s.len() > 0 && s[0] == '#' {
        1 + leading_hashes(s.drop_first())
    } else {
        0
    }
}

/// A heading line: after leading white space, two to six `#`, then non-empty
/// text, which is trimmed. Gives the level and the text.
pub open spec fn heading_of(line: Seq<char>) -> Option<(u8, Seq<char>)> {
    let t = trim_start(line);
    let k = leading_hashes(t);
    if 2 <= k <= 6 {
        let rest = trim(t.skip(k as int));
        if rest.len() > 0 {
            Some((k as u8, rest))
        } else {
            None
        }
    } else {
        None
    }
}

/// Index of the first heading line in `ls`.
pub open spec fn first_heading(ls: Seq<Seq<char>>) -> Option<nat>
    decreases ls.len(),
{
    if ls.len() == 0 {
        None
    } else if heading_of(ls[0]) is Some {
        Some(0)
    } else {
        match first_heading(ls.drop_first()) {
            Some(k) => Some(k + 1),
            None => None,
        }
    }
}

/// Number of lines before the first heading line of `ls` (all of them if none).
pub open spec fn section_length(ls: Seq<Seq<char>>) -> nat {
    match first_heading(ls) {
        Some(k) => k,
        None => ls.len(),
    }
}

/// The sections of a body given by its lines: one for each heading line, with
/// that heading's text and level, and as content the trimmed text of the lines
/// between it and the next heading line (or the end). Text before the first
/// heading belongs to no section.
pub open spec fn sections_of(ls: Seq<Seq<char>>) -> Seq<(Seq<char>, u8, Seq<char>)>
    decreases ls.len(),
{
    match first_heading(ls) {
        None => seq![],
        Some(h) => if h < ls.len() {
            let rest = ls.skip(h + 1 as int);
            let hd = heading_of(ls[h as int]).unwrap();
            seq![(hd.1, hd.0, trim(join(rest.take(section_length(rest) as int), seq!['\n'])))]
                + sections_of(rest)
        } else {
            seq![]
        },
    }
}

pub proof fn lemma_leading_hashes(s: Seq<char>, i: int)
    requires
        0 <= i <= s.len(),
        forall|j: int| 0 <= j < i ==> s[j] == '#',
        i == s.len() || s[i] != '#',
    ensures
        leading_hashes(s) == i,
    decreases i,
{
    if i > 0 {
        assert(s[0] == '#');
        assert forall|j: int| 0 <= j < i - 1 implies s.drop_first()[j] == '#' by {
            assert(s[j + 1] == '#');
        }
        lemma_leading_hashes(s.drop_first(), i - 1);
    }
}

pub proof fn lemma_first_heading(ls: Seq<Seq<char>>)
    ensures
        match first_heading(ls) {
            Some(k) => k < ls.len() && heading_of(ls[k as int]) is Some && forall|j: int|
                0 <= j < k ==> heading_of(#[trigger] ls[j]) is None,
            None => forall|j: int| 0 <= j < ls.len() ==> heading_of(#[trigger] ls[j]) is None,
        },
    decreases ls.len(),
{
    if ls.len() > 0 && heading_of(ls[0]) is None {
        lemma_first_heading(ls.drop_first());
        assert forall|j: int| 1 <= j < ls.len() implies ls[j] == ls.drop_first()[j - 1] by {}
    }
}

pub proof fn lemma_first_heading_is(ls: Seq<Seq<char>>, k: int)
    requires
        0 <= k <= ls.len(),
        k < ls.len() ==> heading_of(ls[k]) is Some,
        forall|j: int| 0 <= j < k ==> heading_of(#[trigger] ls[j]) is None,
    ensures
        section_length(ls) == k,
        k < ls.len() ==> first_heading(ls) == Some(k as nat),
        k == ls.len() ==> first_heading(ls) is None,
{
    lemma_first_heading(ls);
    match first_heading(ls) {
        Some(f) => {
            if f < k {
                assert(heading_of(ls[f as int]) is None);
            }
            if k < f {
                assert(heading_of(ls[k]) is None);
            }
        },
        None => {
            if k < ls.len() {
                assert(heading_of(ls[k]) is None);
            }
        },
    }
}

/// Lines before the first heading do not change the sections.
pub proof fn lemma_sections_skip(ls: Seq<Seq<char>>, k: int)
    requires
        0 <= k <= ls.len(),
        forall|j: int| 0 <= j < k ==> heading_of(#[trigger] ls[j]) is None,
    ensures
        sections_of(ls) == sections_of(ls.skip(k)),
{
    let t = ls.skip(k);
    lemma_first_heading(ls);
    lemma_first_heading(t);
    match first_heading(ls) {
        Some(h) => {
            if h < k {
                assert(heading_of(ls[h as int]) is None);
            }
            assert(t[h - k] == ls[h as int]);
            assert forall|j: int| 0 <= j < h - k implies heading_of(#[trigger] t[j]) is None by {
                assert(t[j] == ls[j + k]);
            }
            lemma_first_heading_is(t, h - k);
            assert(t.skip(h - k + 1) =~= ls.skip(h + 1 as int));
        },
        None => {
            assert forall|j: int| 0 <= j < t.len() implies heading_of(#[trigger] t[j]) is None by {
                assert(t[j] == ls[j + k]);
            }
            lemma_first_heading_is(t, t.len() as int);
        },
    }
}

/// The section opened by the heading at `h` runs up to the next heading at `i`.
pub proof fn lemma_sections_split(ls: Seq<Seq<char>>, h: int, i: int)
    requires
        0 <= h < i <= ls.len(),
        heading_of(ls[h]) is Some,
        forall|j: int| h < j < i ==> heading_of(#[trigger] ls[j]) is None,
        i < ls.len() ==> heading_of(ls[i]) is Some,
    ensures
        sections_of(ls.skip(h)) == seq![
            (
                heading_of(ls[h]).unwrap().1,
                heading_of(ls[h]).unwrap().0,
                trim(join(ls.subrange(h + 1, i), seq!['\n'])),
            ),
        ] + sections_of(ls.skip(i)),
{
    let t = ls.skip(h);
    assert(t[0] == ls[h]);
    lemma_first_heading_is(t, 0);
    let rest = t.skip(1);
    assert(rest =~= ls.skip(h + 1 as int));
    assert forall|j: int| 0 <= j < i - h - 1 implies heading_of(#[trigger] rest[j]) is None by {
        assert(rest[j] == ls[j + h + 1]);
    }
    if i < ls.len() {
        assert(rest[i - h - 1] == ls[i]);
    }
    lemma_first_heading_is(rest, i - h - 1);
    assert(rest.take(i - h - 1) =~= ls.subrange(h + 1, i));
    lemma_sections_skip(rest, i - h - 1);
    assert(rest.skip(i - h - 1) =~= ls.skip(i));
}

/// The heading lines of `ls`, in order: each one's level and text.
pub open spec fn heading_list(ls: Seq<Seq<char>>) -> Seq<(u8, Seq<char>)>
    decreases ls.len(),
{
    if ls.len() == 0 {
        seq![]
    } else {
        let rest = heading_list(ls.drop_first());
        match heading_of(ls[0]) {
            Some(h) => seq![h] + rest,
            None => rest,
        }
    }
}

proof fn lemma_heading_list_skip(ls: Seq<Seq<char>>, k: int)
    requires
        0 <= k <= ls.len(),
        forall|j: int| 0 <= j < k ==> heading_of(#[trigger] ls[j]) is None,
    ensures
        heading_list(ls) == heading_list(ls.skip(k)),
    decreases k,
{
    if k == 0 {
        assert(ls.skip(0) =~= ls);
    } else {
        let t = ls.drop_first();
        assert forall|j: int| 0 <= j < k - 1 implies heading_of(#[trigger] t[j]) is None by {
            assert(t[j] == ls[j + 1]);
        }
        lemma_heading_list_skip(t, k - 1);
        assert(t.skip(k - 1) =~= ls.skip(k));
        assert(heading_of(ls[0]) is None);
    }
}

/// The body has one section for each heading line, in order: the `i`-th
/// section has the text and the level of the `i`-th heading line.
pub proof fn lemma_sections_follow_headings(ls: Seq<Seq<char>>)
    ensures
        sections_of(ls).len() == heading_list(ls).len(),
        forall|i: int|
            0 <= i < sections_of(ls).len() ==> (#[trigger] sections_of(ls)[i]).0 == heading_list(ls)[i].1
                && sections_of(ls)[i].1 == heading_list(ls)[i].0,
    decreases ls.len(),
{
    lemma_first_heading(ls);
    match first_heading(ls) {
        None => {
            lemma_heading_list_skip(ls, ls.len() as int);
            assert(ls.skip(ls.len() as int) =~= Seq::<Seq<char>>::empty());
            assert(heading_list(Seq::<Seq<char>>::empty()) =~= Seq::<(u8, Seq<char>)>::empty());
            assert(sections_of(ls) =~= Seq::<(Seq<char>, u8, Seq<char>)>::empty());
        },
        Some(h) => {
            let rest = ls.skip(h + 1 as int);
            lemma_sections_follow_headings(rest);
            lemma_heading_list_skip(ls, h as int);
            let t = ls.skip(h as int);
            assert(t[0] == ls[h as int]);
            assert(t.drop_first() =~= rest);
            let hd = heading_of(ls[h as int]).unwrap();
            assert(heading_list(t) == seq![hd] + heading_list(rest));
            let sec = sections_of(ls);
            let hl = heading_list(ls);
            assert(sec == seq![(hd.1, hd.0, trim(join(rest.take(section_length(rest) as int), seq!['\n'])))]
                + sections_of(rest));
            assert forall|i: int| 0 <= i < sec.len() implies (#[trigger] sec[i]).0 == hl[i].1 && sec[i].1 == hl[i].0 by {
                if i > 0 {
                    assert(sec[i] == sections_of(rest)[i - 1]);
                    assert(hl[i] == heading_list(rest)[i - 1]);
                }
            }
        },
    }
}

/// A line is a heading exactly when, after its leading white space, it has a
/// run of two to six `#` (and no more) followed by text that is not blank;
/// the level is the length of the run and the heading is that text, trimmed.
pub proof fn lemma_heading_line(line: Seq<char>, k: int)
    requires
        0 <= k <= trim_start(line).len(),
        forall|j: int| 0 <= j < k ==> trim_start(line)[j] == '#',
        k < trim_start(line).len() ==> trim_start(line)[k] != '#',
    ensures
        heading_of(line) is Some <==> 2 <= k <= 6 && trim(trim_start(line).skip(k)).len() > 0,
        heading_of(line) is Some ==> heading_of(line).unwrap().0 == k && heading_of(line).unwrap().1 == trim(
            trim_start(line).skip(k),
        ),
{
    lemma_leading_hashes(trim_start(line), k);
}

/// A trimmed text neither starts nor ends with white space.
proof fn lemma_trimmed_ends(s: Seq<char>)
    ensures
        trim(s).len() == 0 || (!is_white_space(trim(s)[0]) && !is_white_space(trim(s).last())),
{
    lemma_trim(s);
    let (a, b) = choose|a: int, b: int|
        0 <= a <= b <= s.len() && trim(s) == s.subrange(a, b) && (forall|j: int|
            0 <= j < a ==> is_white_space(#[trigger] s[j])) && (forall|j: int|
            b <= j < s.len() ==> is_white_space(#[trigger] s[j])) && (a < b ==> !is_white_space(s[a])
            && !is_white_space(s[b - 1]));
    if a < b {
        assert(trim(s)[0] == s[a]);
        assert(trim(s).last() == s[b - 1]);
    }
}

/// Every section's content is trimmed: it is empty, or it neither starts nor
/// ends with white space.
pub proof fn lemma_section_contents_trimmed(ls: Seq<Seq<char>>)
    ensures
        forall|i: int|
            0 <= i < sections_of(ls).len() ==> (#[trigger] sections_of(ls)[i]).2.len() == 0 || (!is_white_space(
                sections_of(ls)[i].2[0],
            ) && !is_white_space(sections_of(ls)[i].2.last())),
    decreases ls.len(),
{
    lemma_first_heading(ls);
    match first_heading(ls) {
        None => {
            assert(sections_of(ls) =~= Seq::<(Seq<char>, u8, Seq<char>)>::empty());
        },
        Some(h) => {
            let rest = ls.skip(h + 1 as int);
            lemma_section_contents_trimmed(rest);
            let hd = heading_of(ls[h as int]).unwrap();
            let body = join(rest.take(section_length(rest) as int), seq!['\n']);
            lemma_trimmed_ends(body);
            let sec = sections_of(ls);
            assert(sec == seq![(hd.1, hd.0, trim(body))] + sections_of(rest));
            assert forall|i: int| 0 <= i < sec.len() implies (#[trigger] sec[i]).2.len() == 0 || (!is_white_space(
                sec[i].2[0],
            ) && !is_white_space(sec[i].2.last())) by {
                if i > 0 {
                    assert(sec[i] == sections_of(rest)[i - 1]);
                }
            }
        },
    }
}

fn heading_of_chars(line: &[char]) -> (r: Option<(u8, Vec<char>)>)
    ensures
        r is Some <==> heading_of(line@) is Some,
        r is Some ==> r.unwrap().0 == heading_of(line@).unwrap().0 && r.unwrap().1@ == heading_of(
            line@,
        ).unwrap().1,
{
    let t = trim_start_chars(line);
    let n = t.len();
    let mut k: usize = 0;
    while k < n && t[k] == '#'
        invariant
            n == t@.len(),
            k <= n,
            forall|j: int| 0 <= j < k ==> t@[j] == '#',
        decreases n - k,
    {
        k = k + 1;
    }
    proof {
        lemma_leading_hashes(t@, k as int);
    }
    if 2 <= k && k <= 6 {
        let after = slice_to_vec(t.as_slice(), k, n);
        assert(after@ =~= t@.skip(k as int));
        let rest = trim_chars(after.as_slice());
        if rest.len() > 0 {
            return Some((k as u8, rest));
        }
    }
    None
}

/// Recognizes a heading line (see `heading_of`), giving its level and text.
pub fn parse_heading(line: &str) -> (r: Option<(u8, String)>)
    ensures
        r is Some <==> heading_of(line@) is Some,
        r is Some ==> r.unwrap().0 == heading_of(line@).unwrap().0 && r.unwrap().1@ == heading_of(
            line@,
        ).unwrap().1,
{
    let cs = chars_of(line);
    match heading_of_chars(cs.as_slice()) {
        Some((level, text)) => Some((level, string_of(text.as_slice()))),
        None => None,
    }
}

/// Copies of the lines `ls[from..to]`.
fn copy_lines(ls: &Vec<Vec<char>>, from: usize, to: usize) -> (out: Vec<Vec<char>>)
    requires
        from <= to <= ls@.len(),
    ensures
        views(out@) == views(ls@).subrange(from as int, to as int),
{
    let mut out: Vec<Vec<char>> = Vec::new();
    let mut j = from;
    while j < to
        invariant
            from <= j <= to,
            to <= ls@.len(),
            views(out@) == views(ls@).subrange(from as int, j as int),
        decreases to - j,
    {
        let line = &ls[j];
        let copy = slice_to_vec(line.as_slice(), 0, line.len());
        assert(copy@ =~= ls@[j as int]@);
        let ghost before = views(out@);
        out.push(copy);
        j = j + 1;
        assert(views(out@) =~= before.push(copy@));
        assert(views(ls@).subrange(from as int, j as int) =~= views(ls@).subrange(
            from as int,
            j - 1,
        ).push(views(ls@)[j - 1]));
    }
    out
}

/// The section opened by the heading `heading` at line `h`, whose content is
/// the lines `ls[h + 1..i]`.
fn close_section(ls: &Vec<Vec<char>>, h: usize, i: usize, level: u8, heading: &Vec<char>) -> (s: Section)
    requires
        h < i <= ls@.len(),
    ensures
        section_view(s) == (heading@, level, trim(join(views(ls@).subrange(h + 1, i as int), seq!['\n']))),
{
    let body_lines = copy_lines(ls, h + 1, i);
    let newline: [char; 1] = ['\n'];
    assert(newline@ == seq!['\n']);
    let joined = join_exec(&body_lines, newline.as_slice());
    let content = trim_chars(joined.as_slice());
    Section {
        heading: string_of(heading.as_slice()),
        level,
        content: string_of(content.as_slice()),
    }
}

/// Splits a markdown body into its sections (see `sections_of`); `raw` is the body itself.
pub fn parse_body(content: &str) -> (body: MarkdownBody)
    ensures
        body.raw@ == content@,
        section_views(body.sections@) == sections_of(lines_of(content@)),
{
    let cs = chars_of(content);
    let ls = lines(cs.as_slice());
    let ghost lv = views(ls@);
    let n = ls.len();
    let mut sections: Vec<Section> = Vec::new();
    let mut current: Option<(usize, u8, Vec<char>)> = None;
    let mut i: usize = 0;
    assert(lv.skip(0) == lv);
    while i < n
        invariant
            n == ls@.len(),
            lv == views(ls@),
            lv == lines_of(content@),
            i <= n,
            match current {
                None => sections_of(lv) == section_views(sections@) + sections_of(lv.skip(i as int)),
                Some((h, level, text)) => {
                    &&& h < i
                    &&& heading_of(lv[h as int]) == Some((level, text@))
                    &&& forall|j: int| h < j < i ==> heading_of(#[trigger] lv[j]) is None
                    &&& sections_of(lv) == section_views(sections@) + sections_of(lv.skip(h as int))
                },
            },
        decreases n - i,
    {
        let ghost before = section_views(sections@);
        assert(ls@[i as int]@ == lv[i as int]);
        match heading_of_chars(ls[i].as_slice()) {
            Some((level, text)) => {
                match current {
                    Some((h, hlevel, htext)) => {
                        proof {
                            lemma_sections_split(lv, h as int, i as int);
                        }
                        let s = close_section(&ls, h, i, hlevel, &htext);
                        sections.push(s);
                        assert(section_views(sections@) =~= before.push(section_view(s)));
                        assert(before.push(section_view(s)) + sections_of(lv.skip(i as int)) =~= before
                            + (seq![section_view(s)] + sections_of(lv.skip(i as int))));
                    },
                    None => {},
                }
                current = Some((i, level, text));
            },
            None => {
                match current {
                    None => {
                        proof {
                            let r = lv.skip(i as int);
                            assert(heading_of(r[0]) is None);
                            lemma_sections_skip(r, 1);
                            assert(r.skip(1) =~= lv.skip(i + 1));
                        }
                    },
                    Some(_) => {},
                }
            },
        }
        i = i + 1;
    }
    match current {
        Some((h, hlevel, htext)) => {
            let ghost before = section_views(sections@);
            proof {
                lemma_sections_split(lv, h as int, n as int);
                assert(lv.skip(n as int) =~= Seq::<Seq<char>>::empty());
                assert(first_heading(Seq::<Seq<char>>::empty()) is None);
            }
            let s = close_section(&ls, h, n, hlevel, &htext);
            sections.push(s);
            assert(section_views(sections@) =~= before.push(section_view(s)));
        },
        None => {
            proof {
                assert(lv.skip(n as int) =~= Seq::<Seq<char>>::empty());
                assert(first_heading(Seq::<Seq<char>>::empty()) is None);
            }
            assert(section_views(sections@) + Seq::empty() =~= section_views(sections@));
        },
    }
    MarkdownBody { raw: string_of(cs.as_slice()), sections }
}

} // verus!
