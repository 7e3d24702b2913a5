//! Character-level text utilities: the std string operations that the
//! library's parsers and renderers rely on, specified over `Seq<char>`.
use vstd::prelude::*;

verus! {

/// The characters of `s`, in order.
pub fn chars_of(s: &str) -> (v: Vec<char>)
    ensures
        v@ == s@,
{
    broadcast use vstd::string::axiom_spec_iter;
    let mut v: Vec<char> = Vec::new();
    for c in it: s.chars()
        invariant
            it.seq() == s@,
            v@.len() == it.index(),
            forall|i: int| 0 <= i < v@.len() ==> v@[i] == s@[i],
    {
        v.push(c);
    }
    assert(v@ =~= s@);
    v
}

/// Builds a `String` from a sequence of characters (std `FromIterator<char>`).
#[verifier::external_body]
pub fn string_of(v: &[char]) -> (s: String)
    ensures
        s@ == v@,
{
    v.iter().collect()
}

/// Appends every character of `src` to `out`.
pub fn push_chars(out: &mut Vec<char>, src: &[char])
    ensures
        final(out)@ == old(out)@ + src@,
{
    let n = src.len();
    let mut i: usize = 0;
    while i < n
        invariant
            n == src@.len(),
            i <= n,
            out@ == old(out)@ + src@.subrange(0, i as int),
        decreases n - i,
    {
        out.push(src[i]);
        i = i + 1;
        assert(src@.subrange(0, i as int) == src@.subrange(0, (i - 1) as int).push(src@[i - 1]));
    }
    assert(src@.subrange(0, n as int) == src@);
}

/// Appends every character of `s` to `out`.
pub fn push_str(out: &mut Vec<char>, s: &str)
    ensures
        final(out)@ == old(out)@ + s@,
{
    let cs = chars_of(s);
    push_chars(out, cs.as_slice());
}

/// Whether two character sequences are equal.
pub fn chars_equal(a: &[char], b: &[char]) -> (r: bool)
    ensures
        r == (a@ == b@),
{
    if a.len() != b.len() {
        return false;
    }
    let n = a.len();
    let mut i: usize = 0;
    while i < n
        invariant
            n == a@.len(),
            n == b@.len(),
            i <= n,
            forall|j: int| 0 <= j < i ==> a@[j] == b@[j],
        decreases n - i,
    {
        if a[i] != b[i] {
            return false;
        }
        i = i + 1;
    }
    assert(a@ =~= b@);
    true
}

/// The Unicode `White_Space` property, which `char::is_whitespace` tests.
pub open spec fn is_white_space(c: char) -> bool {
    let u = c as u32;
    ||| 0x9 <= u <= 0xd
    ||| u == 0x20
    ||| u == 0x85
    ||| u == 0xa0
    ||| u == 0x1680
    ||| 0x2000 <= u <= 0x200a
    ||| u == 0x2028
    ||| u == 0x2029
    ||| u == 0x202f
    ||| u == 0x205f
    ||| u == 0x3000
}

pub fn is_whitespace(c: char) -> (b: bool)
    ensures
        b == is_white_space(c),
{
    let u = c as u32;
    (0x9 <= u && u <= 0xd) || u == 0x20 || u == 0x85 || u == 0xa0 || u == 0x1680 || (0x2000 <= u
        && u <= 0x200a) || u == 0x2028 || u == 0x2029 || u == 0x202f || u == 0x205f || u == 0x3000
}

/// `s` without its leading white space (std `str::trim_start`).
pub open spec fn trim_start(s: Seq<char>) -> Seq<char>
    decreases s.len(),
{
    if s.len() > 0 && is_white_space(s[0]) {
        trim_start(s.drop_first())
    } else {
        s
    }
}

/// `s` without its trailing white space (std `str::trim_end`).
pub open spec fn trim_end(s: Seq<char>) -> Seq<char>
    decreases s.len(),
{
    if s.len() > 0 && is_white_space(s.last()) {
        trim_end(s.drop_last())
    } else {
        s
    }
}

/// `s` without leading and trailing white space (std `str::trim`).
pub open spec fn trim(s: Seq<char>) -> Seq<char> {
    trim_end(trim_start(s))
}

proof fn lemma_trim_start_shape(s: Seq<char>)
    ensures
        exists|a: int|
            0 <= a <= s.len() && trim_start(s) == s.skip(a) && (forall|j: int|
                0 <= j < a ==> is_white_space(#[trigger] s[j])) && (a < s.len() ==> !is_white_space(s[a])),
    decreases s.len(),
{
    if s.len() > 0 && is_white_space(s[0]) {
        let t = s.drop_first();
        lemma_trim_start_shape(t);
        let a = choose|a: int|
            0 <= a <= t.len() && trim_start(t) == t.skip(a) && (forall|j: int|
                0 <= j < a ==> is_white_space(#[trigger] t[j])) && (a < t.len() ==> !is_white_space(t[a]));
        assert(t.skip(a) =~= s.skip(a + 1));
        assert forall|j: int| 0 <= j < a + 1 implies is_white_space(#[trigger] s[j]) by {
            if j > 0 {
                assert(s[j] == t[j - 1]);
            }
        }
        if a + 1 < s.len() {
            assert(s[a + 1] == t[a]);
        }
    } else {
        assert(s.skip(0) =~= s);
    }
}

proof fn lemma_trim_end_shape(s: Seq<char>)
    ensures
        exists|b: int|
            0 <= b <= s.len() && trim_end(s) == s.take(b) && (forall|j: int|
                b <= j < s.len() ==> is_white_space(#[trigger] s[j])) && (b > 0 ==> !is_white_space(s[b - 1])),
    decreases s.len(),
{
    if s.len() > 0 && is_white_space(s.last()) {
        let t = s.drop_last();
        lemma_trim_end_shape(t);
        let b = choose|b: int|
            0 <= b <= t.len() && trim_end(t) == t.take(b) && (forall|j: int|
                b <= j < t.len() ==> is_white_space(#[trigger] t[j])) && (b > 0 ==> !is_white_space(t[b - 1]));
        assert(t.take(b) =~= s.take(b));
        assert forall|j: int| b <= j < s.len() implies is_white_space(#[trigger] s[j]) by {
            if j < t.len() {
                assert(s[j] == t[j]);
            }
        }
        if b > 0 {
            assert(s[b - 1] == t[b - 1]);
        }
    } else {
        assert(s.take(s.len() as int) =~= s);
    }
}

/// Trimming removes exactly the white space at both ends: the result is the
/// part of `s` from position `a` to `b`, everything before `a` and from `b` on
/// is white space, and a non-empty result starts and ends with a character
/// that is not.
pub proof fn lemma_trim(s: Seq<char>)
    ensures
        exists|a: int, b: int|
            0 <= a <= b <= s.len() && trim(s) == s.subrange(a, b) && (forall|j: int|
                0 <= j < a ==> is_white_space(#[trigger] s[j])) && (forall|j: int|
                b <= j < s.len() ==> is_white_space(#[trigger] s[j])) && (a < b ==> !is_white_space(s[a])
                && !is_white_space(s[b - 1])),
{
    lemma_trim_start_shape(s);
    let a = choose|a: int|
        0 <= a <= s.len() && trim_start(s) == s.skip(a) && (forall|j: int|
            0 <= j < a ==> is_white_space(#[trigger] s[j])) && (a < s.len() ==> !is_white_space(s[a]));
    let t = s.skip(a);
    lemma_trim_end_shape(t);
    let c = choose|b: int|
        0 <= b <= t.len() && trim_end(t) == t.take(b) && (forall|j: int|
            b <= j < t.len() ==> is_white_space(#[trigger] t[j])) && (b > 0 ==> !is_white_space(t[b - 1]));
    let b = a + c;
    assert(t.take(c) =~= s.subrange(a, b));
    assert forall|j: int| b <= j < s.len() implies is_white_space(#[trigger] s[j]) by {
        assert(s[j] == t[j - a]);
    }
    if a < b {
        assert(s[a] == t[0]);
        assert(s[b - 1] == t[c - 1]);
    }
}

pub proof fn lemma_trim_start_skip(s: Seq<char>, i: int)
    requires
        0 <= i <= s.len(),
        forall|j: int| 0 <= j < i ==> is_white_space(#[trigger] s[j]),
    ensures
        trim_start(s) == trim_start(s.skip(i)),
    decreases i,
{
    if i > 0 {
        assert(is_white_space(s[0]));
        assert(s.drop_first().skip(i - 1) == s.skip(i));
        assert forall|j: int| 0 <= j < i - 1 implies is_white_space(#[trigger] s.drop_first()[j]) by {
            assert(is_white_space(s[j + 1]));
        }
        lemma_trim_start_skip(s.drop_first(), i - 1);
    } else {
        assert(s.skip(0) == s);
    }
}

pub proof fn lemma_trim_end_take(s: Seq<char>, i: int)
    requires
        0 <= i <= s.len(),
        forall|j: int| i <= j < s.len() ==> is_white_space(#[trigger] s[j]),
    ensures
        trim_end(s) == trim_end(s.take(i)),
    decreases s.len() - i,
{
    if i < s.len() {
        assert(s.drop_last().take(i) == s.take(i));
        lemma_trim_end_take(s.drop_last(), i);
    } else {
        assert(s.take(i) == s);
    }
}

/// Index of the first character of `s` that is not white space, or `s.len()`.
fn first_non_white(s: &[char]) -> (i: usize)
    ensures
        i <= s@.len(),
        trim_start(s@) == s@.skip(i as int),
{
    let n = s.len();
    let mut i: usize = 0;
    while i < n && is_whitespace(s[i])
        invariant
            n == s@.len(),
            i <= n,
            forall|j: int| 0 <= j < i ==> is_white_space(#[trigger] s@[j]),
        decreases n - i,
    {
        i = i + 1;
    }
    proof {
        lemma_trim_start_skip(s@, i as int);
    }
    i
}

/// Index just past the last character of `s` that is not white space, or 0.
fn end_non_white(s: &[char]) -> (i: usize)
    ensures
        i <= s@.len(),
        trim_end(s@) == s@.take(i as int),
{
    let mut i: usize = s.len();
    while i > 0 && is_whitespace(s[i - 1])
        invariant
            i <= s@.len(),
            forall|j: int| i <= j < s@.len() ==> is_white_space(#[trigger] s@[j]),
        decreases i,
    {
        i = i - 1;
    }
    proof {
        lemma_trim_end_take(s@, i as int);
        assert(s@.take(i as int).len() == i);
    }
    i
}

/// Copies `s[from..to]` into a new vector.
pub fn slice_to_vec(s: &[char], from: usize, to: usize) -> (v: Vec<char>)
    requires
        from <= to <= s@.len(),
    ensures
        v@ == s@.subrange(from as int, to as int),
{
    let mut v: Vec<char> = Vec::new();
    let mut i = from;
    while i < to
        invariant
            from <= i <= to,
            to <= s@.len(),
            v@ == s@.subrange(from as int, i as int),
        decreases to - i,
    {
        v.push(s[i]);
        i = i + 1;
        assert(s@.subrange(from as int, i as int) == s@.subrange(from as int, (i - 1) as int).push(
            s@[i - 1],
        ));
    }
    v
}

pub fn trim_start_chars(s: &[char]) -> (v: Vec<char>)
    ensures
        v@ == trim_start(s@),
{
    let i = first_non_white(s);
    let v = slice_to_vec(s, i, s.len());
    assert(s@.skip(i as int) == s@.subrange(i as int, s@.len() as int));
    v
}

pub fn trim_chars(s: &[char]) -> (v: Vec<char>)
    ensures
        v@ == trim(s@),
{
    let t = trim_start_chars(s);
    let j = end_non_white(t.as_slice());
    let v = slice_to_vec(t.as_slice(), 0, j);
    assert(t@.take(j as int) == t@.subrange(0, j as int));
    v
}


/// `p` occurs in `s` at position `i`.
pub open spec fn occurs_at(s: Seq<char>, p: Seq<char>, i: int) -> bool {
    0 <= i && i + p.len() <= s.len() && s.subrange(i, i + p.len()) == p
}

/// Position of the first occurrence of `p` in `s` (std `str::find`).
pub open spec fn find(s: Seq<char>, p: Seq<char>) -> Option<nat>
    decreases s.len(),
{
    if p.len() <= s.len() && s.take(p.len() as int) == p {
        Some(0)
    } else if s.len() == 0 || s.len() < p.len() {
        None
    } else {
        match find(s.drop_first(), p) {
            Some(k) => Some(k + 1),
            None => None,
        }
    }
}

/// `find` returns the leftmost occurrence, and `None` exactly when there is none.
pub proof fn lemma_find(s: Seq<char>, p: Seq<char>)
    ensures
        match find(s, p) {
            Some(k) => occurs_at(s, p, k as int) && forall|j: int|
                0 <= j < k ==> !occurs_at(s, p, j),
            None => forall|j: int| !occurs_at(s, p, j),
        },
    decreases s.len(),
{
    if p.len() <= s.len() && s.take(p.len() as int) == p {
        assert(s.subrange(0, p.len() as int) == s.take(p.len() as int));
    } else if s.len() == 0 || s.len() < p.len() {
        if p.len() == 0 {
            assert(s.take(0) =~= p);
        }
    } else {
        lemma_find(s.drop_first(), p);
        assert(!occurs_at(s, p, 0)) by {
            assert(s.subrange(0, p.len() as int) == s.take(p.len() as int));
        }
        assert forall|j: int| 1 <= j && occurs_at(s, p, j) implies occurs_at(s.drop_first(), p, j - 1) by {
            assert(s.drop_first().subrange(j - 1, j - 1 + p.len()) =~= s.subrange(j, j + p.len()));
        }
        assert forall|j: int| 0 <= j && occurs_at(s.drop_first(), p, j) implies occurs_at(s, p, j + 1) by {
            assert(s.drop_first().subrange(j, j + p.len()) =~= s.subrange(j + 1, j + 1 + p.len()));
        }
    }
}

pub proof fn lemma_find_is(s: Seq<char>, p: Seq<char>, k: int)
    requires
        occurs_at(s, p, k),
        forall|j: int| 0 <= j < k ==> !occurs_at(s, p, j),
    ensures
        find(s, p) == Some(k as nat),
{
    lemma_find(s, p);
}

pub proof fn lemma_find_none(s: Seq<char>, p: Seq<char>)
    requires
        forall|j: int| !occurs_at(s, p, j),
    ensures
        find(s, p) == None::<nat>,
{
    lemma_find(s, p);
}

/// Whether `p` occurs in `s` at position `i`.
pub fn occurs_at_exec(s: &[char], p: &[char], i: usize) -> (b: bool)
    ensures
        b == occurs_at(s@, p@, i as int),
{
    let n = s.len();
    let m = p.len();
    if i > n || m > n - i {
        return false;
    }
    let mut k: usize = 0;
    while k < m
        invariant
            n == s@.len(),
            m == p@.len(),
            i + m <= n,
            k <= m,
            forall|j: int| 0 <= j < k ==> s@[i + j] == p@[j],
        decreases m - k,
    {
        if s[i + k] != p[k] {
            assert(s@.subrange(i as int, i + m)[k as int] != p@[k as int]);
            return false;
        }
        k = k + 1;
    }
    assert(s@.subrange(i as int, i + m) =~= p@);
    true
}

/// Position of the first occurrence of `p` in `s` at or after `from`.
pub fn find_from(s: &[char], p: &[char], from: usize) -> (r: Option<usize>)
    requires
        from <= s@.len(),
    ensures
        match r {
            Some(k) => from <= k && occurs_at(s@, p@, k as int) && forall|j: int|
                from <= j < k ==> !occurs_at(s@, p@, j),
            None => forall|j: int| from <= j ==> !occurs_at(s@, p@, j),
        },
{
    let n = s.len();
    let mut i = from;
    while i < n
        invariant
            n == s@.len(),
            from <= i <= n,
            forall|j: int| from <= j < i ==> !occurs_at(s@, p@, j),
        decreases n - i,
    {
        if occurs_at_exec(s, p, i) {
            return Some(i);
        }
        i = i + 1;
    }
    if occurs_at_exec(s, p, n) {
        return Some(n);
    }
    None
}

/// First occurrence of `p` in `s`.
pub fn find_exec(s: &[char], p: &[char]) -> (r: Option<usize>)
    ensures
        r is None <==> find(s@, p@) is None,
        r is Some ==> r.unwrap() + p@.len() <= s@.len() && find(s@, p@) == Some(r.unwrap() as nat),
{
    let r = find_from(s, p, 0);
    proof {
        match r {
            Some(k) => {
                lemma_find_is(s@, p@, k as int);
            },
            None => {
                lemma_find_none(s@, p@);
            },
        }
    }
    r
}

/// `s` begins with `p` (std `str::starts_with`).
pub open spec fn starts_with(s: Seq<char>, p: Seq<char>) -> bool {
    p.len() <= s.len() && s.take(p.len() as int) == p
}

pub fn starts_with_exec(s: &[char], p: &[char]) -> (b: bool)
    ensures
        b == starts_with(s@, p@),
{
    let b = occurs_at_exec(s, p, 0);
    assert(s@.subrange(0, p@.len() as int) == s@.take(p@.len() as int));
    b
}

/// `s` with every leftmost non-overlapping occurrence of the non-empty `p`
/// replaced by `r` (std `str::replace`).
pub open spec fn replace_all(s: Seq<char>, p: Seq<char>, r: Seq<char>) -> Seq<char>
    recommends
        p.len() > 0,
    decreases s.len(),
{
    if s.len() == 0 || p.len() == 0 {
        s
    } else if starts_with(s, p) {
        r + replace_all(s.skip(p.len() as int), p, r)
    } else {
        seq![s[0]] + replace_all(s.drop_first(), p, r)
    }
}

/// `s` with every occurrence of the non-empty `p` replaced by `r`.
pub fn replace_str(s: &str, p: &str, r: &str) -> (out: Vec<char>)
    requires
        p@.len() > 0,
    ensures
        out@ == replace_all(s@, p@, r@),
{
    let cs = chars_of(s);
    let ps = chars_of(p);
    let rs = chars_of(r);
    replace_all_exec(cs.as_slice(), ps.as_slice(), rs.as_slice())
}

/// The parts one after the other.
pub open spec fn concat(parts: Seq<Seq<char>>) -> Seq<char>
    decreases parts.len(),
{
    if parts.len() == 0 {
        seq![]
    } else {
        concat(parts.drop_last()) + parts.last()
    }
}

/// Appending the next part extends the concatenation of the parts before it.
pub proof fn lemma_concat_take(parts: Seq<Seq<char>>, i: int)
    requires
        0 <= i < parts.len(),
    ensures
        concat(parts.take(i + 1)) == concat(parts.take(i)) + parts[i],
{
    assert(parts.take(i + 1).drop_last() =~= parts.take(i));
    assert(parts.take(i + 1).last() == parts[i]);
}

proof fn lemma_concat_front(a: Seq<char>, t: Seq<Seq<char>>)
    ensures
        concat(seq![a] + t) == a + concat(t),
    decreases t.len(),
{
    if t.len() == 0 {
        assert(seq![a] + t =~= seq![a]);
        assert(seq![a].drop_last() =~= Seq::<Seq<char>>::empty());
        assert(concat(Seq::<Seq<char>>::empty()) =~= Seq::<char>::empty());
        assert(seq![a].last() == a);
        assert(concat(seq![a]) =~= a);
    } else {
        lemma_concat_front(a, t.drop_last());
        assert((seq![a] + t).drop_last() =~= seq![a] + t.drop_last());
        assert((seq![a] + t).last() == t.last());
    }
}

/// Replacing a single character replaces each occurrence of it, character by
/// character: every `c` of `s` becomes `r`, every other character stays.
pub proof fn lemma_replace_char(s: Seq<char>, c: char, r: Seq<char>)
    ensures
        replace_all(s, seq![c], r) == concat(s.map_values(|x: char| if x == c { r } else { seq![x] })),
    decreases s.len(),
{
    let f = |x: char| if x == c { r } else { seq![x] };
    if s.len() == 0 {
        assert(s.map_values(f) =~= Seq::<Seq<char>>::empty());
    } else {
        lemma_replace_char(s.drop_first(), c, r);
        assert(s.map_values(f) =~= seq![f(s[0])] + s.drop_first().map_values(f));
        lemma_concat_front(f(s[0]), s.drop_first().map_values(f));
        if s[0] == c {
            assert(starts_with(s, seq![c])) by {
                assert(s.take(1) =~= seq![c]);
            }
            assert(s.skip(1) =~= s.drop_first());
        } else {
            assert(!starts_with(s, seq![c])) by {
                if starts_with(s, seq![c]) {
                    assert(s.take(1)[0] == s[0]);
                }
            }
        }
    }
}

/// Replacing a pattern that does not occur leaves the text as it is.
pub proof fn lemma_replace_absent(s: Seq<char>, p: Seq<char>, r: Seq<char>)
    requires
        p.len() > 0,
        forall|j: int| !occurs_at(s, p, j),
    ensures
        replace_all(s, p, r) == s,
    decreases s.len(),
{
    if s.len() > 0 {
        assert(!starts_with(s, p)) by {
            if starts_with(s, p) {
                assert(s.subrange(0, p.len() as int) == s.take(p.len() as int));
                assert(occurs_at(s, p, 0));
            }
        }
        let t = s.drop_first();
        assert forall|j: int| !occurs_at(t, p, j) by {
            if occurs_at(t, p, j) {
                assert(s.subrange(j + 1, j + 1 + p.len()) =~= t.subrange(j, j + p.len()));
                assert(occurs_at(s, p, j + 1));
            }
        }
        lemma_replace_absent(t, p, r);
        assert(seq![s[0]] + t =~= s);
    }
}

/// Replacing a pattern that starts with a newline keeps a prefix that holds no
/// newline.
pub proof fn lemma_replace_keeps_prefix(s: Seq<char>, p: Seq<char>, r: Seq<char>, q: Seq<char>)
    requires
        p.len() > 0,
        p[0] == '\n',
        starts_with(s, q),
        !q.contains('\n'),
    ensures
        starts_with(replace_all(s, p, r), q),
    decreases q.len(),
{
    if q.len() > 0 {
        assert(s[0] == q[0]) by {
            assert(s.take(q.len() as int)[0] == s[0]);
        }
        assert(q.contains(q[0]));
        assert(!starts_with(s, p)) by {
            if starts_with(s, p) {
                assert(s.take(p.len() as int)[0] == s[0]);
            }
        }
        let t = s.drop_first();
        let q1 = q.drop_first();
        assert(starts_with(t, q1)) by {
            assert(t.take(q1.len() as int) =~= s.take(q.len() as int).drop_first());
        }
        assert(!q1.contains('\n')) by {
            if q1.contains('\n') {
                let k = choose|k: int| 0 <= k < q1.len() && q1[k] == '\n';
                assert(q[k + 1] == '\n');
            }
        }
        lemma_replace_keeps_prefix(t, p, r, q1);
        let rt = replace_all(t, p, r);
        assert(replace_all(s, p, r) == seq![s[0]] + rt);
        assert((seq![s[0]] + rt).take(q.len() as int) =~= seq![q[0]] + rt.take(q1.len() as int));
        assert(seq![q[0]] + q1 =~= q);
    } else {
        assert(replace_all(s, p, r).take(0) =~= q);
    }
}

pub fn replace_all_exec(s: &[char], p: &[char], r: &[char]) -> (out: Vec<char>)
    requires
        p@.len() > 0,
    ensures
        out@ == replace_all(s@, p@, r@),
{
    let n = s.len();
    let m = p.len();
    let mut out: Vec<char> = Vec::new();
    let mut i: usize = 0;
    assert(s@.skip(0) == s@);
    while i < n
        invariant
            n == s@.len(),
            m == p@.len(),
            m > 0,
            i <= n,
            replace_all(s@, p@, r@) == out@ + replace_all(s@.skip(i as int), p@, r@),
        decreases n - i,
    {
        let ghost rest = s@.skip(i as int);
        if occurs_at_exec(s, p, i) {
            assert(rest.take(m as int) =~= s@.subrange(i as int, i + m));
            assert(rest.skip(m as int) =~= s@.skip(i + m));
            push_chars(&mut out, r);
            i = i + m;
        } else {
            if m <= n - i {
                assert(rest.take(m as int) =~= s@.subrange(i as int, i + m));
            }
            assert(rest.drop_first() == s@.skip(i + 1));
            assert(rest[0] == s@[i as int]);
            let ghost before = out@;
            let ghost tail = replace_all(s@.skip(i + 1), p@, r@);
            out.push(s[i]);
            i = i + 1;
            assert(before + (seq![rest[0]] + tail) == out@ + tail);
        }
    }
    assert(s@.skip(n as int).len() == 0);
    assert(out@ + replace_all(s@.skip(n as int), p@, r@) == out@);
    out
}


pub proof fn lemma_occurs_skip(s: Seq<char>, p: Seq<char>, from: int, j: int)
    requires
        0 <= from <= s.len(),
        0 <= j,
    ensures
        occurs_at(s.skip(from), p, j) == occurs_at(s, p, j + from),
{
    if j + p.len() <= s.len() - from {
        assert(s.skip(from).subrange(j, j + p.len()) =~= s.subrange(j + from, j + from + p.len()));
    }
}

/// First occurrence of `p` in `s` at or after `from`, as `find` on `s.skip(from)`.
pub fn find_in_rest(s: &[char], p: &[char], from: usize) -> (r: Option<usize>)
    requires
        from <= s@.len(),
    ensures
        r is None <==> find(s@.skip(from as int), p@) is None,
        r is Some ==> from <= r.unwrap() && r.unwrap() + p@.len() <= s@.len() && find(
            s@.skip(from as int),
            p@,
        ) == Some((r.unwrap() - from) as nat),
{
    let r = find_from(s, p, from);
    let ghost t = s@.skip(from as int);
    proof {
        assert forall|j: int| 0 <= j implies occurs_at(t, p@, j) == occurs_at(s@, p@, j + from) by {
            lemma_occurs_skip(s@, p@, from as int, j);
        }
        match r {
            Some(k) => {
                assert(occurs_at(t, p@, k - from));
                assert forall|j: int| 0 <= j < k - from implies !occurs_at(t, p@, j) by {
                    assert(!occurs_at(s@, p@, j + from));
                }
                lemma_find_is(t, p@, k - from);
            },
            None => {
                assert forall|j: int| !occurs_at(t, p@, j) by {
                    if 0 <= j {
                        assert(!occurs_at(s@, p@, j + from));
                    }
                }
                lemma_find_none(t, p@);
            },
        }
    }
    r
}

/// The character sequences held by a sequence of vectors.
pub open spec fn views(v: Seq<Vec<char>>) -> Seq<Seq<char>> {
    v.map_values(|x: Vec<char>| x@)
}

/// The character sequences held by a sequence of strings.
pub open spec fn string_views(v: Seq<String>) -> Seq<Seq<char>> {
    v.map_values(|s: String| s@)
}

/// The decimal digit for `d < 10`.
pub open spec fn digit(d: nat) -> char {
    if d == 0 { '0' } else if d == 1 { '1' } else if d == 2 { '2' } else if d == 3 { '3' } else if d == 4 { '4' }
    else if d == 5 { '5' } else if d == 6 { '6' } else if d == 7 { '7' } else if d == 8 { '8' } else { '9' }
}

/// The decimal digits of `n`, most significant first, without leading zeros.
pub open spec fn decimal(n: nat) -> Seq<char>
    decreases n,
{
    if n < 10 {
        seq![digit(n)]
    } else {
        decimal(n / 10).push(digit(n % 10))
    }
}

/// The number that a sequence of decimal digits writes, most significant first.
pub open spec fn digits_value(s: Seq<char>) -> int
    decreases s.len(),
{
    if s.len() == 0 {
        0
    } else {
        digits_value(s.drop_last()) * 10 + (s.last() as int - '0' as int)
    }
}

proof fn lemma_digit(d: nat)
    requires
        d < 10,
    ensures
        digit(d) as int - '0' as int == d,
        '0' <= digit(d) <= '9',
{
}

/// `decimal(n)` writes `n` in decimal: it is made of the digits `0`..`9`, reads
/// back as `n`, and starts with `0` only when `n` is zero.
pub proof fn lemma_decimal(n: nat)
    ensures
        decimal(n).len() > 0,
        forall|i: int| 0 <= i < decimal(n).len() ==> '0' <= #[trigger] decimal(n)[i] <= '9',
        digits_value(decimal(n)) == n,
        n > 0 ==> decimal(n)[0] != '0',
    decreases n,
{
    if n < 10 {
        lemma_digit(n);
        assert(decimal(n).drop_last() =~= Seq::<char>::empty());
        assert(digits_value(Seq::<char>::empty()) == 0);
        assert(digits_value(decimal(n)) == digits_value(decimal(n).drop_last()) * 10 + (decimal(n).last() as int
            - '0' as int));
    } else {
        lemma_digit(n % 10);
        lemma_decimal(n / 10);
        let d = decimal(n);
        let p = decimal(n / 10);
        assert(d == p.push(digit(n % 10)));
        assert(d.drop_last() =~= p);
        assert(n == (n / 10) * 10 + n % 10);
        assert(digits_value(d) == digits_value(p) * 10 + (digit(n % 10) as int - '0' as int));
        assert forall|i: int| 0 <= i < d.len() implies '0' <= #[trigger] d[i] <= '9' by {
            if i < p.len() {
                assert(d[i] == p[i]);
            }
        }
        assert(d[0] == p[0]);
    }
}

fn digit_exec(d: usize) -> (c: char)
    requires
        d < 10,
    ensures
        c == digit(d as nat),
{
    if d == 0 { '0' } else if d == 1 { '1' } else if d == 2 { '2' } else if d == 3 { '3' } else if d == 4 { '4' }
    else if d == 5 { '5' } else if d == 6 { '6' } else if d == 7 { '7' } else if d == 8 { '8' } else { '9' }
}

/// Appends the decimal digits of `n` to `out` (std `Display` for integers).
pub fn push_decimal(out: &mut Vec<char>, n: usize)
    ensures
        final(out)@ == old(out)@ + decimal(n as nat),
    decreases n,
{
    if n < 10 {
        out.push(digit_exec(n));
        assert(decimal(n as nat) =~= seq![digit(n as nat)]);
    } else {
        push_decimal(out, n / 10);
        out.push(digit_exec(n % 10));
    }
}

/// A copy of a vector of strings.
pub fn clone_strings(v: &Vec<String>) -> (out: Vec<String>)
    ensures
        out@ == v@,
{
    let n = v.len();
    let mut out: Vec<String> = Vec::new();
    let mut i: usize = 0;
    while i < n
        invariant
            n == v@.len(),
            i <= n,
            out@ == v@.take(i as int),
        decreases n - i,
    {
        out.push(v[i].clone());
        i = i + 1;
        assert(out@ =~= v@.take(i as int));
    }
    assert(v@.take(n as int) =~= v@);
    out
}

/// The characters of each string, in order.
pub fn char_vectors(v: &Vec<String>) -> (out: Vec<Vec<char>>)
    ensures
        views(out@) == string_views(v@),
{
    let n = v.len();
    let mut out: Vec<Vec<char>> = Vec::new();
    let mut i: usize = 0;
    while i < n
        invariant
            n == v@.len(),
            i <= n,
            views(out@) == string_views(v@).take(i as int),
        decreases n - i,
    {
        let ghost before = views(out@);
        let cs = chars_of(v[i].as_str());
        out.push(cs);
        assert(views(out@) =~= before.push(v@[i as int]@));
        assert(string_views(v@).take(i + 1) =~= string_views(v@).take(i as int).push(v@[i as int]@));
        i = i + 1;
        assert(views(out@) =~= string_views(v@).take(i as int));
    }
    assert(string_views(v@).take(n as int) =~= string_views(v@));
    out
}

/// A line without its line terminator's carriage return.
pub open spec fn strip_cr(l: Seq<char>) -> Seq<char> {
    if l.len() > 0 && l.last() == '\r' {
        l.drop_last()
    } else {
        l
    }
}

/// The lines of `s` (std `str::lines`): split at `\n`, a `\r` before the `\n`
/// dropped, and no empty line after a final line ending.
pub open spec fn lines_of(s: Seq<char>) -> Seq<Seq<char>>
    decreases s.len(),
{
    if s.len() == 0 {
        seq![]
    } else {
        match find(s, seq!['\n']) {
            Some(i) => if i < s.len() {
                seq![strip_cr(s.take(i as int))] + lines_of(s.skip(i + 1 as int))
            } else {
                seq![s]
            },
            None => seq![s],
        }
    }
}

pub fn lines(s: &[char]) -> (out: Vec<Vec<char>>)
    ensures
        views(out@) == lines_of(s@),
{
    let n = s.len();
    let newline: [char; 1] = ['\n'];
    let mut out: Vec<Vec<char>> = Vec::new();
    let mut pos: usize = 0;
    assert(s@.skip(0) == s@);
    assert(newline@ == seq!['\n']);
    while pos < n
        invariant
            n == s@.len(),
            pos <= n,
            newline@ == seq!['\n'],
            lines_of(s@) == views(out@) + lines_of(s@.skip(pos as int)),
        decreases n - pos,
    {
        let ghost rest = s@.skip(pos as int);
        let ghost before = views(out@);
        match find_in_rest(s, newline.as_slice(), pos) {
            Some(j) => {
                let mut line = slice_to_vec(s, pos, j);
                if line.len() > 0 && line[line.len() - 1] == '\r' {
                    line.pop();
                }
                assert(rest.take(j - pos) =~= s@.subrange(pos as int, j as int));
                assert(rest.skip(j - pos + 1) =~= s@.skip(j + 1));
                assert(line@ == strip_cr(rest.take(j - pos)));
                assert(find(rest, seq!['\n']) == Some((j - pos) as nat));
                assert(lines_of(rest) == seq![line@] + lines_of(s@.skip(j + 1)));
                out.push(line);
                pos = j + 1;
                assert(views(out@) =~= before.push(line@));
                assert(before.push(line@) + lines_of(s@.skip(pos as int)) =~= before + (seq![line@]
                    + lines_of(s@.skip(pos as int))));
            },
            None => {
                let line = slice_to_vec(s, pos, n);
                assert(rest =~= s@.subrange(pos as int, n as int));
                assert(lines_of(rest) == seq![line@]);
                out.push(line);
                pos = n;
                assert(views(out@) =~= before.push(line@));
                assert(lines_of(s@.skip(pos as int)) == Seq::<Seq<char>>::empty());
                assert(before.push(line@) + Seq::<Seq<char>>::empty() =~= before + seq![line@]);
            },
        }
    }
    assert(lines_of(s@.skip(n as int)) == Seq::<Seq<char>>::empty());
    assert(views(out@) + Seq::<Seq<char>>::empty() =~= views(out@));
    out
}

/// The parts of `parts` with `sep` between consecutive ones (std `join`).
pub open spec fn join(parts: Seq<Seq<char>>, sep: Seq<char>) -> Seq<char>
    decreases parts.len(),
{
    if parts.len() == 0 {
        seq![]
    } else if parts.len() == 1 {
        parts[0]
    } else {
        join(parts.drop_last(), sep) + sep + parts.last()
    }
}

pub fn join_exec(parts: &Vec<Vec<char>>, sep: &[char]) -> (out: Vec<char>)
    ensures
        out@ == join(views(parts@), sep@),
{
    let n = parts.len();
    let mut out: Vec<char> = Vec::new();
    let mut i: usize = 0;
    while i < n
        invariant
            n == parts@.len(),
            i <= n,
            out@ == join(views(parts@).take(i as int), sep@),
        decreases n - i,
    {
        let ghost prev = views(parts@).take(i as int);
        if i > 0 {
            push_chars(&mut out, sep);
        }
        push_chars(&mut out, parts[i].as_slice());
        i = i + 1;
        assert(views(parts@).take(i as int).drop_last() =~= prev);
        assert(views(parts@).take(i as int).last() == parts[i - 1]@);
        if i == 1 {
            assert(out@ =~= views(parts@).take(i as int)[0]);
        }
    }
    assert(views(parts@).take(n as int) =~= views(parts@));
    out
}

/// The text before and after the first occurrence of `p` (std `str::split_once`).
pub open spec fn split_once(s: Seq<char>, p: Seq<char>) -> Option<(Seq<char>, Seq<char>)> {
    match find(s, p) {
        Some(i) => Some((s.take(i as int), s.skip((i + p.len()) as int))),
        None => None,
    }
}

pub fn split_once_exec(s: &[char], p: &[char]) -> (r: Option<(Vec<char>, Vec<char>)>)
    ensures
        r is Some <==> split_once(s@, p@) is Some,
        r is Some ==> (r.unwrap().0@, r.unwrap().1@) == split_once(s@, p@).unwrap(),
{
    match find_exec(s, p) {
        Some(i) => {
            let m = p.len();
            let n = s.len();
            assert(i + m <= n);
            let a = slice_to_vec(s, 0, i);
            let b = slice_to_vec(s, i + m, s.len());
            assert(a@ =~= s@.take(i as int));
            assert(b@ =~= s@.skip(i + p@.len()));
            Some((a, b))
        },
        None => None,
    }
}

/// `s` without the suffix `p`, if it ends with `p` (std `str::strip_suffix`).
pub open spec fn strip_suffix(s: Seq<char>, p: Seq<char>) -> Option<Seq<char>> {
    if p.len() <= s.len() && s.skip(s.len() - p.len()) == p {
        Some(s.take(s.len() - p.len()))
    } else {
        None
    }
}

pub fn strip_suffix_exec(s: &[char], p: &[char]) -> (r: Option<Vec<char>>)
    ensures
        r is Some <==> strip_suffix(s@, p@) is Some,
        r is Some ==> r.unwrap()@ == strip_suffix(s@, p@).unwrap(),
{
    let n = s.len();
    let m = p.len();
    if m > n {
        return None;
    }
    if occurs_at_exec(s, p, n - m) {
        assert(s@.skip(n - m) =~= s@.subrange(n - m, n as int));
        let a = slice_to_vec(s, 0, n - m);
        assert(a@ =~= s@.take(n - m));
        Some(a)
    } else {
        assert(s@.skip(n - m) =~= s@.subrange(n - m, n as int));
        None
    }
}

} // verus!
