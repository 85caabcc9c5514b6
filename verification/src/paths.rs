//! Paths as texts, with `/` between their components: the file name of a
//! path, its stem, the replacement of its extension, and joining.

use crate::text::{chars_of, string_of};
use vstd::prelude::*;
use vstd::string::StringExecFns;

verus! {

/// The end of `p[..end]` once the separators at its end, and the `.`
/// components that follow a separator there, are left off.
pub open spec fn trimmed_end(p: Seq<char>, end: int) -> int
    decreases end,
{
    if end <= 0 {
        0
    } else if p[end - 1] == '/' {
        trimmed_end(p, end - 1)
    } else if end >= 2 && p[end - 1] == '.' && p[end - 2] == '/' {
        trimmed_end(p, end - 2)
    } else {
        end
    }
}

/// Where the component that ends at `end` starts: just after the last
/// separator before `end`, or at 0.
pub open spec fn component_start(p: Seq<char>, end: int) -> int
    decreases end,
{
    if end <= 0 {
        0
    } else if p[end - 1] == '/' {
        end
    } else {
        component_start(p, end - 1)
    }
}

/// Where the file name of `p` stands in it. The file name is the last
/// component, with separators and `.` components after it passed over. A path
/// that is empty, is the root or `.`, or ends in `..` has no file name.
pub open spec fn file_name_range(p: Seq<char>) -> Option<(int, int)> {
    let e = trimmed_end(p, p.len() as int);
    let s = component_start(p, e);
    let name = p.subrange(s, e);
    if e == 0 || name == seq!['.'] || name == seq!['.', '.'] {
        None
    } else {
        Some((s, e))
    }
}

/// The position of the last `c` in `s`, or -1 if it holds none.
pub open spec fn last_index(s: Seq<char>, c: char) -> int
    decreases s.len(),
{
    if s.len() == 0 {
        -1
    } else if s.last() == c {
        s.len() - 1
    } else {
        last_index(s.drop_last(), c)
    }
}

/// The length of the stem of a file name: what stands before its last dot,
/// or all of it if it holds no dot or only one at its start.
pub open spec fn stem_len(name: Seq<char>) -> int {
    let d = last_index(name, '.');
    if d <= 0 {
        name.len() as int
    } else {
        d
    }
}

/// The stem of the file name of `p`, if `p` has a file name.
pub open spec fn stem_of(p: Seq<char>) -> Option<Seq<char>> {
    match file_name_range(p) {
        None => None,
        Some((s, e)) => Some(p.subrange(s, s + stem_len(p.subrange(s, e)))),
    }
}

/// A dot and `ext`, or nothing if `ext` is empty.
pub open spec fn suffix(ext: Seq<char>) -> Seq<char> {
    if ext.len() == 0 {
        Seq::empty()
    } else {
        seq!['.'] + ext
    }
}

/// `p` with the extension of its file name replaced by `ext`: `p` up to the
/// end of the stem of its file name, then a dot and `ext`. An empty `ext`
/// adds no dot. A path without a file name stays as it is.
pub open spec fn replace_extension(p: Seq<char>, ext: Seq<char>) -> Seq<char> {
    match file_name_range(p) {
        None => p,
        Some((s, e)) => p.take(s + stem_len(p.subrange(s, e))) + suffix(ext),
    }
}

/// `rel` seen from `base`: `rel` alone if it starts at the root or `base` is
/// empty, else `base`, a separator unless `base` ends with one, and `rel`.
pub open spec fn joined(base: Seq<char>, rel: Seq<char>) -> Seq<char> {
    if (rel.len() > 0 && rel[0] == '/') || base.len() == 0 {
        rel
    } else if base.last() == '/' {
        base + rel
    } else {
        base + seq!['/'] + rel
    }
}

/// Where the trimmed end and a component's start lie.
pub proof fn lemma_ranges(p: Seq<char>, end: int)
    requires
        0 <= end <= p.len(),
    ensures
        0 <= trimmed_end(p, end) <= end,
        0 <= component_start(p, end) <= end,
        trimmed_end(p, end) > 0 ==> p[trimmed_end(p, end) - 1] != '/',
        forall|j: int| component_start(p, end) <= j < end ==> p[j] != '/',
        component_start(p, end) > 0 ==> p[component_start(p, end) - 1] == '/',
    decreases end,
{
    if end > 0 {
        lemma_ranges(p, end - 1);
        if end >= 2 {
            lemma_ranges(p, end - 2);
        }
    }
}

/// A position that holds `c` with none after it, or -1 where there is none,
/// is the last index of `c`.
pub proof fn lemma_last_index_is(s: Seq<char>, c: char, i: int)
    requires
        -1 <= i < s.len(),
        forall|j: int| i < j < s.len() ==> s[j] != c,
        i >= 0 ==> s[i] == c,
    ensures
        last_index(s, c) == i,
    decreases s.len(),
{
    if s.len() > 0 && s.last() != c {
        let t = s.drop_last();
        assert forall|j: int| i < j < t.len() implies t[j] != c by {
            assert(t[j] == s[j]);
        }
        lemma_last_index_is(t, c, i);
    }
}

/// A path that starts where `p` does and ends before a separator of `p` has
/// its components where `p` has them.
proof fn lemma_component_start_from(p: Seq<char>, end: int, s: int)
    requires
        0 <= s <= end <= p.len(),
        forall|j: int| s <= j < end ==> p[j] != '/',
        s > 0 ==> p[s - 1] == '/',
    ensures
        component_start(p, end) == s,
    decreases end - s,
{
    if end > s {
        lemma_component_start_from(p, end - 1, s);
    }
}

/// A name without a dot keeps all of itself as its stem, so that its
/// extension is added: for a path whose last character is neither a
/// separator nor a dot and whose final component holds no dot, replacing the
/// extension appends a dot and the extension.
pub proof fn lemma_extension_added(p: Seq<char>, ext: Seq<char>)
    requires
        p.len() > 0,
        p.last() != '/',
        forall|j: int| component_start(p, p.len() as int) <= j < p.len() ==> p[j] != '.',
    ensures
        replace_extension(p, ext) == p + suffix(ext),
{
    let n = p.len() as int;
    lemma_ranges(p, n);
    let s = component_start(p, n);
    assert(s < n);
    let name = p.subrange(s, n);
    assert(name[0] == p[s]);
    lemma_last_index_is(name, '.', -1);
    assert(p.take(n) =~= p);
}

/// The file `<stem>.<ext>` under `dir` has the stem `stem`, for every
/// non-empty `stem` without a separator and every non-empty `ext` without a
/// separator or a dot.
pub proof fn lemma_stem_of_note_file(dir: Seq<char>, stem: Seq<char>, ext: Seq<char>)
    requires
        stem.len() > 0,
        ext.len() > 0,
        forall|j: int| 0 <= j < stem.len() ==> stem[j] != '/',
        forall|j: int| 0 <= j < ext.len() ==> ext[j] != '/' && ext[j] != '.',
    ensures
        stem_of(dir + seq!['/'] + stem + seq!['.'] + ext) == Some(stem),
{
    let p = dir + seq!['/'] + stem + seq!['.'] + ext;
    let n = p.len() as int;
    let s = dir.len() as int + 1;
    assert(p.last() == ext.last());
    assert forall|j: int| s <= j < n implies p[j] != '/' by {
        if j < s + stem.len() {
            assert(p[j] == stem[j - s]);
        } else if j > s + stem.len() {
            assert(p[j] == ext[j - s - stem.len() - 1]);
        }
    }
    lemma_component_start_from(p, n, s);
    let name = p.subrange(s, n);
    assert(name.len() >= 3);
    assert forall|j: int| stem.len() < j < name.len() implies name[j] != '.' by {
        assert(name[j] == ext[j - stem.len() - 1]);
    }
    assert(name[stem.len() as int] == '.');
    lemma_last_index_is(name, '.', stem.len() as int);
    assert(p.subrange(s, s + stem.len()) =~= stem);
}

/// The end of `p` without the separators and `.` components at its end.
fn trim_end(p: &Vec<char>) -> (e: usize)
    ensures
        e == trimmed_end(p@, p@.len() as int),
{
    let mut e: usize = p.len();
    let mut going = true;
    while going
        invariant
            e <= p.len(),
            trimmed_end(p@, e as int) == trimmed_end(p@, p@.len() as int),
            !going ==> trimmed_end(p@, e as int) == e,
        decreases e + (if going { 1int } else { 0int }),
    {
        if e > 0 && p[e - 1] == '/' {
            e -= 1;
        } else if e >= 2 && p[e - 1] == '.' && p[e - 2] == '/' {
            e -= 2;
        } else {
            going = false;
        }
    }
    e
}

/// Where the component of `p` that ends at `end` starts.
fn start_of_component(p: &Vec<char>, end: usize) -> (s: usize)
    requires
        end <= p.len(),
    ensures
        s == component_start(p@, end as int),
{
    let mut s: usize = end;
    while s > 0 && p[s - 1] != '/'
        invariant
            s <= end <= p.len(),
            component_start(p@, s as int) == component_start(p@, end as int),
        decreases s,
    {
        s -= 1;
    }
    s
}

/// Where the file name of `p` stands in it, if it has one.
fn name_range(p: &Vec<char>) -> (r: Option<(usize, usize)>)
    ensures
        match r {
            None => file_name_range(p@) is None,
            Some((s, e)) => s <= e <= p.len() && file_name_range(p@) == Some((s as int, e as int)),
        },
{
    let e = trim_end(p);
    proof {
        lemma_ranges(p@, p@.len() as int);
        lemma_ranges(p@, e as int);
    }
    let s = start_of_component(p, e);
    let ghost name = p@.subrange(s as int, e as int);
    if e == 0 {
        return None;
    }
    if e - s == 1 && p[s] == '.' {
        assert(name =~= seq!['.']);
        return None;
    }
    if e - s == 2 && p[s] == '.' && p[s + 1] == '.' {
        assert(name =~= seq!['.', '.']);
        return None;
    }
    proof {
        let one = seq!['.'];
        let two = seq!['.', '.'];
        assert(one.len() == 1 && one[0] == '.');
        assert(two.len() == 2 && two[0] == '.' && two[1] == '.');
        if name.len() == 1 {
            assert(name[0] == p@[s as int]);
        }
        if name.len() == 2 {
            assert(name[0] == p@[s as int] && name[1] == p@[s + 1]);
        }
        assert(name != one && name != two);
    }
    Some((s, e))
}

/// Where the stem of the file name `p[s..e]` ends in `p`.
fn stem_end(p: &Vec<char>, s: usize, e: usize) -> (d: usize)
    requires
        s <= e <= p.len(),
    ensures
        d == s + stem_len(p@.subrange(s as int, e as int)),
        s <= d <= e,
{
    let ghost name = p@.subrange(s as int, e as int);
    let mut d: usize = e;
    while d > s && p[d - 1] != '.'
        invariant
            s <= d <= e <= p.len(),
            name == p@.subrange(s as int, e as int),
            forall|j: int| d - s <= j < name.len() ==> name[j] != '.',
        decreases d,
    {
        d -= 1;
    }
    if d - s > 1 {
        proof {
            lemma_last_index_is(name, '.', d - 1 - s);
        }
        d - 1
    } else {
        proof {
            if d == s {
                lemma_last_index_is(name, '.', -1);
            } else {
                lemma_last_index_is(name, '.', 0);
            }
        }
        e
    }
}

/// The stem of the file name of `path`: the file name without its extension.
/// `None` if `path` has no file name.
pub fn file_stem(path: &str) -> (r: Option<String>)
    ensures
        match r {
            None => stem_of(path@) is None,
            Some(stem) => stem_of(path@) == Some(stem@),
        },
{
    let p = chars_of(path);
    match name_range(&p) {
        None => None,
        Some((s, e)) => {
            let d = stem_end(&p, s, e);
            Some(string_of(&p, s, d))
        },
    }
}

/// `path` with the extension of its file name replaced by `ext`.
pub fn with_extension(path: &str, ext: &str) -> (r: String)
    ensures
        r@ == replace_extension(path@, ext@),
{
    let p = chars_of(path);
    let mut out = match name_range(&p) {
        None => {
            assert(p@.subrange(0, p@.len() as int) =~= p@);
            return string_of(&p, 0, p.len());
        },
        Some((s, e)) => {
            let d = stem_end(&p, s, e);
            string_of(&p, 0, d)
        },
    };
    if !ext.is_empty() {
        out.push('.');
        out.append(ext);
        assert(out@ =~= replace_extension(path@, ext@));
    } else {
        assert(out@ =~= replace_extension(path@, ext@));
    }
    out
}

/// `rel` seen from `base`.
pub fn join(base: &str, rel: &str) -> (r: String)
    ensures
        r@ == joined(base@, rel@),
{
    let b = chars_of(base);
    let p = chars_of(rel);
    if (p.len() > 0 && p[0] == '/') || b.len() == 0 {
        return rel.to_owned();
    }
    let mut out = base.to_owned();
    if b[b.len() - 1] != '/' {
        out.push('/');
    }
    out.append(rel);
    out
}

} // verus!
