//! Texts as sequences of characters: conversion between `String` and
//! `Vec<char>`, substring search, splitting at a separator and into lines.

use vstd::prelude::*;

verus! {

/// `String::push` of std appends one character to the end of the string.
/// Believed, not proved.
pub assume_specification[ String::push ](s: &mut String, ch: char)
    ensures
        final(s)@ == old(s)@.push(ch),
;

/// The characters of `s`, in order.
pub fn chars_of(s: &str) -> (v: Vec<char>)
    ensures
        v@ == s@,
{
    let mut v: Vec<char> = Vec::new();
    for c in it: s.chars()
        invariant
            v@ == it.seq().take(it.index() as int),
            it.seq() == s@,
    {
        v.push(c);
    }
    v
}

/// The text made of the characters `v[from..to]`.
pub fn string_of(v: &Vec<char>, from: usize, to: usize) -> (s: String)
    requires
        from <= to <= v.len(),
    ensures
        s@ == v@.subrange(from as int, to as int),
{
    let mut s = String::new();
    let mut i: usize = from;
    while i < to
        invariant
            from <= i <= to <= v.len(),
            s@ == v@.subrange(from as int, i as int),
        decreases to - i,
    {
        s.push(v[i]);
        i += 1;
    }
    s
}

/// `pat` stands in `s` at position `i`.
pub open spec fn occurs_at(s: Seq<char>, pat: Seq<char>, i: int) -> bool {
    0 <= i && i + pat.len() <= s.len() && s.subrange(i, i + pat.len()) == pat
}

/// `pat` is a substring of `s`: it stands in `s` at some position. The match
/// is by characters, with no folding of case.
pub open spec fn occurs_in(s: Seq<char>, pat: Seq<char>) -> bool {
    exists|i: int| occurs_at(s, pat, i)
}

/// `s` ends with `tail`. Every text ends with the empty text.
pub open spec fn ends(s: Seq<char>, tail: Seq<char>) -> bool {
    tail.len() <= s.len() && s.subrange(s.len() - tail.len(), s.len() as int) == tail
}

/// The test whether a text holds `pat`, for filtering.
pub open spec fn holding(pat: Seq<char>) -> spec_fn(Seq<char>) -> bool {
    |s: Seq<char>| occurs_in(s, pat)
}

/// The empty text is a substring of every text.
pub proof fn lemma_empty_occurs(s: Seq<char>)
    ensures
        occurs_in(s, Seq::<char>::empty()),
{
    assert(s.subrange(0, 0) =~= Seq::<char>::empty());
    assert(occurs_at(s, Seq::<char>::empty(), 0));
}

/// Filtering by `holding(pat)` keeps exactly the texts that hold `pat`.
pub proof fn lemma_holding_exact(texts: Seq<Seq<char>>, pat: Seq<char>)
    ensures
        forall|t: Seq<char>| #[trigger]
            texts.filter(holding(pat)).contains(t) <==> texts.contains(t) && occurs_in(t, pat),
{
    let kept = texts.filter(holding(pat));
    assert forall|t: Seq<char>| #[trigger] kept.contains(t) <==> texts.contains(t) && occurs_in(
        t,
        pat,
    ) by {
        if kept.contains(t) {
            texts.lemma_filter_contains_rev(holding(pat), t);
            let i = choose|i: int| 0 <= i < kept.len() && kept[i] == t;
            texts.lemma_filter_pred(holding(pat), i);
        }
        if texts.contains(t) && occurs_in(t, pat) {
            let i = choose|i: int| 0 <= i < texts.len() && texts[i] == t;
            texts.lemma_filter_contains(holding(pat), i);
        }
    }
}

/// The empty text selects every text: filtering by it leaves all of them.
pub proof fn lemma_holding_empty_keeps_all(texts: Seq<Seq<char>>)
    ensures
        texts.filter(holding(Seq::<char>::empty())) == texts,
    decreases texts.len(),
{
    let all = holding(Seq::<char>::empty());
    if texts.len() == 0 {
        texts.lemma_filter_len(all);
        assert(texts.filter(all) =~= texts);
    } else {
        let init = texts.drop_last();
        lemma_holding_empty_keeps_all(init);
        init.lemma_filter_push(texts.last(), all);
        lemma_empty_occurs(texts.last());
        assert(init.push(texts.last()) =~= texts);
    }
}

/// There is at least one piece, whatever the text.
pub proof fn lemma_fields_nonempty(s: Seq<char>, sep: char)
    ensures
        fields(s, sep).len() >= 1,
{
}

/// A text without the separator is its own single piece.
pub proof fn lemma_fields_single(s: Seq<char>, sep: char)
    requires
        forall|j: int| 0 <= j < s.len() ==> s[j] != sep,
    ensures
        fields(s, sep) == seq![s],
{
    lemma_first_index_is(s, sep, s.len() as int);
}

/// The position of the first `c` in `s`, or the length of `s` if it holds none.
pub open spec fn first_index(s: Seq<char>, c: char) -> nat
    decreases s.len(),
{
    if s.len() == 0 || s[0] == c {
        0
    } else {
        1 + first_index(s.drop_first(), c)
    }
}

/// The pieces of `s` between the occurrences of `sep`: one more piece than
/// there are separators, each free of `sep`, empty ones included.
pub open spec fn fields(s: Seq<char>, sep: char) -> Seq<Seq<char>>
    decreases s.len(),
{
    let i = first_index(s, sep) as int;
    if i >= s.len() {
        seq![s]
    } else {
        seq![s.take(i)] + fields(s.skip(i + 1), sep)
    }
}

/// `l` without one carriage return at its end, if it has one.
pub open spec fn strip_cr(l: Seq<char>) -> Seq<char> {
    if l.len() > 0 && l.last() == '\r' {
        l.drop_last()
    } else {
        l
    }
}

/// The lines of `s`. A line ends at a line feed; a carriage return just
/// before that line feed belongs to the line ending. What follows the last
/// line feed is a line only if it is not empty, and keeps a carriage return
/// at its end.
pub open spec fn lines_of(s: Seq<char>) -> Seq<Seq<char>>
    decreases s.len(),
{
    if s.len() == 0 {
        Seq::empty()
    } else {
        let i = first_index(s, '\n') as int;
        if i >= s.len() {
            seq![s]
        } else {
            seq![strip_cr(s.take(i))] + lines_of(s.skip(i + 1))
        }
    }
}

/// The texts that the ranges `r` cut out of `s`.
pub open spec fn cut(s: Seq<char>, r: Seq<(usize, usize)>) -> Seq<Seq<char>> {
    Seq::new(r.len(), |k: int| s.subrange(r[k].0 as int, r[k].1 as int))
}

/// Every range of `r` lies within a text of length `n`.
pub open spec fn ranges_within(r: Seq<(usize, usize)>, n: nat) -> bool {
    forall|k: int| 0 <= k < r.len() ==> (#[trigger] r[k]).0 <= r[k].1 <= n
}

/// `first_index` is the least position of `c`, and the length where there is none.
pub proof fn lemma_first_index(s: Seq<char>, c: char)
    ensures
        first_index(s, c) <= s.len(),
        forall|j: int| 0 <= j < first_index(s, c) ==> s[j] != c,
        first_index(s, c) < s.len() ==> s[first_index(s, c) as int] == c,
    decreases s.len(),
{
    if s.len() == 0 || s[0] == c {
    } else {
        let t = s.drop_first();
        lemma_first_index(t, c);
        assert forall|j: int| 0 <= j < first_index(s, c) implies s[j] != c by {
            if j > 0 {
                assert(s[j] == t[j - 1]);
            }
        }
    }
}

/// A position with no `c` before it, and `c` at it unless it is the end, is
/// the first index of `c`.
pub proof fn lemma_first_index_is(s: Seq<char>, c: char, i: int)
    requires
        0 <= i <= s.len(),
        forall|j: int| 0 <= j < i ==> s[j] != c,
        i < s.len() ==> s[i] == c,
    ensures
        first_index(s, c) == i,
{
    lemma_first_index(s, c);
}

/// Whether `pat` equals the part of `s` that starts at `i`.
fn matches_here(s: &Vec<char>, i: usize, pat: &Vec<char>) -> (b: bool)
    requires
        i + pat.len() <= s.len(),
    ensures
        b == (s@.subrange(i as int, i + pat.len()) == pat@),
{
    let m = pat.len();
    let mut k: usize = 0;
    while k < m
        invariant
            k <= m == pat.len(),
            i + m <= s.len(),
            forall|j: int| 0 <= j < k ==> s@[i + j] == pat@[j],
        decreases m - k,
    {
        if s[i + k] != pat[k] {
            assert(s@.subrange(i as int, i + m)[k as int] != pat@[k as int]);
            return false;
        }
        k += 1;
    }
    assert(s@.subrange(i as int, i + m) =~= pat@);
    true
}

/// Whether `pat` is a substring of `s[from..to]`.
pub fn occurs_between(s: &Vec<char>, from: usize, to: usize, pat: &Vec<char>) -> (b: bool)
    requires
        from <= to <= s.len(),
    ensures
        b == occurs_in(s@.subrange(from as int, to as int), pat@),
{
    let ghost part = s@.subrange(from as int, to as int);
    let m = pat.len();
    if to - from < m {
        return false;
    }
    let last: usize = to - m;
    let mut i: usize = from;
    while i <= last
        invariant
            from <= i <= last + 1,
            last + m == to <= s.len(),
            m == pat.len(),
            part == s@.subrange(from as int, to as int),
            forall|j: int| 0 <= j < i - from ==> !occurs_at(part, pat@, j),
        decreases last + 1 - i,
    {
        assert(part.subrange(i - from, i - from + m) =~= s@.subrange(i as int, i + m));
        if matches_here(s, i, pat) {
            assert(occurs_at(part, pat@, i - from));
            return true;
        }
        assert(m > 0) by {
            if m == 0 {
                assert(s@.subrange(i as int, i + m) =~= pat@);
            }
        }
        i += 1;
    }
    false
}

/// The ranges of `s` that hold the pieces between the occurrences of `sep`.
pub fn field_ranges(s: &Vec<char>, sep: char) -> (r: Vec<(usize, usize)>)
    ensures
        ranges_within(r@, s@.len()),
        cut(s@, r@) == fields(s@, sep),
{
    let n = s.len();
    let mut r: Vec<(usize, usize)> = Vec::new();
    let mut start: usize = 0;
    let mut i: usize = 0;
    assert(s@.skip(0) =~= s@);
    assert(cut(s@, r@) + fields(s@.skip(0), sep) =~= fields(s@, sep));
    while i < n
        invariant
            start <= i <= n == s.len(),
            ranges_within(r@, s@.len()),
            forall|j: int| start <= j < i ==> s@[j] != sep,
            cut(s@, r@) + fields(s@.skip(start as int), sep) == fields(s@, sep),
        decreases n - i,
    {
        if s[i] == sep {
            proof {
                let rest = s@.skip(start as int);
                lemma_first_index_is(rest, sep, i - start);
                assert(rest.take(i - start) =~= s@.subrange(start as int, i as int));
                assert(rest.skip(i - start + 1) =~= s@.skip(i + 1));
                assert(cut(s@, r@.push((start, i))) =~= cut(s@, r@) + seq![
                    s@.subrange(start as int, i as int),
                ]);
            }
            r.push((start, i));
            start = i + 1;
        }
        i += 1;
    }
    proof {
        let rest = s@.skip(start as int);
        lemma_first_index_is(rest, sep, n - start);
        assert(rest =~= s@.subrange(start as int, n as int));
        assert(cut(s@, r@.push((start, n))) =~= cut(s@, r@) + seq![rest]);
    }
    r.push((start, n));
    r
}

/// The ranges of `s` that hold its lines.
pub fn line_ranges(s: &Vec<char>) -> (r: Vec<(usize, usize)>)
    ensures
        ranges_within(r@, s@.len()),
        cut(s@, r@) == lines_of(s@),
{
    let n = s.len();
    let mut r: Vec<(usize, usize)> = Vec::new();
    let mut start: usize = 0;
    let mut i: usize = 0;
    assert(s@.skip(0) =~= s@);
    assert(cut(s@, r@) + lines_of(s@.skip(0)) =~= lines_of(s@));
    while i < n
        invariant
            start <= i <= n == s.len(),
            ranges_within(r@, s@.len()),
            forall|j: int| start <= j < i ==> s@[j] != '\n',
            cut(s@, r@) + lines_of(s@.skip(start as int)) == lines_of(s@),
        decreases n - i,
    {
        if s[i] == '\n' {
            let end: usize = if i > start && s[i - 1] == '\r' {
                i - 1
            } else {
                i
            };
            proof {
                let rest = s@.skip(start as int);
                lemma_first_index_is(rest, '\n', i - start);
                let line = rest.take(i - start);
                assert(line =~= s@.subrange(start as int, i as int));
                assert(strip_cr(line) =~= s@.subrange(start as int, end as int));
                assert(rest.skip(i - start + 1) =~= s@.skip(i + 1));
                assert(cut(s@, r@.push((start, end))) =~= cut(s@, r@) + seq![
                    s@.subrange(start as int, end as int),
                ]);
            }
            r.push((start, end));
            start = i + 1;
        }
        i += 1;
    }
    if start < n {
        proof {
            let rest = s@.skip(start as int);
            lemma_first_index_is(rest, '\n', n - start);
            assert(rest =~= s@.subrange(start as int, n as int));
            assert(cut(s@, r@.push((start, n))) =~= cut(s@, r@) + seq![rest]);
        }
        r.push((start, n));
    } else {
        assert(cut(s@, r@) + lines_of(s@.skip(start as int)) =~= cut(s@, r@));
    }
    r
}

/// The texts that the ranges `r` cut out of `s`, as strings.
pub fn strings_of(s: &Vec<char>, r: &Vec<(usize, usize)>) -> (out: Vec<String>)
    requires
        ranges_within(r@, s@.len()),
    ensures
        out.deep_view() == cut(s@, r@),
{
    let mut out: Vec<String> = Vec::new();
    let mut k: usize = 0;
    while k < r.len()
        invariant
            k <= r.len(),
            ranges_within(r@, s@.len()),
            out.len() == k,
            forall|j: int| 0 <= j < k ==> (#[trigger] out@[j])@ == cut(s@, r@)[j],
        decreases r.len() - k,
    {
        let (a, b) = r[k];
        out.push(string_of(s, a, b));
        k += 1;
    }
    assert(out.deep_view() =~= cut(s@, r@));
    out
}

/// Whether `pat` is a substring of `s`. The empty text is a substring of
/// every text.
pub fn contains(s: &str, pat: &str) -> (b: bool)
    ensures
        b == occurs_in(s@, pat@),
{
    let sv = chars_of(s);
    let pv = chars_of(pat);
    assert(sv@.subrange(0, sv@.len() as int) =~= sv@);
    occurs_between(&sv, 0, sv.len(), &pv)
}

/// Whether `s` ends with `tail`.
pub fn ends_with(s: &str, tail: &str) -> (b: bool)
    ensures
        b == ends(s@, tail@),
{
    let sv = chars_of(s);
    let tv = chars_of(tail);
    if tv.len() > sv.len() {
        return false;
    }
    matches_here(&sv, sv.len() - tv.len(), &tv)
}

/// The pieces of `s` between the occurrences of `sep`.
pub fn split(s: &str, sep: char) -> (out: Vec<String>)
    ensures
        out.deep_view() == fields(s@, sep),
{
    let sv = chars_of(s);
    let r = field_ranges(&sv, sep);
    strings_of(&sv, &r)
}

/// The lines of `s`, without their line endings.
pub fn lines(s: &str) -> (out: Vec<String>)
    ensures
        out.deep_view() == lines_of(s@),
{
    let sv = chars_of(s);
    let r = line_ranges(&sv);
    strings_of(&sv, &r)
}

} // verus!
