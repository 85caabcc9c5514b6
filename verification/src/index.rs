//! The index of notes: from the name of a note to the path of its file.

use crate::config::Config;
use crate::order::{ascending, lemma_ascending_unique, sort, views};
use crate::paths::{
    file_stem, join, joined, lemma_extension_added, lemma_ranges, lemma_stem_of_note_file,
    replace_extension, stem_of, suffix, with_extension,
};
use crate::text::{
    chars_of, ends, ends_with, holding, lemma_holding_empty_keeps_all, lemma_holding_exact,
    occurs_between, string_of,
};
use vstd::prelude::*;
use vstd::string::StringExecFns;

verus! {

/// A note: its name and the path of its file.
#[derive(Debug)]
pub struct Note {
    pub name: String,
    pub path: String,
}

/// What the search of the notes directory hands in for one entry, as it
/// saw it.
#[derive(Debug)]
pub enum Found {
    /// A regular file that matched the pattern, by its path.
    File(String),
    /// A match that is no regular file, such as a directory. It is no note.
    NotFile,
    /// An entry of the notes directory whose name is no text, by that name
    /// with what is no text in it replaced.
    NotText(String),
    /// An entry that could not be read from the file system.
    Unreadable,
}

/// Why no index could be built.
#[derive(Debug, Clone, Copy, PartialEq, Eq)]
pub enum ScanError {
    /// The file system could not be read.
    Unreadable,
    /// A path that matched has no file name to take the stem of.
    NoStem,
    /// The name of an entry with the extension of the notes is no text.
    NotText,
}

/// The notes by name. No name occurs twice.
pub struct NoteIndex {
    entries: Vec<Note>,
}

/// The names of `notes`, in their order.
pub open spec fn names_of(notes: Seq<Note>) -> Seq<Seq<char>> {
    Seq::new(notes.len(), |i: int| notes[i].name@)
}

/// The paths of `notes`, in their order.
pub open spec fn paths_of(notes: Seq<Note>) -> Seq<Seq<char>> {
    Seq::new(notes.len(), |i: int| notes[i].path@)
}

/// The map that takes each of `names` to the path at its place in `paths`.
pub open spec fn pairing(names: Seq<Seq<char>>, paths: Seq<Seq<char>>) -> Map<
    Seq<char>,
    Seq<char>,
> {
    Map::new(|k: Seq<char>| names.contains(k), |k: Seq<char>| paths[names.index_of(k)])
}

/// Why an entry stops the building of the index of the notes with the
/// extension `ext`, if it does. An entry that is no regular file stops
/// nothing, and one whose name is no text only if that name ends as the notes
/// do: with a dot and `ext`, or in any way if `ext` is empty.
pub open spec fn failure(f: Found, ext: Seq<char>) -> Option<ScanError> {
    match f {
        Found::Unreadable => Some(ScanError::Unreadable),
        Found::NotText(name) => if ends(name@, suffix(ext)) {
            Some(ScanError::NotText)
        } else {
            None
        },
        Found::NotFile => None,
        Found::File(p) => if stem_of(p@) is None {
            Some(ScanError::NoStem)
        } else {
            None
        },
    }
}

/// The index of the regular files among `found`: each path under the stem of
/// its file name. Of two files with one stem the later one stays. What is no
/// regular file is left out.
pub open spec fn indexed(found: Seq<Found>) -> Map<Seq<char>, Seq<char>>
    decreases found.len(),
{
    if found.len() == 0 {
        Map::empty()
    } else {
        let before = indexed(found.drop_last());
        match found.last() {
            Found::File(p) => match stem_of(p@) {
                Some(stem) => before.insert(stem, p@),
                None => before,
            },
            _ => before,
        }
    }
}

/// The names of the index of `found`, in the order in which the files first
/// bring them.
pub open spec fn names_in_order(found: Seq<Found>) -> Seq<Seq<char>>
    decreases found.len(),
{
    if found.len() == 0 {
        Seq::empty()
    } else {
        let before = names_in_order(found.drop_last());
        match found.last() {
            Found::File(p) => match stem_of(p@) {
                Some(stem) => if before.contains(stem) {
                    before
                } else {
                    before.push(stem)
                },
                None => before,
            },
            _ => before,
        }
    }
}

/// The stems of the files among `found`.
pub open spec fn stems(found: Seq<Found>) -> Set<Seq<char>> {
    Set::new(
        |k: Seq<char>|
            exists|i: int|
                0 <= i < found.len() && found[i] is File && stem_of((#[trigger] found[i])->File_0@)
                    == Some(k),
    )
}

/// In a pairing of names that are all different, each name has the path at
/// its own place.
pub proof fn lemma_pairing_at(names: Seq<Seq<char>>, paths: Seq<Seq<char>>, i: int)
    requires
        names.no_duplicates(),
        0 <= i < names.len(),
    ensures
        pairing(names, paths).contains_key(names[i]),
        pairing(names, paths)[names[i]] == paths[i],
{
    assert(names.contains(names[i]));
}

/// A new name at the end of the names is one more key of the pairing.
pub proof fn lemma_pairing_push(
    names: Seq<Seq<char>>,
    paths: Seq<Seq<char>>,
    name: Seq<char>,
    path: Seq<char>,
)
    requires
        names.no_duplicates(),
        names.len() == paths.len(),
        !names.contains(name),
    ensures
        names.push(name).no_duplicates(),
        pairing(names.push(name), paths.push(path)) == pairing(names, paths).insert(name, path),
{
    let n2 = names.push(name);
    let p2 = paths.push(path);
    assert forall|i: int, j: int| 0 <= i < n2.len() && 0 <= j < n2.len() && i != j implies n2[i]
        != n2[j] by {
        if i < names.len() {
            assert(names.contains(names[i]));
        }
        if j < names.len() {
            assert(names.contains(names[j]));
        }
    }
    let a = pairing(n2, p2);
    let b = pairing(names, paths).insert(name, path);
    assert forall|k: Seq<char>| a.contains_key(k) == b.contains_key(k) by {
        if n2.contains(k) {
            let i = choose|i: int| 0 <= i < n2.len() && n2[i] == k;
            if i < names.len() {
                assert(names[i] == k);
            }
        }
        if names.contains(k) {
            let i = choose|i: int| 0 <= i < names.len() && names[i] == k;
            assert(n2[i] == k);
        }
        if k == name {
            assert(n2[names.len() as int] == k);
        }
    }
    assert forall|k: Seq<char>| a.contains_key(k) implies a[k] == b[k] by {
        let i = n2.index_of(k);
        assert(n2[i] == k);
        if i < names.len() {
            assert(names[i] == k);
            lemma_pairing_at(names, paths, i);
        }
    }
    assert(a =~= b);
}

/// A new path at the place of a name is a new value under that key.
pub proof fn lemma_pairing_update(
    names: Seq<Seq<char>>,
    paths: Seq<Seq<char>>,
    i: int,
    path: Seq<char>,
)
    requires
        names.no_duplicates(),
        names.len() == paths.len(),
        0 <= i < names.len(),
    ensures
        pairing(names, paths.update(i, path)) == pairing(names, paths).insert(names[i], path),
{
    let p2 = paths.update(i, path);
    let a = pairing(names, p2);
    let b = pairing(names, paths).insert(names[i], path);
    assert(names.contains(names[i]));
    assert forall|k: Seq<char>| a.contains_key(k) implies a[k] == b[k] by {
        let j = names.index_of(k);
        assert(names[j] == k);
    }
    assert(a =~= b);
}

/// The keys of the index of `found` are the stems of its files.
pub proof fn lemma_indexed_keys(found: Seq<Found>)
    ensures
        indexed(found).dom() == stems(found),
    decreases found.len(),
{
    if found.len() == 0 {
        assert(indexed(found).dom() =~= stems(found));
    } else {
        let init = found.drop_last();
        let last = found.len() - 1;
        lemma_indexed_keys(init);
        assert forall|k: Seq<char>| indexed(found).dom().contains(k) == stems(found).contains(
            k,
        ) by {
            if stems(init).contains(k) {
                let i = choose|i: int|
                    0 <= i < init.len() && init[i] is File && stem_of(
                        (#[trigger] init[i])->File_0@,
                    ) == Some(k);
                assert(found[i] == init[i]);
            }
            if stems(found).contains(k) {
                let i = choose|i: int|
                    0 <= i < found.len() && found[i] is File && stem_of(
                        (#[trigger] found[i])->File_0@,
                    ) == Some(k);
                if i < last {
                    assert(init[i] == found[i]);
                    assert(stems(init).contains(k));
                }
            }
            if found[last] is File && stem_of(found[last]->File_0@) == Some(k) {
                assert(stems(found).contains(k));
            }
        }
        assert(indexed(found).dom() =~= stems(found));
    }
}

/// A file that no later file shares its stem with is indexed under that
/// stem.
pub proof fn lemma_indexed_at(found: Seq<Found>, i: int, stem: Seq<char>)
    requires
        0 <= i < found.len(),
        found[i] is File,
        stem_of(found[i]->File_0@) == Some(stem),
        forall|j: int|
            i < j < found.len() && found[j] is File ==> stem_of((#[trigger] found[j])->File_0@)
                != Some(stem),
    ensures
        indexed(found).contains_key(stem),
        indexed(found)[stem] == found[i]->File_0@,
    decreases found.len(),
{
    let init = found.drop_last();
    if i < found.len() - 1 {
        assert(init[i] == found[i]);
        assert forall|j: int| i < j < init.len() && init[j] is File implies stem_of(
            (#[trigger] init[j])->File_0@,
        ) != Some(stem) by {
            assert(init[j] == found[j]);
        }
        lemma_indexed_at(init, i, stem);
        assert(found.last() == found[found.len() - 1]);
    }
}

/// `s` can be the stem of a note: it is not empty and holds no separator.
pub open spec fn is_stem(s: Seq<char>) -> bool {
    s.len() > 0 && forall|j: int| 0 <= j < s.len() ==> s[j] != '/'
}

/// `e` is an extension that a file name ends with in one way only: it is not
/// empty and holds neither a separator nor a dot.
pub open spec fn is_extension(e: Seq<char>) -> bool {
    e.len() > 0 && forall|j: int| 0 <= j < e.len() ==> e[j] != '/' && e[j] != '.'
}

/// The path of the file `<stem>.<ext>` in the directory `dir`.
pub open spec fn note_file(dir: Seq<char>, stem: Seq<char>, ext: Seq<char>) -> Seq<char> {
    dir + seq!['/'] + stem + seq!['.'] + ext
}

/// `t` is the path of a file with the extension `ext` directly in `dir`.
pub open spec fn in_directory(t: Seq<char>, dir: Seq<char>, ext: Seq<char>) -> bool {
    exists|s: Seq<char>| is_stem(s) && t == #[trigger] note_file(dir, s, ext)
}

/// All regular files among `found` are files with the extension `ext`
/// directly in `dir`, as a search of that directory finds them.
pub open spec fn found_in_directory(found: Seq<Found>, dir: Seq<char>, ext: Seq<char>) -> bool {
    forall|i: int|
        0 <= i < found.len() && found[i] is File ==> in_directory(
            (#[trigger] found[i])->File_0@,
            dir,
            ext,
        )
}

/// No two paths of `texts` have the same stem.
pub open spec fn distinct_stems(texts: Set<Seq<char>>) -> bool {
    forall|t1: Seq<char>, t2: Seq<char>|
        #![trigger texts.contains(t1), texts.contains(t2)]
        texts.contains(t1) && texts.contains(t2) && stem_of(t1) == stem_of(t2) ==> t1 == t2
}

/// Each key of the index has the path of a file with that stem.
pub proof fn lemma_indexed_value(found: Seq<Found>, k: Seq<char>)
    requires
        indexed(found).contains_key(k),
    ensures
        exists|i: int|
            0 <= i < found.len() && (#[trigger] found[i]) is File && stem_of(found[i]->File_0@)
                == Some(k) && indexed(found)[k] == found[i]->File_0@,
    decreases found.len(),
{
    if found.len() > 0 {
        let init = found.drop_last();
        let last = found.len() - 1;
        assert(found.last() == found[last]);
        if found[last] is File && stem_of(found[last]->File_0@) == Some(k) {
            assert(indexed(found)[k] == found[last]->File_0@);
        } else {
            assert(indexed(init).contains_key(k));
            lemma_indexed_value(init, k);
            let i = choose|i: int|
                0 <= i < init.len() && (#[trigger] init[i]) is File && stem_of(init[i]->File_0@)
                    == Some(k) && indexed(init)[k] == init[i]->File_0@;
            assert(found[i] == init[i]);
            assert(indexed(found)[k] == indexed(init)[k]);
        }
    }
}

/// The files that a search of one directory finds for one extension have
/// stems that are all different.
pub proof fn lemma_directory_stems_distinct(found: Seq<Found>, dir: Seq<char>, ext: Seq<char>)
    requires
        is_extension(ext),
        found_in_directory(found, dir, ext),
    ensures
        distinct_stems(file_texts(found)),
{
    let texts = file_texts(found);
    assert forall|t1: Seq<char>, t2: Seq<char>|
        #![trigger texts.contains(t1), texts.contains(t2)]
        texts.contains(t1) && texts.contains(t2) && stem_of(t1) == stem_of(t2) implies t1
        == t2 by {
        let i = choose|i: int|
            0 <= i < found.len() && found[i] is File && (#[trigger] found[i])->File_0@ == t1;
        let j = choose|j: int|
            0 <= j < found.len() && found[j] is File && (#[trigger] found[j])->File_0@ == t2;
        let s1 = choose|s: Seq<char>| is_stem(s) && t1 == #[trigger] note_file(dir, s, ext);
        let s2 = choose|s: Seq<char>| is_stem(s) && t2 == #[trigger] note_file(dir, s, ext);
        lemma_stem_of_note_file(dir, s1, ext);
        lemma_stem_of_note_file(dir, s2, ext);
    }
}

/// The file `<stem>.<ext>` in the directory `dir`, found by a search of that
/// directory, is the note `stem` of the index.
pub proof fn lemma_note_file_indexed(
    found: Seq<Found>,
    i: int,
    dir: Seq<char>,
    stem: Seq<char>,
    ext: Seq<char>,
)
    requires
        is_stem(stem),
        is_extension(ext),
        found_in_directory(found, dir, ext),
        0 <= i < found.len(),
        found[i] is File,
        found[i]->File_0@ == note_file(dir, stem, ext),
    ensures
        indexed(found).contains_key(stem),
        indexed(found)[stem] == found[i]->File_0@,
{
    lemma_stem_of_note_file(dir, stem, ext);
    lemma_indexed_keys(found);
    assert(stems(found).contains(stem));
    lemma_indexed_value(found, stem);
    let j = choose|j: int|
        0 <= j < found.len() && (#[trigger] found[j]) is File && stem_of(found[j]->File_0@) == Some(
            stem,
        ) && indexed(found)[stem] == found[j]->File_0@;
    let s = choose|s: Seq<char>| is_stem(s) && found[j]->File_0@ == #[trigger] note_file(dir, s, ext);
    lemma_stem_of_note_file(dir, s, ext);
}

/// The index does not depend on the order in which the files were found:
/// two searches that find files with the same paths, no two of them with the
/// same stem, give the same index.
pub proof fn lemma_index_stable(a: Seq<Found>, b: Seq<Found>)
    requires
        file_texts(a) == file_texts(b),
        distinct_stems(file_texts(a)),
    ensures
        indexed(a) == indexed(b),
{
    lemma_indexed_keys(a);
    lemma_indexed_keys(b);
    assert forall|k: Seq<char>| stems(a).contains(k) == stems(b).contains(k) by {
        lemma_stems_member(a, b, k);
        lemma_stems_member(b, a, k);
    }
    assert(stems(a) =~= stems(b));
    assert forall|k: Seq<char>| indexed(a).contains_key(k) implies indexed(a)[k] == indexed(
        b,
    )[k] by {
        lemma_indexed_value(a, k);
        lemma_indexed_value(b, k);
        let i = choose|i: int|
            0 <= i < a.len() && (#[trigger] a[i]) is File && stem_of(a[i]->File_0@) == Some(k)
                && indexed(a)[k] == a[i]->File_0@;
        let j = choose|j: int|
            0 <= j < b.len() && (#[trigger] b[j]) is File && stem_of(b[j]->File_0@) == Some(k)
                && indexed(b)[k] == b[j]->File_0@;
        assert(file_texts(a).contains(a[i]->File_0@));
        assert(file_texts(b).contains(b[j]->File_0@));
        assert(file_texts(a).contains(b[j]->File_0@));
    }
    assert(indexed(a) =~= indexed(b));
}

/// The texts of the paths of the files among `found`.
pub open spec fn file_texts(found: Seq<Found>) -> Set<Seq<char>> {
    Set::new(
        |t: Seq<char>|
            exists|i: int|
                0 <= i < found.len() && found[i] is File && (#[trigger] found[i])->File_0@ == t,
    )
}

/// What `ls` lists does not depend on the order in which the files were
/// found: two ascending lists of the names, made from files with the same
/// paths in any order, are equal, and hold the stems of the files.
pub proof fn lemma_listing_stable(
    a: Seq<Found>,
    b: Seq<Found>,
    la: Seq<Seq<char>>,
    lb: Seq<Seq<char>>,
)
    requires
        file_texts(a) == file_texts(b),
        ascending(la),
        la.to_set() == indexed(a).dom(),
        ascending(lb),
        lb.to_set() == indexed(b).dom(),
    ensures
        la == lb,
        la.to_set() == stems(a),
{
    lemma_indexed_keys(a);
    lemma_indexed_keys(b);
    assert forall|k: Seq<char>| stems(a).contains(k) == stems(b).contains(k) by {
        lemma_stems_member(a, b, k);
        lemma_stems_member(b, a, k);
    }
    assert(stems(a) =~= stems(b));
    lemma_ascending_unique(la, lb);
}

proof fn lemma_stems_member(a: Seq<Found>, b: Seq<Found>, k: Seq<char>)
    requires
        file_texts(a) == file_texts(b),
    ensures
        stems(a).contains(k) ==> stems(b).contains(k),
{
    if stems(a).contains(k) {
        let i = choose|i: int|
            0 <= i < a.len() && a[i] is File && stem_of((#[trigger] a[i])->File_0@) == Some(k);
        let t = a[i]->File_0@;
        assert(file_texts(a).contains(t));
        assert(file_texts(b).contains(t));
        let j = choose|j: int| 0 <= j < b.len() && b[j] is File && (#[trigger] b[j])->File_0@ == t;
        assert(b[j] is File && stem_of(b[j]->File_0@) == Some(k));
    }
}

/// Filtering leaves no text twice where none was there twice.
pub proof fn lemma_filter_distinct(s: Seq<Seq<char>>, pred: spec_fn(Seq<char>) -> bool)
    requires
        s.no_duplicates(),
    ensures
        s.filter(pred).no_duplicates(),
    decreases s.len(),
{
    if s.len() == 0 {
        s.lemma_filter_len(pred);
    } else {
        let init = s.drop_last();
        let last = s.last();
        assert(init.no_duplicates()) by {
            assert forall|i: int, j: int|
                0 <= i < init.len() && 0 <= j < init.len() && i != j implies init[i] != init[j] by {
                assert(init[i] == s[i] && init[j] == s[j]);
            }
        }
        lemma_filter_distinct(init, pred);
        init.lemma_filter_push(last, pred);
        assert(init.push(last) =~= s);
        let kept = init.filter(pred);
        if pred(last) {
            if kept.contains(last) {
                init.lemma_filter_contains_rev(pred, last);
                let i = choose|i: int| 0 <= i < init.len() && init[i] == last;
                assert(s[i] == s[s.len() - 1]);
            }
            assert forall|i: int, j: int|
                0 <= i < kept.push(last).len() && 0 <= j < kept.push(last).len() && i
                    != j implies kept.push(last)[i] != kept.push(last)[j] by {
                if i < kept.len() {
                    assert(kept.contains(kept[i]));
                }
                if j < kept.len() {
                    assert(kept.contains(kept[j]));
                }
            }
        }
    }
}

impl View for NoteIndex {
    type V = Map<Seq<char>, Seq<char>>;

    /// The index as a map from names to paths.
    open spec fn view(&self) -> Map<Seq<char>, Seq<char>> {
        pairing(self.names(), self.paths())
    }
}

impl NoteIndex {
    /// The names, in the order in which the index hands its notes out.
    pub closed spec fn names(&self) -> Seq<Seq<char>> {
        names_of(self.entries@)
    }

    /// The paths, each at the place of its name.
    pub closed spec fn paths(&self) -> Seq<Seq<char>> {
        paths_of(self.entries@)
    }

    /// No name occurs twice. This holds of every index.
    #[verifier::type_invariant]
    pub open spec fn wf(&self) -> bool {
        self.names().no_duplicates()
    }

    /// The names are the keys of the index.
    pub proof fn lemma_names_are_keys(&self)
        ensures
            self.names().to_set() == self@.dom(),
    {
        assert(self.names().to_set() =~= self@.dom());
    }

    /// The names that hold `sub` are exactly the keys that hold it.
    pub proof fn lemma_names_holding(&self, sub: Seq<char>)
        ensures
            self.names().filter(holding(sub)).to_set() == self@.dom().filter(holding(sub)),
    {
        lemma_holding_exact(self.names(), sub);
        assert(self.names().filter(holding(sub)).to_set() =~= self@.dom().filter(holding(sub)));
    }

    /// The empty text is held by every name.
    pub proof fn lemma_names_holding_empty(&self)
        ensures
            self.names().filter(holding(Seq::<char>::empty())) == self.names(),
    {
        lemma_holding_empty_keeps_all(self.names());
    }

    /// An index without notes.
    pub fn new() -> (r: NoteIndex)
        ensures
            r.wf(),
            r@ == Map::<Seq<char>, Seq<char>>::empty(),
            r.names() == Seq::<Seq<char>>::empty(),
    {
        let r = NoteIndex { entries: Vec::new() };
        assert(r.names() =~= Seq::<Seq<char>>::empty());
        assert(r@ =~= Map::<Seq<char>, Seq<char>>::empty());
        r
    }

    /// The number of notes.
    pub fn len(&self) -> (n: usize)
        ensures
            n == self.names().len(),
    {
        self.entries.len()
    }

    /// The notes, in the order of `names`.
    pub fn notes(&self) -> (r: &Vec<Note>)
        ensures
            self.wf(),
            r@.len() == self.names().len(),
            r@.len() == self.paths().len(),
            forall|i: int|
                0 <= i < r@.len() ==> (#[trigger] r@[i]).name@ == self.names()[i] && r@[i].path@
                    == self.paths()[i],
    {
        proof {
            use_type_invariant(self);
        }
        &self.entries
    }

    /// Where `name` stands among the names, if it does.
    fn position(&self, name: &String) -> (r: Option<usize>)
        ensures
            match r {
                Some(i) => i < self.names().len() && self.names()[i as int] == name@,
                None => !self.names().contains(name@),
            },
    {
        let mut i: usize = 0;
        while i < self.entries.len()
            invariant
                i <= self.entries@.len(),
                forall|j: int| 0 <= j < i ==> self.names()[j] != name@,
            decreases self.entries@.len() - i,
        {
            if self.entries[i].name == *name {
                return Some(i);
            }
            i += 1;
        }
        None
    }

    /// Puts the note `name` with the path `path` into the index. A note of
    /// that name that is there already keeps its place and gets the new path.
    pub fn insert(&mut self, name: String, path: String)
        ensures
            final(self).wf(),
            final(self)@ == old(self)@.insert(name@, path@),
            final(self).names() == if old(self).names().contains(name@) {
                old(self).names()
            } else {
                old(self).names().push(name@)
            },
    {
        proof {
            use_type_invariant(&*self);
        }
        let ghost names = self.names();
        let ghost paths = self.paths();
        let at = self.position(&name);
        let mut entries: Vec<Note> = Vec::new();
        std::mem::swap(&mut self.entries, &mut entries);
        match at {
            Some(i) => {
                proof {
                    lemma_pairing_update(names, paths, i as int, path@);
                    assert(names.contains(name@));
                }
                entries.set(i, Note { name, path });
                assert(names_of(entries@) =~= names);
                assert(paths_of(entries@) =~= paths.update(i as int, path@));
            },
            None => {
                proof {
                    lemma_pairing_push(names, paths, name@, path@);
                }
                entries.push(Note { name, path });
                assert(names_of(entries@) =~= names.push(name@));
                assert(paths_of(entries@) =~= paths.push(path@));
            },
        }
        self.entries = entries;
    }

    /// The path of the note `name`, if the index holds that note.
    pub fn get(&self, name: &str) -> (r: Option<&String>)
        ensures
            match r {
                Some(path) => self@.contains_key(name@) && path@ == self@[name@],
                None => !self@.contains_key(name@),
            },
    {
        proof {
            use_type_invariant(self);
        }
        let key = name.to_owned();
        match self.position(&key) {
            Some(i) => {
                proof {
                    lemma_pairing_at(self.names(), self.paths(), i as int);
                }
                Some(&self.entries[i].path)
            },
            None => None,
        }
    }

    /// The names of all notes in ascending order.
    pub fn sorted_names(&self) -> (out: Vec<String>)
        ensures
            ascending(out.deep_view()),
            out.deep_view().to_set() == self@.dom(),
    {
        let mut keys: Vec<Vec<char>> = Vec::new();
        let mut i: usize = 0;
        while i < self.entries.len()
            invariant
                i <= self.entries@.len(),
                keys@.len() == i,
                forall|j: int| 0 <= j < i ==> (#[trigger] keys@[j])@ == self.names()[j],
            decreases self.entries@.len() - i,
        {
            keys.push(chars_of(self.entries[i].name.as_str()));
            i += 1;
        }
        assert(views(keys@) =~= self.names());
        let sorted = sort(keys);
        let mut out: Vec<String> = Vec::new();
        let mut k: usize = 0;
        while k < sorted.len()
            invariant
                k <= sorted@.len(),
                out@.len() == k,
                forall|j: int| 0 <= j < k ==> (#[trigger] out@[j])@ == sorted@[j]@,
            decreases sorted@.len() - k,
        {
            let key = &sorted[k];
            assert(key@.subrange(0, key@.len() as int) =~= key@);
            out.push(string_of(key, 0, key.len()));
            k += 1;
        }
        assert(out.deep_view() =~= views(sorted@));
        proof {
            self.lemma_names_are_keys();
        }
        out
    }

    /// The names that hold `sub`, in the order of `names`, each once.
    pub fn names_containing(&self, sub: &str) -> (out: Vec<String>)
        ensures
            self.wf(),
            out.deep_view() == self.names().filter(holding(sub@)),
            out.deep_view().no_duplicates(),
    {
        proof {
            use_type_invariant(self);
            lemma_filter_distinct(self.names(), holding(sub@));
        }
        let pat = chars_of(sub);
        let mut out: Vec<String> = Vec::new();
        let mut i: usize = 0;
        assert(self.names().take(0) =~= Seq::<Seq<char>>::empty());
        assert(out.deep_view() =~= self.names().take(0).filter(holding(sub@))) by {
            self.names().take(0).lemma_filter_len(holding(sub@));
        }
        while i < self.entries.len()
            invariant
                i <= self.entries@.len(),
                pat@ == sub@,
                out.deep_view() == self.names().take(i as int).filter(holding(sub@)),
            decreases self.entries@.len() - i,
        {
            let ghost shown = out.deep_view();
            let name = chars_of(self.entries[i].name.as_str());
            assert(name@.subrange(0, name@.len() as int) =~= name@);
            proof {
                assert(self.names().take(i + 1) =~= self.names().take(i as int).push(name@));
                self.names().take(i as int).lemma_filter_push(name@, holding(sub@));
            }
            if occurs_between(&name, 0, name.len(), &pat) {
                out.push(self.entries[i].name.clone());
                assert(out.deep_view() =~= shown.push(name@));
            }
            i += 1;
        }
        assert(self.names().take(i as int) =~= self.names());
        out
    }
}

/// Whether `c` has a meaning of its own in a search pattern.
pub open spec fn is_meta(c: char) -> bool {
    c == '?' || c == '*' || c == '[' || c == ']'
}

/// `c` as a pattern that matches `c` alone: between brackets if it has a
/// meaning of its own, else as it is.
pub open spec fn escaped_char(c: char) -> Seq<char> {
    if is_meta(c) {
        seq!['[', c, ']']
    } else {
        seq![c]
    }
}

/// `s` as a pattern that matches `s` alone: each character escaped.
pub open spec fn escaped(s: Seq<char>) -> Seq<char>
    decreases s.len(),
{
    if s.len() == 0 {
        Seq::empty()
    } else {
        escaped(s.drop_last()) + escaped_char(s.last())
    }
}

/// The pattern that the files of the notes match: any name in the directory
/// `dir`, with the extension `ext`, both taken as patterns.
pub open spec fn pattern_of(dir: Seq<char>, ext: Seq<char>) -> Seq<char> {
    replace_extension(joined(dir, seq!['*']), ext)
}

/// A text without a character that has a meaning in a pattern is its own
/// escaped form.
pub proof fn lemma_escaped_plain(s: Seq<char>)
    requires
        forall|j: int| 0 <= j < s.len() ==> !is_meta(#[trigger] s[j]),
    ensures
        escaped(s) == s,
    decreases s.len(),
{
    if s.len() > 0 {
        let init = s.drop_last();
        assert forall|j: int| 0 <= j < init.len() implies !is_meta(#[trigger] init[j]) by {
            assert(init[j] == s[j]);
        }
        lemma_escaped_plain(init);
        assert(init + seq![s.last()] =~= s);
    }
}

/// For a directory that is not empty and does not end with a separator, the
/// pattern to search with is the escaped directory, a separator, a star and
/// the dot and escaped extension: it names the files of that extension in
/// the directory itself, whatever characters the directory's name holds.
pub proof fn lemma_pattern_plain(dir: Seq<char>, ext: Seq<char>)
    requires
        dir.len() > 0,
        dir.last() != '/',
    ensures
        pattern_of(escaped(dir), escaped(ext)) == escaped(dir) + seq!['/', '*'] + suffix(
            escaped(ext),
        ),
{
    let d = escaped(dir);
    assert(d.len() > 0 && d.last() != '/') by {
        let c = escaped_char(dir.last());
        assert(c.len() > 0 && c.last() != '/');
        assert(d.last() == c.last());
    }
    let p = d + seq!['/'] + seq!['*'];
    let n = p.len() as int;
    assert(joined(d, seq!['*']) == p);
    assert(p[n - 1] == '*' && p[n - 2] == '/');
    lemma_ranges(p, n);
    lemma_extension_added(p, escaped(ext));
    assert(p =~= d + seq!['/', '*']);
}

/// `s` as a pattern that matches `s` alone: each of `?`, `*`, `[` and `]`
/// between brackets.
pub fn escape(s: &str) -> (r: String)
    ensures
        r@ == escaped(s@),
{
    let v = chars_of(s);
    let mut r = String::new();
    let mut i: usize = 0;
    assert(v@.take(0) =~= Seq::<char>::empty());
    while i < v.len()
        invariant
            i <= v@.len(),
            r@ == escaped(v@.take(i as int)),
        decreases v@.len() - i,
    {
        let c = v[i];
        proof {
            assert(v@.take(i + 1).drop_last() =~= v@.take(i as int));
            assert(v@.take(i + 1).last() == c);
        }
        let ghost before = r@;
        if c == '?' || c == '*' || c == '[' || c == ']' {
            r.push('[');
            r.push(c);
            r.push(']');
            assert(r@ =~= before + seq!['[', c, ']']);
        } else {
            r.push(c);
            assert(r@ =~= before + seq![c]);
        }
        i += 1;
    }
    assert(v@.take(i as int) =~= v@);
    r
}

/// The pattern to search the notes directory with: the files with the
/// configured extension in the notes directory itself. The directory and the
/// extension are escaped, so that no character of theirs is read as part of
/// the pattern.
pub fn notes_pattern(cfg: &Config) -> (r: String)
    ensures
        r@ == pattern_of(escaped(cfg.notes_dir@), escaped(cfg.extension@)),
{
    proof {
        reveal_strlit("*");
    }
    let dir = escape(cfg.notes_dir.as_str());
    let ext = escape(cfg.extension.as_str());
    let any = join(dir.as_str(), "*");
    assert("*"@ =~= seq!['*']);
    with_extension(any.as_str(), ext.as_str())
}

/// A dot and `ext`, or the empty text if `ext` is empty.
fn suffix_of(ext: &str) -> (r: String)
    ensures
        r@ == suffix(ext@),
{
    let mut r = String::new();
    if !ext.is_empty() {
        r.push('.');
        r.append(ext);
        assert(r@ =~= suffix(ext@));
    }
    r
}

/// The index of the entries `found`, which the search of the notes directory
/// hands in one by one: the regular files that matched, each under its stem.
/// The first entry that cannot be read, that is a file without a stem, or
/// whose name is no text and ends as the notes do, stops the work with its
/// error. An entry that is no regular file is passed over.
pub fn build_notes(found: &Vec<Found>, cfg: &Config) -> (r: Result<NoteIndex, ScanError>)
    ensures
        match r {
            Ok(notes) => {
                &&& notes.wf()
                &&& forall|i: int|
                    0 <= i < found@.len() ==> failure(#[trigger] found@[i], cfg.extension@) is None
                &&& notes@ == indexed(found@)
                &&& notes.names() == names_in_order(found@)
            },
            Err(e) => exists|i: int|
                {
                    &&& 0 <= i < found@.len()
                    &&& failure(#[trigger] found@[i], cfg.extension@) == Some(e)
                    &&& forall|j: int|
                        0 <= j < i ==> failure(#[trigger] found@[j], cfg.extension@) is None
                },
        },
{
    let tail = suffix_of(cfg.extension.as_str());
    let mut notes = NoteIndex::new();
    let mut i: usize = 0;
    assert(found@.take(0) =~= Seq::<Found>::empty());
    while i < found.len()
        invariant
            i <= found@.len(),
            notes.wf(),
            tail@ == suffix(cfg.extension@),
            forall|j: int| 0 <= j < i ==> failure(#[trigger] found@[j], cfg.extension@) is None,
            notes@ == indexed(found@.take(i as int)),
            notes.names() == names_in_order(found@.take(i as int)),
        decreases found@.len() - i,
    {
        proof {
            assert(found@.take(i + 1).drop_last() =~= found@.take(i as int));
            assert(found@.take(i + 1).last() == found@[i as int]);
        }
        match &found[i] {
            Found::File(path) => {
                match file_stem(path.as_str()) {
                    Some(stem) => {
                        notes.insert(stem, path.clone());
                    },
                    None => {
                        assert(failure(found@[i as int], cfg.extension@) == Some(
                            ScanError::NoStem,
                        ));
                        return Err(ScanError::NoStem);
                    },
                }
            },
            Found::NotFile => {},
            Found::NotText(name) => {
                if ends_with(name.as_str(), tail.as_str()) {
                    assert(failure(found@[i as int], cfg.extension@) == Some(ScanError::NotText));
                    return Err(ScanError::NotText);
                }
            },
            Found::Unreadable => {
                assert(failure(found@[i as int], cfg.extension@) == Some(ScanError::Unreadable));
                return Err(ScanError::Unreadable);
            },
        }
        i += 1;
    }
    assert(found@.take(i as int) =~= found@);
    Ok(notes)
}

} // verus!
