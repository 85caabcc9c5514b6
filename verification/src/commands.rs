//! The commands: what each of them prints, and what it starts.

use crate::config::Config;
use crate::index::NoteIndex;
use crate::invoke::Invocation;
use crate::order::ascending;
use crate::paths::{
    join, joined, lemma_extension_added, lemma_ranges, replace_extension, with_extension,
};
use crate::status::{ok_status, success, unavailable, unavailable_status};
use crate::style::{emphasis, emphasized};
use crate::text::{
    chars_of, cut, holding, lemma_holding_exact, line_ranges, lines_of, occurs_between, occurs_in,
    ranges_within, string_of,
};
use vstd::prelude::*;
use vstd::string::StringExecFns;

verus! {

/// Lines to print before the program leaves with a status.
#[derive(Debug)]
pub struct Leave {
    pub lines: Vec<String>,
    pub status: i32,
}

/// A note that was asked for and is not in the index: the message for the
/// error stream and the status to leave with.
#[derive(Debug)]
pub struct NoteNotFound {
    pub message: String,
    pub status: i32,
}

/// What making a new note takes: the directory that has to exist, the editor
/// to start, and the lines to print once the editor has ended.
#[derive(Debug)]
pub struct NewNote {
    pub directory: String,
    pub invocation: Invocation,
    pub report: Vec<String>,
}

/// A note as it was read: its name and all of its text.
#[derive(Debug)]
pub struct NoteText {
    pub name: String,
    pub content: String,
}

/// `lines` lists `names`: an empty line, then one line for each name, which
/// is the name with or without emphasis.
pub open spec fn listing(names: Seq<Seq<char>>, lines: Seq<Seq<char>>) -> bool {
    &&& lines.len() == names.len() + 1
    &&& lines[0] == Seq::<char>::empty()
    &&& forall|i: int| 0 <= i < names.len() ==> emphasis(#[trigger] names[i], lines[i + 1])
}

/// The message for a note that is not there.
pub open spec fn not_found(name: Seq<char>) -> Seq<char> {
    name + " not found"@
}

/// The line that reports a new note.
pub open spec fn created_line(file: Seq<char>, dir: Seq<char>) -> Seq<char> {
    "Created "@ + file + " in "@ + dir
}

/// The lines of `content` that hold `pat`, in their order.
pub open spec fn matching(content: Seq<char>, pat: Seq<char>) -> Seq<Seq<char>> {
    lines_of(content).filter(holding(pat))
}

/// The line that shows one matching line of a note.
pub open spec fn match_line(label: Seq<char>, line: Seq<char>) -> Seq<char> {
    label + ": "@ + line
}

/// What is printed for a note whose matching lines are `hits`: nothing if
/// there are none, else an empty line and one line for each of them.
pub open spec fn block(label: Seq<char>, hits: Seq<Seq<char>>) -> Seq<Seq<char>> {
    if hits.len() == 0 {
        Seq::empty()
    } else {
        seq![Seq::<char>::empty()] + Seq::new(hits.len(), |i: int| match_line(label, hits[i]))
    }
}

/// The blocks of the notes with the texts `contents`, shown under `labels`,
/// one after the other.
pub open spec fn blocks(labels: Seq<Seq<char>>, contents: Seq<Seq<char>>, pat: Seq<char>) -> Seq<
    Seq<char>,
>
    decreases labels.len(),
{
    if labels.len() == 0 {
        Seq::empty()
    } else {
        blocks(labels.drop_last(), contents.drop_last(), pat) + block(
            labels.last(),
            matching(contents.last(), pat),
        )
    }
}

/// The texts of the notes `texts`, in their order.
pub open spec fn contents_of(texts: Seq<NoteText>) -> Seq<Seq<char>> {
    Seq::new(texts.len(), |i: int| texts[i].content@)
}

/// The lines that show a configuration, each field after its title.
pub open spec fn config_report(
    conf: Seq<char>,
    dir: Seq<char>,
    editor: Seq<char>,
    viewer: Seq<char>,
    extension: Seq<char>,
) -> Seq<Seq<char>> {
    seq![
        Seq::<char>::empty(),
        "Configuration file: \t"@ + conf,
        "Notes directory: \t"@ + dir,
        "Editor: \t\t"@ + editor,
        "Viewer: \t\t"@ + viewer,
        "Notes extension: \t"@ + extension,
    ]
}

/// A new note whose name holds no dot is edited under that name with the
/// extension added, in the notes directory: where the name is not empty and
/// neither starts nor ends with a separator, the extension is not empty, and
/// the directory is not empty and does not end with a separator, the last
/// argument of the editor is `<directory>/<name>.<extension>`.
pub proof fn lemma_new_note_target(run: Invocation, name: Seq<char>, cfg: Config)
    requires
        run.runs(
            cfg.editor@,
            cfg.notes_dir@,
            joined(cfg.notes_dir@, replace_extension(name, cfg.extension@)),
        ),
        forall|j: int| 0 <= j < name.len() ==> name[j] != '.',
        name.len() > 0,
        name[0] != '/',
        name.last() != '/',
        cfg.extension@.len() > 0,
        cfg.notes_dir@.len() > 0,
        cfg.notes_dir@.last() != '/',
    ensures
        run.target() == cfg.notes_dir@ + seq!['/'] + name + seq!['.'] + cfg.extension@,
{
    lemma_ranges(name, name.len() as int);
    lemma_extension_added(name, cfg.extension@);
    let file = name + seq!['.'] + cfg.extension@;
    assert(replace_extension(name, cfg.extension@) =~= file);
    assert(file[0] == name[0]);
    assert(run.args.deep_view().last() == joined(cfg.notes_dir@, file));
    assert(run.target() =~= cfg.notes_dir@ + seq!['/'] + name + seq!['.'] + cfg.extension@);
}

/// The matching lines of a text are exactly its lines that hold the text
/// searched for, and a text without such a line has an empty block.
pub proof fn lemma_matching_exact(label: Seq<char>, content: Seq<char>, pat: Seq<char>)
    ensures
        forall|l: Seq<char>| #[trigger]
            matching(content, pat).contains(l) <==> lines_of(content).contains(l) && occurs_in(
                l,
                pat,
            ),
        block(label, matching(content, pat)).len() == 0 <==> forall|l: Seq<char>|
            lines_of(content).contains(l) ==> !occurs_in(l, pat),
{
    lemma_holding_exact(lines_of(content), pat);
    let hits = matching(content, pat);
    if hits.len() > 0 {
        assert(hits.contains(hits[0]));
    } else {
        assert forall|l: Seq<char>| lines_of(content).contains(l) implies !occurs_in(l, pat) by {
            if occurs_in(l, pat) {
                assert(hits.contains(l));
            }
        }
    }
}

/// `title` and then `shown`.
pub fn titled(title: &str, shown: &str) -> (r: String)
    ensures
        r@ == title@ + shown@,
{
    let mut r = title.to_owned();
    r.append(shown);
    r
}

/// An empty line, then each of `names` on a line of its own, with emphasis
/// where the terminal takes it.
pub fn name_lines(names: &Vec<String>) -> (out: Vec<String>)
    ensures
        listing(names.deep_view(), out.deep_view()),
{
    let mut out: Vec<String> = Vec::new();
    out.push(String::new());
    let mut i: usize = 0;
    while i < names.len()
        invariant
            i <= names@.len(),
            out@.len() == i + 1,
            out@[0]@ == Seq::<char>::empty(),
            forall|j: int| 0 <= j < i ==> emphasis((#[trigger] names@[j])@, out@[j + 1]@),
        decreases names@.len() - i,
    {
        out.push(emphasized(names[i].as_str()));
        i += 1;
    }
    out
}

/// Lists the notes: the names of all notes in ascending order, one on each
/// line after an empty line. The program then leaves with success.
pub fn do_ls(notes: &NoteIndex) -> (r: Leave)
    ensures
        r.status == success(),
        exists|names: Seq<Seq<char>>|
            ascending(names) && names.to_set() == notes@.dom() && listing(
                names,
                r.lines.deep_view(),
            ),
{
    let names = notes.sorted_names();
    let lines = name_lines(&names);
    assert(ascending(names.deep_view()) && names.deep_view().to_set() == notes@.dom() && listing(
        names.deep_view(),
        lines.deep_view(),
    ));
    Leave { lines, status: ok_status() }
}

/// Finds notes by name: the names that hold `note_arg`, in the order of the
/// index, each once, one on each line after an empty line.
pub fn do_find(note_arg: &str, notes: &NoteIndex) -> (lines: Vec<String>)
    ensures
        notes.wf(),
        notes.names().filter(holding(note_arg@)).no_duplicates(),
        listing(notes.names().filter(holding(note_arg@)), lines.deep_view()),
{
    let names = notes.names_containing(note_arg);
    name_lines(&names)
}

/// Looks the note `note_name` up and, if it is there, prepares the start of
/// the command line `cmd` on its file, in the notes directory.
pub fn do_cmd(note_name: &str, notes: &NoteIndex, cfg: &Config, cmd: &str) -> (r: Result<
    Invocation,
    NoteNotFound,
>)
    ensures
        match r {
            Ok(run) => notes@.contains_key(note_name@) && run.runs(
                cmd@,
                cfg.notes_dir@,
                notes@[note_name@],
            ),
            Err(e) => !notes@.contains_key(note_name@) && e.message@ == not_found(note_name@)
                && e.status == unavailable(),
        },
{
    match notes.get(note_name) {
        Some(path) => Ok(Invocation::new(cmd, cfg.notes_dir.as_str(), path.as_str())),
        None => Err(
            NoteNotFound { message: titled(note_name, " not found"), status: unavailable_status() },
        ),
    }
}

/// Shows the note `note_name`: the viewer on its file.
pub fn do_cat(note_name: &str, notes: &NoteIndex, cfg: &Config) -> (r: Result<
    Invocation,
    NoteNotFound,
>)
    ensures
        match r {
            Ok(run) => notes@.contains_key(note_name@) && run.runs(
                cfg.viewer@,
                cfg.notes_dir@,
                notes@[note_name@],
            ),
            Err(e) => !notes@.contains_key(note_name@) && e.message@ == not_found(note_name@)
                && e.status == unavailable(),
        },
{
    do_cmd(note_name, notes, cfg, cfg.viewer.as_str())
}

/// Opens the note `note_name`: the editor on its file.
pub fn do_open(note_name: &str, notes: &NoteIndex, cfg: &Config) -> (r: Result<
    Invocation,
    NoteNotFound,
>)
    ensures
        match r {
            Ok(run) => notes@.contains_key(note_name@) && run.runs(
                cfg.editor@,
                cfg.notes_dir@,
                notes@[note_name@],
            ),
            Err(e) => !notes@.contains_key(note_name@) && e.message@ == not_found(note_name@)
                && e.status == unavailable(),
        },
{
    do_cmd(note_name, notes, cfg, cfg.editor.as_str())
}

/// The line that reports the new note `file_shown` in `dir_shown`.
pub fn created(file_shown: &str, dir_shown: &str) -> (r: String)
    ensures
        r@ == created_line(file_shown@, dir_shown@),
{
    let mut r = titled("Created ", file_shown);
    r.append(" in ");
    r.append(dir_shown);
    r
}

/// Makes a new note: the notes directory has to exist, the editor starts in
/// it on the path of the note's file, which is, seen from the notes
/// directory, `note_name` with the configured extension in place of its own,
/// and the report names the file and the directory. The index is not asked:
/// a note that exists is opened again.
pub fn do_new(note_name: &str, cfg: &Config) -> (r: NewNote)
    ensures
        r.directory@ == cfg.notes_dir@,
        r.invocation.runs(
            cfg.editor@,
            cfg.notes_dir@,
            joined(cfg.notes_dir@, replace_extension(note_name@, cfg.extension@)),
        ),
        exists|file: Seq<char>, dir: Seq<char>|
            emphasis(replace_extension(note_name@, cfg.extension@), file) && emphasis(
                cfg.notes_dir@,
                dir,
            ) && r.report.deep_view() == seq![Seq::<char>::empty(), created_line(file, dir)],
{
    let note_file = with_extension(note_name, cfg.extension.as_str());
    let target = join(cfg.notes_dir.as_str(), note_file.as_str());
    let invocation = Invocation::new(
        cfg.editor.as_str(),
        cfg.notes_dir.as_str(),
        target.as_str(),
    );
    let file = emphasized(note_file.as_str());
    let dir = emphasized(cfg.notes_dir.as_str());
    let mut report: Vec<String> = Vec::new();
    report.push(String::new());
    report.push(created(file.as_str(), dir.as_str()));
    assert(report.deep_view() =~= seq![Seq::<char>::empty(), created_line(file@, dir@)]);
    NewNote { directory: cfg.notes_dir.clone(), invocation, report }
}

/// What is printed for one note with the text `content`, shown under
/// `label`: for each line that holds `pat` the label, a colon, a space and
/// the line, after one empty line; nothing if no line holds `pat`.
pub fn grep_block(label: &str, content: &str, pat: &str) -> (out: Vec<String>)
    ensures
        out.deep_view() == block(label@, matching(content@, pat@)),
{
    let s = chars_of(content);
    let p = chars_of(pat);
    let r = line_ranges(&s);
    let ghost all = cut(s@, r@);
    let mut out: Vec<String> = Vec::new();
    let ghost mut hits: Seq<Seq<char>> = Seq::empty();
    let mut k: usize = 0;
    proof {
        assert(all.take(0) =~= Seq::<Seq<char>>::empty());
        all.take(0).lemma_filter_len(holding(pat@));
        assert(out.deep_view() =~= block(label@, hits));
    }
    while k < r.len()
        invariant
            k <= r@.len(),
            ranges_within(r@, s@.len()),
            all == cut(s@, r@),
            p@ == pat@,
            hits == all.take(k as int).filter(holding(pat@)),
            out.deep_view() == block(label@, hits),
        decreases r@.len() - k,
    {
        let (a, b) = r[k];
        let ghost line = s@.subrange(a as int, b as int);
        proof {
            assert(all[k as int] == line);
            assert(all.take(k + 1) =~= all.take(k as int).push(line));
            all.take(k as int).lemma_filter_push(line, holding(pat@));
        }
        if occurs_between(&s, a, b, &p) {
            let ghost shown = out.deep_view();
            proof {
                let rows = Seq::new(hits.len(), |i: int| match_line(label@, hits[i]));
                assert(rows.len() == hits.len());
                if hits.len() > 0 {
                    assert(shown.len() == 1 + rows.len());
                } else {
                    assert(shown.len() == 0);
                }
            }
            if out.len() == 0 {
                out.push(String::new());
            }
            let mut text = titled(label, ": ");
            text.append(string_of(&s, a, b).as_str());
            out.push(text);
            proof {
                let old_hits = hits;
                hits = hits.push(line);
                let now = out.deep_view();
                let old_block = block(label@, old_hits);
                let new_block = block(label@, hits);
                assert(new_block.len() == hits.len() + 1);
                assert(now.len() == hits.len() + 1);
                assert(text@ == match_line(label@, line));
                assert forall|i: int| 0 <= i < now.len() implies now[i] == new_block[i] by {
                    if i == 0 {
                        if shown.len() > 0 {
                            assert(now[0] == shown[0]);
                            assert(old_block[0] == Seq::<char>::empty());
                        }
                    } else if i < hits.len() {
                        assert(now[i] == shown[i]);
                        assert(old_block[i] == match_line(label@, old_hits[i - 1]));
                        assert(new_block[i] == match_line(label@, hits[i - 1]));
                    } else {
                        assert(new_block[i] == match_line(label@, hits[i - 1]));
                    }
                }
                assert(now =~= new_block);
            }
        }
        k += 1;
    }
    assert(all.take(k as int) =~= all);
    out
}

/// Searches the notes `texts` for `note_arg`: the blocks of the notes in
/// their order, each note under its name, with emphasis where the terminal
/// takes it. A note without a matching line adds nothing.
pub fn do_grep(note_arg: &str, texts: &Vec<NoteText>) -> (lines: Vec<String>)
    ensures
        exists|labels: Seq<Seq<char>>|
            {
                &&& labels.len() == texts@.len()
                &&& forall|i: int|
                    0 <= i < labels.len() ==> emphasis(texts@[i].name@, #[trigger] labels[i])
                &&& lines.deep_view() == blocks(labels, contents_of(texts@), note_arg@)
            },
{
    let mut lines: Vec<String> = Vec::new();
    let ghost mut labels: Seq<Seq<char>> = Seq::empty();
    let ghost contents = contents_of(texts@);
    let mut i: usize = 0;
    proof {
        assert(contents.take(0) =~= Seq::<Seq<char>>::empty());
        assert(lines.deep_view() =~= blocks(labels, contents.take(0), note_arg@));
    }
    while i < texts.len()
        invariant
            i <= texts@.len(),
            contents == contents_of(texts@),
            labels.len() == i,
            forall|j: int| 0 <= j < i ==> emphasis(texts@[j].name@, #[trigger] labels[j]),
            lines.deep_view() == blocks(labels, contents.take(i as int), note_arg@),
        decreases texts@.len() - i,
    {
        let label = emphasized(texts[i].name.as_str());
        let mut found = grep_block(label.as_str(), texts[i].content.as_str(), note_arg);
        let ghost before = lines.deep_view();
        let ghost added = found.deep_view();
        lines.append(&mut found);
        proof {
            assert(lines.deep_view() =~= before + added);
            let old_labels = labels;
            labels = labels.push(label@);
            assert(labels.drop_last() =~= old_labels);
            assert(contents.take(i + 1).drop_last() =~= contents.take(i as int));
            assert(contents.take(i + 1).last() == texts@[i as int].content@);
        }
        i += 1;
    }
    assert(contents.take(i as int) =~= contents);
    lines
}

/// The lines that show a configuration whose fields are shown as given.
pub fn config_lines(conf: &str, dir: &str, editor: &str, viewer: &str, extension: &str) -> (out:
    Vec<String>)
    ensures
        out.deep_view() == config_report(conf@, dir@, editor@, viewer@, extension@),
{
    let mut out: Vec<String> = Vec::new();
    out.push(String::new());
    out.push(titled("Configuration file: \t", conf));
    out.push(titled("Notes directory: \t", dir));
    out.push(titled("Editor: \t\t", editor));
    out.push(titled("Viewer: \t\t", viewer));
    out.push(titled("Notes extension: \t", extension));
    assert(out.deep_view() =~= config_report(conf@, dir@, editor@, viewer@, extension@));
    out
}

/// Shows the configuration: its fields, each after its title and with
/// emphasis where the terminal takes it. The program then leaves with
/// success.
pub fn do_print_config(cfg: &Config) -> (r: Leave)
    ensures
        r.status == success(),
        exists|
            conf: Seq<char>,
            dir: Seq<char>,
            editor: Seq<char>,
            viewer: Seq<char>,
            extension: Seq<char>,
        |
            {
                &&& emphasis(cfg.conf@, conf)
                &&& emphasis(cfg.notes_dir@, dir)
                &&& emphasis(cfg.editor@, editor)
                &&& emphasis(cfg.viewer@, viewer)
                &&& emphasis(cfg.extension@, extension)
                &&& r.lines.deep_view() == config_report(conf, dir, editor, viewer, extension)
            },
{
    let conf = emphasized(cfg.conf.as_str());
    let dir = emphasized(cfg.notes_dir.as_str());
    let editor = emphasized(cfg.editor.as_str());
    let viewer = emphasized(cfg.viewer.as_str());
    let extension = emphasized(cfg.extension.as_str());
    let lines = config_lines(
        conf.as_str(),
        dir.as_str(),
        editor.as_str(),
        viewer.as_str(),
        extension.as_str(),
    );
    assert(lines.deep_view() == config_report(conf@, dir@, editor@, viewer@, extension@));
    Leave { lines, status: ok_status() }
}

} // verus!
