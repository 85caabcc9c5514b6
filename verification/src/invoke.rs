//! What it takes to start the editor or the viewer on a note.

use crate::text::{fields, lemma_fields_nonempty, lemma_fields_single, split};
use vstd::prelude::*;

verus! {

/// A program to start: its name, its arguments and the directory to start
/// it in.
#[derive(Debug)]
pub struct Invocation {
    pub program: String,
    pub args: Vec<String>,
    pub dir: String,
}

/// A command line without a space is the program itself, and the note is
/// its only argument.
pub proof fn lemma_plain_command(
    run: Invocation,
    command: Seq<char>,
    dir: Seq<char>,
    extra: Seq<char>,
)
    requires
        run.runs(command, dir, extra),
        forall|j: int| 0 <= j < command.len() ==> command[j] != ' ',
    ensures
        run.program@ == command,
        run.args.deep_view() == seq![extra],
{
    lemma_fields_single(command, ' ');
    assert(seq![command].skip(1).push(extra) =~= seq![extra]);
}

impl Invocation {
    /// This invocation runs the command line `command` in `dir` on `extra`:
    /// the command line is cut at each single space, with no quoting; its
    /// first piece is the program, the others are its arguments, and `extra`
    /// is the last argument.
    pub open spec fn runs(&self, command: Seq<char>, dir: Seq<char>, extra: Seq<char>) -> bool {
        let words = fields(command, ' ');
        &&& self.program@ == words[0]
        &&& self.args.deep_view() == words.skip(1).push(extra)
        &&& self.dir@ == dir
    }

    /// The file that the program is pointed at: its last argument.
    pub open spec fn target(&self) -> Seq<char>
        recommends
            self.args@.len() > 0,
    {
        self.args.deep_view().last()
    }

    /// The invocation of the command line `command` in the directory `dir`,
    /// with `extra` as its last argument.
    pub fn new(command: &str, dir: &str, extra: &str) -> (r: Invocation)
        ensures
            r.runs(command@, dir@, extra@),
    {
        let mut words = split(command, ' ');
        let ghost all = words.deep_view();
        proof {
            lemma_fields_nonempty(command@, ' ');
        }
        let program = words.remove(0);
        assert(words.deep_view() =~= all.skip(1));
        let ghost rest = words.deep_view();
        words.push(extra.to_owned());
        assert(words.deep_view() =~= rest.push(extra@));
        Invocation { program, args: words, dir: dir.to_owned() }
    }
}

} // verus!
