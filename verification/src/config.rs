//! The configuration of the program and its defaults.

use crate::paths::{join, joined};
use vstd::prelude::*;

verus! {

/// What the program is run with.
#[derive(Debug)]
pub struct Config {
    /// The file that keeps this configuration.
    pub conf: String,
    /// The command that opens a note for editing; it may hold arguments.
    pub editor: String,
    /// The directory that holds the notes.
    pub notes_dir: String,
    /// The extension of a note's file, without the dot.
    pub extension: String,
    /// The command that shows a note; it may hold arguments.
    pub viewer: String,
}

/// Why no default configuration could be made.
#[derive(Debug, Clone, Copy, PartialEq, Eq)]
pub enum ConfigError {
    /// The place of the configuration file is not known.
    NoConfigurationFile,
    /// The user's home directory is not known.
    NoHomeDirectory,
}

/// The editor of the default configuration.
pub open spec fn default_editor() -> Seq<char> {
    seq!['v', 'i', 'm']
}

/// The viewer of the default configuration.
pub open spec fn default_viewer() -> Seq<char> {
    seq!['c', 'a', 't']
}

/// The extension of the default configuration.
pub open spec fn default_extension() -> Seq<char> {
    seq!['m', 'd']
}

impl Config {
    /// This configuration is the default one for a program called `program`
    /// whose configuration is kept in `conf`, of a user whose home is `home`:
    /// the notes are in the directory named after the program, in the home
    /// directory.
    pub open spec fn is_default(
        &self,
        conf: Seq<char>,
        home: Seq<char>,
        program: Seq<char>,
    ) -> bool {
        &&& self.conf@ == conf
        &&& self.editor@ == default_editor()
        &&& self.notes_dir@ == joined(home, program)
        &&& self.extension@ == default_extension()
        &&& self.viewer@ == default_viewer()
    }

    /// The default configuration, from the place of the configuration file
    /// and the home directory as the caller found them, `None` standing for
    /// one that is not known. The configuration file is asked for first.
    pub fn from_found(conf: Option<String>, home: Option<String>, program: &str) -> (r: Result<
        Config,
        ConfigError,
    >)
        ensures
            match r {
                Ok(c) => conf is Some && home is Some && c.is_default(
                    conf->0@,
                    home->0@,
                    program@,
                ),
                Err(e) => {
                    &&& e == ConfigError::NoConfigurationFile <==> conf is None
                    &&& e == ConfigError::NoHomeDirectory <==> conf is Some && home is None
                },
            },
    {
        let conf = match conf {
            Some(c) => c,
            None => { return Err(ConfigError::NoConfigurationFile); },
        };
        let home = match home {
            Some(h) => h,
            None => { return Err(ConfigError::NoHomeDirectory); },
        };
        proof {
            reveal_strlit("vim");
            reveal_strlit("md");
            reveal_strlit("cat");
        }
        let c = Config {
            conf,
            editor: "vim".to_owned(),
            notes_dir: join(home.as_str(), program),
            extension: "md".to_owned(),
            viewer: "cat".to_owned(),
        };
        assert(c.editor@ =~= default_editor());
        assert(c.extension@ =~= default_extension());
        assert(c.viewer@ =~= default_viewer());
        Ok(c)
    }
}

} // verus!
