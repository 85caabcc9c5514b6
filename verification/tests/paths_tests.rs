use notes::paths::{file_stem, join, with_extension};
use std::path::Path;

const PATHS: [&str; 38] = [
    "", ".", "..", "/", "//", "a", "a.b", "a.b.c", ".hidden", ".hidden.md", "a.", "..a", "...",
    "a/", "a//", "a/.", "a/./", "a/..", "a/b", "a.x/b", "a/b.c", "a/b.c/", "a/b.c/.", "/a", "/a.b",
    "./a", "./", "/.", "../a", "a/.b", "todo.md", "notes/todo.md", "/home/u/notes/todo.md",
    "dir.d/x.y.z", "x..", "a b.txt", "é.ü", "/home/u/notes/*",
];

#[test]
fn with_extension_examples() {
    assert_eq!(with_extension("todo", "md"), "todo.md");
    assert_eq!(with_extension("todo.txt", "md"), "todo.md");
    assert_eq!(with_extension("a.b.c", "md"), "a.b.md");
    assert_eq!(with_extension(".hidden", "md"), ".hidden.md");
    assert_eq!(with_extension("todo.", "md"), "todo.md");
    assert_eq!(with_extension("todo.md", ""), "todo");
    assert_eq!(with_extension("todo", ""), "todo");
    assert_eq!(with_extension("sub/todo", "md"), "sub/todo.md");
    assert_eq!(with_extension("todo/", "md"), "todo.md");
    assert_eq!(with_extension("", "md"), "");
    assert_eq!(with_extension("..", "md"), "..");
    assert_eq!(with_extension("/", "md"), "/");
}

#[test]
fn with_extension_agrees_with_std() {
    // A file name made of two dots and an extension is left out here: for it
    // the rule gives the name below, which is tested on its own.
    for p in PATHS.iter().filter(|p| **p != "..a") {
        for ext in ["md", "", "txt", "tar.gz", "m"] {
            let want = Path::new(p).with_extension(ext);
            assert_eq!(with_extension(p, ext), want.to_str().unwrap(), "{p:?} {ext:?}");
        }
    }
}

#[test]
fn with_extension_after_two_dots() {
    assert_eq!(with_extension("..a", "md"), "..md");
    assert_eq!(with_extension("..a", ""), ".");
    assert_eq!(with_extension("x/..a", "md"), "x/..md");
}

#[test]
fn file_stem_examples() {
    assert_eq!(file_stem("/home/u/notes/todo.md"), Some("todo".to_string()));
    assert_eq!(file_stem("todo.md"), Some("todo".to_string()));
    assert_eq!(file_stem("a.b.md"), Some("a.b".to_string()));
    assert_eq!(file_stem(".md"), Some(".md".to_string()));
    assert_eq!(file_stem("todo"), Some("todo".to_string()));
    assert_eq!(file_stem("notes/"), Some("notes".to_string()));
    assert_eq!(file_stem(""), None);
    assert_eq!(file_stem("/"), None);
    assert_eq!(file_stem(".."), None);
    assert_eq!(file_stem("a/.."), None);
    assert_eq!(file_stem("."), None);
}

#[test]
fn file_stem_agrees_with_std() {
    for p in PATHS {
        let want = Path::new(p).file_stem().map(|s| s.to_str().unwrap().to_string());
        assert_eq!(file_stem(p), want, "{p:?}");
    }
}

#[test]
fn join_examples() {
    assert_eq!(join("/home/u", "notes"), "/home/u/notes");
    assert_eq!(join("/home/u/", "notes"), "/home/u/notes");
    assert_eq!(join("/home/u", "/etc"), "/etc");
    assert_eq!(join("", "notes"), "notes");
    assert_eq!(join("/home/u", ""), "/home/u/");
    assert_eq!(join("/", "x"), "/x");
    assert_eq!(join("notes", "*"), "notes/*");
}

#[test]
fn join_agrees_with_std() {
    for base in ["", "/", "a", "a/", "/a/b", "/a/b/", ".", "..", "a//"] {
        for rel in ["", "x", "/x", "x/y", "*", ".", "..", "x/"] {
            let want = Path::new(base).join(rel);
            assert_eq!(join(base, rel), want.to_str().unwrap(), "{base:?} {rel:?}");
        }
    }
}

#[test]
fn stem_of_a_note_file_is_its_name() {
    for stem in ["todo", "a.b", ".x", "..", ".", "with space", "é"] {
        for ext in ["md", "txt"] {
            let file = join("/home/u/notes", &with_extension(&format!("{stem}.x"), ext));
            assert_eq!(file, format!("/home/u/notes/{stem}.{ext}"));
            assert_eq!(file_stem(&file), Some(stem.to_string()));
        }
    }
}
