use notes::config::Config;
use notes::index::{build_notes, escape, notes_pattern, Found, NoteIndex, ScanError};

fn files(paths: &[&str]) -> Vec<Found> {
    paths.iter().map(|p| Found::File(p.to_string())).collect()
}

fn config(dir: &str, ext: &str) -> Config {
    Config {
        conf: "/home/u/.config/notes/notes.toml".to_string(),
        editor: "vim".to_string(),
        notes_dir: dir.to_string(),
        extension: ext.to_string(),
        viewer: "cat".to_string(),
    }
}

#[test]
fn empty_index() {
    let notes = NoteIndex::new();
    assert_eq!(notes.len(), 0);
    assert_eq!(notes.get("todo"), None);
    assert_eq!(notes.sorted_names(), Vec::<String>::new());
    assert_eq!(notes.names_containing(""), Vec::<String>::new());
}

#[test]
fn insert_and_get() {
    let mut notes = NoteIndex::new();
    notes.insert("todo".to_string(), "/n/todo.md".to_string());
    notes.insert("work".to_string(), "/n/work.md".to_string());
    assert_eq!(notes.len(), 2);
    assert_eq!(notes.get("todo"), Some(&"/n/todo.md".to_string()));
    assert_eq!(notes.get("work"), Some(&"/n/work.md".to_string()));
    assert_eq!(notes.get("tod"), None);
    assert_eq!(notes.get("Todo"), None);
    assert_eq!(notes.get(""), None);
}

#[test]
fn insert_replaces_the_path_of_a_name() {
    let mut notes = NoteIndex::new();
    notes.insert("todo".to_string(), "/n/todo.md".to_string());
    notes.insert("work".to_string(), "/n/work.md".to_string());
    notes.insert("todo".to_string(), "/n/todo.txt".to_string());
    assert_eq!(notes.len(), 2);
    assert_eq!(notes.get("todo"), Some(&"/n/todo.txt".to_string()));
    let names: Vec<&str> = notes.notes().iter().map(|n| n.name.as_str()).collect();
    assert_eq!(names, vec!["todo", "work"]);
}

#[test]
fn build_from_files() {
    let notes = build_notes(&files(&["/n/work.md", "/n/todo.md", "/n/a.b.md"]), &config("/n", "md")).unwrap();
    assert_eq!(notes.len(), 3);
    assert_eq!(notes.get("work"), Some(&"/n/work.md".to_string()));
    assert_eq!(notes.get("todo"), Some(&"/n/todo.md".to_string()));
    assert_eq!(notes.get("a.b"), Some(&"/n/a.b.md".to_string()));
    assert_eq!(notes.get("a"), None);
    assert_eq!(notes.get("todo.md"), None);
}

#[test]
fn build_from_nothing() {
    let notes = build_notes(&Vec::new(), &config("/n", "md")).unwrap();
    assert_eq!(notes.len(), 0);
}

#[test]
fn build_keeps_the_later_of_two_files_with_one_stem() {
    let notes = build_notes(&files(&["/n/a.md", "/n/b.md", "/n/a.txt"]), &config("/n", "md")).unwrap();
    assert_eq!(notes.len(), 2);
    assert_eq!(notes.get("a"), Some(&"/n/a.txt".to_string()));
}

#[test]
fn build_fails_on_what_cannot_be_read() {
    let found = vec![Found::File("/n/a.md".to_string()), Found::Unreadable];
    assert_eq!(build_notes(&found, &config("/n", "md")).err(), Some(ScanError::Unreadable));
}

#[test]
fn build_fails_on_a_note_whose_name_is_no_text() {
    let found = vec![Found::NotText("caf\u{fffd}.md".to_string()), Found::File("/n/a.md".to_string())];
    assert_eq!(build_notes(&found, &config("/n", "md")).err(), Some(ScanError::NotText));
    let found = vec![Found::NotText("\u{fffd}".to_string())];
    assert_eq!(build_notes(&found, &config("/n", "")).err(), Some(ScanError::NotText));
}

#[test]
fn build_passes_over_a_name_that_is_no_text_and_no_note() {
    let found = vec![
        Found::NotText("caf\u{fffd}.txt".to_string()),
        Found::NotText("md".to_string()),
        Found::NotText("x.md\u{fffd}".to_string()),
        Found::File("/n/a.md".to_string()),
    ];
    let notes = build_notes(&found, &config("/n", "md")).unwrap();
    assert_eq!(notes.len(), 1);
    assert_eq!(notes.get("a"), Some(&"/n/a.md".to_string()));
}

#[test]
fn build_leaves_out_what_is_no_regular_file() {
    let notes = build_notes(&vec![Found::NotFile], &config("/n", "md")).unwrap();
    assert_eq!(notes.len(), 0);
    let found = vec![Found::NotFile, Found::File("/n/a.md".to_string()), Found::NotFile];
    let notes = build_notes(&found, &config("/n", "md")).unwrap();
    assert_eq!(notes.len(), 1);
    assert_eq!(notes.get("a"), Some(&"/n/a.md".to_string()));
    assert_eq!(notes.sorted_names(), vec!["a"]);
}

#[test]
fn build_gives_the_same_index_for_any_order_of_the_files() {
    let a = build_notes(&files(&["/n/x.md", "/n/y.md", "/n/z.md"]), &config("/n", "md")).unwrap();
    let b = build_notes(&files(&["/n/z.md", "/n/x.md", "/n/y.md"]), &config("/n", "md")).unwrap();
    assert_eq!(a.len(), b.len());
    for name in ["x", "y", "z"] {
        assert_eq!(a.get(name), b.get(name));
        assert_eq!(a.get(name), Some(&format!("/n/{name}.md")));
    }
}

#[test]
fn build_fails_on_a_path_without_a_file_name() {
    assert_eq!(build_notes(&files(&["/n/a.md", "/n/.."]), &config("/n", "md")).err(), Some(ScanError::NoStem));
    assert_eq!(build_notes(&files(&["/"]), &config("/n", "md")).err(), Some(ScanError::NoStem));
}

#[test]
fn build_fails_with_the_first_error() {
    let found = vec![
        Found::File("/n/a.md".to_string()),
        Found::NotFile,
        Found::NotText("b\u{fffd}.md".to_string()),
        Found::Unreadable,
        Found::File("..".to_string()),
    ];
    assert_eq!(build_notes(&found, &config("/n", "md")).err(), Some(ScanError::NotText));
    let found = vec![
        Found::File("..".to_string()),
        Found::Unreadable,
        Found::NotText("b\u{fffd}.md".to_string()),
    ];
    assert_eq!(build_notes(&found, &config("/n", "md")).err(), Some(ScanError::NoStem));
}

#[test]
fn sorted_names_are_ascending() {
    let notes = build_notes(&files(&["/n/work.md", "/n/todo.md", "/n/Ideas.md", "/n/a.md"]), &config("/n", "md")).unwrap();
    assert_eq!(notes.sorted_names(), vec!["Ideas", "a", "todo", "work"]);
}

#[test]
fn sorted_names_do_not_depend_on_the_order_of_the_files() {
    let a = build_notes(&files(&["/n/work.md", "/n/todo.md", "/n/ideas.md"]), &config("/n", "md")).unwrap();
    let b = build_notes(&files(&["/n/ideas.md", "/n/work.md", "/n/todo.md"]), &config("/n", "md")).unwrap();
    let c = build_notes(&files(&["/n/todo.md", "/n/ideas.md", "/n/work.md"]), &config("/n", "md")).unwrap();
    assert_eq!(a.sorted_names(), vec!["ideas", "todo", "work"]);
    assert_eq!(a.sorted_names(), b.sorted_names());
    assert_eq!(a.sorted_names(), c.sorted_names());
}

#[test]
fn names_containing_a_substring() {
    let notes = build_notes(&files(&["/n/work.md", "/n/todo.md", "/n/todo-home.md", "/n/Todo.md"]), &config("/n", "md"))
        .unwrap();
    assert_eq!(notes.names_containing("todo"), vec!["todo", "todo-home"]);
    assert_eq!(notes.names_containing("o"), vec!["work", "todo", "todo-home", "Todo"]);
    assert_eq!(notes.names_containing("home"), vec!["todo-home"]);
    assert_eq!(notes.names_containing("x"), Vec::<String>::new());
}

#[test]
fn names_containing_the_empty_text_are_all_names() {
    let notes = build_notes(&files(&["/n/work.md", "/n/todo.md"]), &config("/n", "md")).unwrap();
    assert_eq!(notes.names_containing(""), vec!["work", "todo"]);
}

#[test]
fn pattern_for_the_search() {
    assert_eq!(notes_pattern(&config("/home/u/notes", "md")), "/home/u/notes/*.md");
    assert_eq!(notes_pattern(&config("/home/u/notes/", "txt")), "/home/u/notes/*.txt");
    assert_eq!(notes_pattern(&config("/home/u/notes", "")), "/home/u/notes/*");
    assert_eq!(notes_pattern(&config("", "md")), "*.md");
}

#[test]
fn escape_puts_brackets_round_what_a_pattern_would_read() {
    assert_eq!(escape("/n[1]"), "/n[[]1[]]");
    assert_eq!(escape("a?b*c"), "a[?]b[*]c");
    assert_eq!(escape("plain/path.md"), "plain/path.md");
    assert_eq!(escape("a!b{c}"), "a!b{c}");
    assert_eq!(escape(""), "");
    for s in ["", "/n[1]", "**", "]x[", "a?b", "é*ü", "/home/u/notes"] {
        assert_eq!(escape(s), glob::Pattern::escape(s), "{s:?}");
    }
}

#[test]
fn pattern_takes_the_directory_as_it_is_named() {
    assert_eq!(notes_pattern(&config("/n[1]", "md")), "/n[[]1[]]/*.md");
    assert_eq!(notes_pattern(&config("/what?/*", "md")), "/what[?]/[*]/*.md");
    assert_eq!(notes_pattern(&config("/n", "m?")), "/n/*.m[?]");
    assert_eq!(notes_pattern(&config("/a!b", "md")), "/a!b/*.md");
}

#[test]
fn pattern_matches_files_in_the_directory_itself() {
    let pattern = glob::Pattern::new(&notes_pattern(&config("/n[1]", "md"))).unwrap();
    assert!(pattern.matches("/n[1]/a.md"));
    assert!(pattern.matches("/n[1]/todo.md"));
    assert!(!pattern.matches("/n1/a.md"));
    assert!(!pattern.matches("/n[1]/a.txt"));
    let pattern = glob::Pattern::new(&notes_pattern(&config("/all*", "md"))).unwrap();
    assert!(pattern.matches("/all*/a.md"));
    assert!(!pattern.matches("/allx/a.md"));
}

#[test]
fn find_lists_each_name_once() {
    let notes = build_notes(&files(&["/n/a.md", "/n/b.md", "/n/a.txt", "/n/ab.md"]), &config("/n", "md")).unwrap();
    assert_eq!(notes.names_containing("a"), vec!["a", "ab"]);
    assert_eq!(notes.names_containing(""), vec!["a", "b", "ab"]);
}
