use notes::commands::{
    config_lines, created, do_cat, do_cmd, do_find, do_grep, do_ls, do_new, do_open,
    do_print_config, grep_block, name_lines, titled, NoteText,
};
use notes::config::Config;
use notes::index::{build_notes, Found, NoteIndex};
use notes::invoke::Invocation;

fn plain() {
    colored::control::set_override(false);
}

fn config() -> Config {
    Config {
        conf: "/home/u/.config/notes/notes.toml".to_string(),
        editor: "vim".to_string(),
        notes_dir: "/home/u/notes".to_string(),
        extension: "md".to_string(),
        viewer: "cat".to_string(),
    }
}

fn index(names: &[&str]) -> NoteIndex {
    let found: Vec<Found> =
        names.iter().map(|n| Found::File(format!("/home/u/notes/{n}.md"))).collect();
    build_notes(&found, &config()).unwrap()
}

fn text(name: &str, content: &str) -> NoteText {
    NoteText { name: name.to_string(), content: content.to_string() }
}

#[test]
fn invocation_of_a_plain_command() {
    let run = Invocation::new("vim", "/home/u/notes", "/home/u/notes/todo.md");
    assert_eq!(run.program, "vim");
    assert_eq!(run.args, vec!["/home/u/notes/todo.md"]);
    assert_eq!(run.dir, "/home/u/notes");
}

#[test]
fn invocation_of_a_command_with_arguments() {
    let run = Invocation::new("code -w --new-window", "/n", "x.md");
    assert_eq!(run.program, "code");
    assert_eq!(run.args, vec!["-w", "--new-window", "x.md"]);
    assert_eq!(run.dir, "/n");
}

#[test]
fn invocation_keeps_empty_pieces() {
    let run = Invocation::new("less  -R", "/n", "x.md");
    assert_eq!(run.program, "less");
    assert_eq!(run.args, vec!["", "-R", "x.md"]);
    let run = Invocation::new("", "/n", "x.md");
    assert_eq!(run.program, "");
    assert_eq!(run.args, vec!["x.md"]);
}

#[test]
fn ls_lists_sorted_names() {
    plain();
    let r = do_ls(&index(&["work", "todo"]));
    assert_eq!(r.lines, vec!["", "todo", "work"]);
    assert_eq!(r.status, 0);
}

#[test]
fn ls_of_no_notes_is_one_empty_line() {
    plain();
    let r = do_ls(&NoteIndex::new());
    assert_eq!(r.lines, vec![""]);
    assert_eq!(r.status, 0);
}

#[test]
fn ls_does_not_depend_on_the_order_of_the_files() {
    plain();
    let a = do_ls(&index(&["b", "c", "a", "B"]));
    let b = do_ls(&index(&["B", "a", "c", "b"]));
    assert_eq!(a.lines, vec!["", "B", "a", "b", "c"]);
    assert_eq!(a.lines, b.lines);
}

#[test]
fn find_lists_names_that_hold_the_text() {
    plain();
    let notes = index(&["todo", "work"]);
    assert_eq!(do_find("to", &notes), vec!["", "todo"]);
    assert_eq!(do_find("o", &notes), vec!["", "todo", "work"]);
    assert_eq!(do_find("TO", &notes), vec![""]);
    assert_eq!(do_find("nothing", &notes), vec![""]);
}

#[test]
fn find_with_the_empty_text_lists_all() {
    plain();
    assert_eq!(do_find("", &index(&["todo", "work"])), vec!["", "todo", "work"]);
}

#[test]
fn cat_starts_the_viewer_on_the_file() {
    let notes = index(&["todo", "work"]);
    let run = do_cat("todo", &notes, &config()).unwrap();
    assert_eq!(run.program, "cat");
    assert_eq!(run.args, vec!["/home/u/notes/todo.md"]);
    assert_eq!(run.dir, "/home/u/notes");
}

#[test]
fn open_starts_the_editor_on_the_file() {
    let notes = index(&["todo", "work"]);
    let run = do_open("work", &notes, &config()).unwrap();
    assert_eq!(run.program, "vim");
    assert_eq!(run.args, vec!["/home/u/notes/work.md"]);
    assert_eq!(run.dir, "/home/u/notes");
}

#[test]
fn cat_and_open_of_a_missing_note() {
    let notes = index(&["todo"]);
    let e = do_cat("tod", &notes, &config()).unwrap_err();
    assert_eq!(e.message, "tod not found");
    assert_eq!(e.status, 69);
    let e = do_open("work", &notes, &config()).unwrap_err();
    assert_eq!(e.message, "work not found");
    assert_eq!(e.status, 69);
}

#[test]
fn cmd_with_arguments() {
    let notes = index(&["todo"]);
    let run = do_cmd("todo", &notes, &config(), "bat --plain").unwrap();
    assert_eq!(run.program, "bat");
    assert_eq!(run.args, vec!["--plain", "/home/u/notes/todo.md"]);
    let e = do_cmd("", &notes, &config(), "bat --plain").unwrap_err();
    assert_eq!(e.message, " not found");
    assert_eq!(e.status, 69);
}

#[test]
fn new_note_without_a_dot() {
    plain();
    let r = do_new("todo", &config());
    assert_eq!(r.directory, "/home/u/notes");
    assert_eq!(r.invocation.program, "vim");
    assert_eq!(r.invocation.args, vec!["/home/u/notes/todo.md"]);
    assert_eq!(r.invocation.dir, "/home/u/notes");
    assert_eq!(r.report, vec!["", "Created todo.md in /home/u/notes"]);
}

#[test]
fn new_note_is_the_same_each_time() {
    plain();
    let a = do_new("todo", &config());
    let b = do_new("todo", &config());
    assert_eq!(a.directory, b.directory);
    assert_eq!(a.invocation.program, b.invocation.program);
    assert_eq!(a.invocation.args, b.invocation.args);
    assert_eq!(a.invocation.dir, b.invocation.dir);
    assert_eq!(a.report, b.report);
}

#[test]
fn new_note_with_an_extension_of_its_own() {
    plain();
    let r = do_new("todo.txt", &config());
    assert_eq!(r.invocation.args, vec!["/home/u/notes/todo.md"]);
    let r = do_new("v1.2.notes", &config());
    assert_eq!(r.invocation.args, vec!["/home/u/notes/v1.2.md"]);
    assert_eq!(r.report, vec!["", "Created v1.2.md in /home/u/notes"]);
}

#[test]
fn new_note_with_an_editor_that_takes_arguments() {
    plain();
    let mut cfg = config();
    cfg.editor = "code -w".to_string();
    let r = do_new("ideas", &cfg);
    assert_eq!(r.invocation.program, "code");
    assert_eq!(r.invocation.args, vec!["-w", "/home/u/notes/ideas.md"]);
}

#[test]
fn new_note_is_what_open_finds_afterwards() {
    plain();
    let made = do_new("ideas", &config());
    let file = made.invocation.args.last().unwrap().clone();
    let notes = build_notes(&vec![Found::File(file.clone())], &config()).unwrap();
    let run = do_open("ideas", &notes, &config()).unwrap();
    assert_eq!(run.args, vec![file]);
    assert_eq!(run.program, made.invocation.program);
    assert_eq!(run.dir, made.invocation.dir);
}

#[test]
fn grep_block_of_one_note() {
    assert_eq!(
        grep_block("todo", "buy milk\ncall bob\n", "bob"),
        vec!["", "todo: call bob"]
    );
    assert_eq!(
        grep_block("todo", "buy milk\ncall bob\nbob again", "b"),
        vec!["", "todo: buy milk", "todo: call bob", "todo: bob again"]
    );
    assert_eq!(grep_block("todo", "buy milk\ncall bob\n", "Bob"), Vec::<String>::new());
    assert_eq!(grep_block("todo", "", "bob"), Vec::<String>::new());
    assert_eq!(grep_block("todo", "a\r\nb\r\n", "a"), vec!["", "todo: a"]);
}

#[test]
fn grep_block_with_the_empty_text_shows_every_line() {
    assert_eq!(grep_block("n", "a\n\nb", ""), vec!["", "n: a", "n: ", "n: b"]);
    assert_eq!(grep_block("n", "", ""), Vec::<String>::new());
}

#[test]
fn grep_groups_lines_by_note() {
    plain();
    let texts = vec![
        text("todo", "buy milk\ncall bob\n"),
        text("work", "write report\n"),
        text("people", "bob\nalice\nbobby\n"),
    ];
    assert_eq!(
        do_grep("bob", &texts),
        vec!["", "todo: call bob", "", "people: bob", "people: bobby"]
    );
    assert_eq!(do_grep("zzz", &texts), Vec::<String>::new());
    assert_eq!(do_grep("bob", &Vec::new()), Vec::<String>::new());
}

#[test]
fn scenario_todo_and_work() {
    plain();
    let texts = vec![text("todo", "buy milk\ncall bob")];
    assert_eq!(do_grep("bob", &texts), vec!["", "todo: call bob"]);
    assert_eq!(do_find("to", &index(&["todo"])), vec!["", "todo"]);
    assert_eq!(do_ls(&index(&["work", "todo"])).lines, vec!["", "todo", "work"]);
}

#[test]
fn print_config_shows_every_field() {
    plain();
    let r = do_print_config(&config());
    assert_eq!(
        r.lines,
        vec![
            "",
            "Configuration file: \t/home/u/.config/notes/notes.toml",
            "Notes directory: \t/home/u/notes",
            "Editor: \t\tvim",
            "Viewer: \t\tcat",
            "Notes extension: \tmd",
        ]
    );
    assert_eq!(r.status, 0);
}

#[test]
fn lines_from_shown_fields() {
    assert_eq!(
        config_lines("C", "D", "E", "V", "X"),
        vec![
            "",
            "Configuration file: \tC",
            "Notes directory: \tD",
            "Editor: \t\tE",
            "Viewer: \t\tV",
            "Notes extension: \tX",
        ]
    );
    assert_eq!(created("todo.md", "/n"), "Created todo.md in /n");
    assert_eq!(titled("a: ", "b"), "a: b");
}

#[test]
fn name_lines_start_with_an_empty_line() {
    plain();
    assert_eq!(name_lines(&vec!["b".to_string(), "a".to_string()]), vec!["", "b", "a"]);
    assert_eq!(name_lines(&Vec::new()), vec![""]);
}
