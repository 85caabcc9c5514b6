use notes::commands::{do_find, do_grep, do_ls, do_new, do_print_config, NoteText};
use notes::config::Config;
use notes::index::{build_notes, Found};

fn config() -> Config {
    Config {
        conf: "/c/notes.toml".to_string(),
        editor: "vim".to_string(),
        notes_dir: "/n".to_string(),
        extension: "md".to_string(),
        viewer: "cat".to_string(),
    }
}

#[test]
fn names_and_fields_are_bold_where_the_terminal_takes_it() {
    let notes = build_notes(&vec![Found::File("/n/todo.md".to_string())], &config()).unwrap();
    let texts = vec![NoteText { name: "todo".to_string(), content: "call bob\n".to_string() }];

    colored::control::set_override(true);
    assert_eq!(do_ls(&notes).lines, vec!["", "\u{1b}[1mtodo\u{1b}[0m"]);
    assert_eq!(do_find("to", &notes), vec!["", "\u{1b}[1mtodo\u{1b}[0m"]);
    assert_eq!(do_grep("bob", &texts), vec!["", "\u{1b}[1mtodo\u{1b}[0m: call bob"]);
    assert_eq!(
        do_new("x", &config()).report,
        vec!["", "Created \u{1b}[1mx.md\u{1b}[0m in \u{1b}[1m/n\u{1b}[0m"]
    );
    assert_eq!(
        do_print_config(&config()).lines,
        vec![
            "",
            "Configuration file: \t\u{1b}[1m/c/notes.toml\u{1b}[0m",
            "Notes directory: \t\u{1b}[1m/n\u{1b}[0m",
            "Editor: \t\t\u{1b}[1mvim\u{1b}[0m",
            "Viewer: \t\t\u{1b}[1mcat\u{1b}[0m",
            "Notes extension: \t\u{1b}[1mmd\u{1b}[0m",
        ]
    );

    let odd = build_notes(&vec![Found::File("/n/a\u{1b}[0mb.md".to_string())], &config()).unwrap();
    let shown = do_ls(&odd).lines;
    assert_eq!(shown.len(), 2);
    assert!(shown[1].starts_with("\u{1b}[1m"));
    assert!(shown[1].ends_with("\u{1b}[0m"));
    assert!(shown[1].len() >= "a\u{1b}[0mb".len() + 8);

    colored::control::set_override(false);
    assert_eq!(do_ls(&odd).lines, vec!["", "a\u{1b}[0mb"]);
    assert_eq!(do_ls(&notes).lines, vec!["", "todo"]);
    assert_eq!(do_grep("bob", &texts), vec!["", "todo: call bob"]);
}
