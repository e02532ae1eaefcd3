use navi::repl::{child_path, highlight_prompt, is_completion, last_word_start, prompt_input, should_recurse};

#[test]
fn word_to_complete() {
    assert_eq!(last_word_start("read src/ma"), 5);
    assert_eq!(last_word_start("nospace"), 0);
    assert_eq!(last_word_start("two  spaces"), 5);
    assert_eq!(last_word_start("tab\tx"), 4);
    assert_eq!(last_word_start("é x"), 3);
    assert_eq!(last_word_start("ends "), 5);
}

#[test]
fn completion_candidates() {
    assert!(is_completion("main.rs", "./src/main.rs", "ma"));
    assert!(is_completion("main.rs", "./src/main.rs", "src/m"));
    assert!(!is_completion("main.rs", "./src/main.rs", "lib"));
    assert_eq!(child_path(".", "src"), "./src");
    assert_eq!(child_path("./src", "lib.rs"), "./src/lib.rs");
}

#[test]
fn skipped_directories() {
    assert!(should_recurse("./src"));
    assert!(!should_recurse("./target"));
    assert!(!should_recurse("./web/node_modules"));
    assert!(!should_recurse("./.git"));
    // A name that merely contains a skipped one is skipped too.
    assert!(!should_recurse("./rebuild"));
}

#[test]
fn prompt_colour_follows_thinking() {
    assert_eq!(highlight_prompt("> ", true), "\x1b[35m> \x1b[0m");
    assert_eq!(highlight_prompt("> ", false), "> ");
}

#[test]
fn typed_lines_are_trimmed_and_blank_ones_skipped() {
    assert_eq!(prompt_input("  hello there \n"), Some("hello there".to_string()));
    assert_eq!(prompt_input(" \t "), None);
    assert_eq!(prompt_input(""), None);
}
