use navi::json::{JsonNumber, JsonObject, JsonValue};
use navi::tools::{
    bash_report, display_name, format_output_lines, glob_report, grep_file, grep_pattern, grep_report,
    is_command_match, plan_tool, read_report, sort_strings, truncate_line, validate_bash_command,
    ToolRequest,
};
use navi::ToolCall;

fn call(name: &str, args: &[(&str, JsonValue)]) -> ToolCall {
    let mut o = JsonObject::new();
    for (k, v) in args {
        o.insert(k.to_string(), v.copy());
    }
    ToolCall { id: "id".to_string(), name: name.to_string(), args: o }
}

fn text(s: &str) -> JsonValue {
    JsonValue::String(s.to_string())
}

#[test]
fn long_line_is_cut_at_width() {
    let line = "x".repeat(2001);
    let cut = truncate_line(&line);
    assert_eq!(cut.len(), 2003);
    assert!(cut.ends_with("x..."));
    assert_eq!(truncate_line("short"), "short");
    let exact = "y".repeat(2000);
    assert_eq!(truncate_line(&exact), exact);
}

#[test]
fn long_output_keeps_head_and_tail() {
    let lines: Vec<String> = (1..=600).map(|i| format!("line {}", i)).collect();
    let refs: Vec<&str> = lines.iter().map(|s| s.as_str()).collect();
    let out = format_output_lines(refs);
    let parts: Vec<&str> = out.split('\n').collect();
    assert_eq!(parts[0], "line 1");
    assert_eq!(parts[449], "line 450");
    assert_eq!(parts[450], "");
    assert_eq!(parts[451], "[... 100 lines truncated ...]");
    assert_eq!(parts[452], "");
    assert_eq!(parts[453], "line 551");
    assert_eq!(*parts.last().unwrap(), "line 600");
    assert_eq!(format_output_lines(vec!["a", "b"]), "a\nb");
}

#[test]
fn read_summaries() {
    let (s, r) = read_report("f.txt", 0, "one\ntwo\nthree\n");
    assert_eq!(s, "Reading f.txt (lines 1-3)");
    assert_eq!(r, "one\ntwo\nthree");
    let (s, r) = read_report("f.txt", 0, "only");
    assert_eq!(s, "Reading f.txt (1 line)");
    assert_eq!(r, "only");
    let (s, r) = read_report("f.txt", 1, "one\ntwo\nthree");
    assert_eq!(s, "Reading f.txt (lines 2-3 of 3)");
    assert_eq!(r, "two\nthree\n\n[Read from line 2 to 3 of 3 total]");
    let big: String = (1..=600).map(|i| format!("{}\n", i)).collect();
    let (s, _) = read_report("big", 0, &big);
    assert_eq!(s, "Reading big (lines 1-500 of 600)");
    let (s, _) = read_report("big", 10, &big);
    assert_eq!(s, "Reading big (lines 11-510 of 600)");
}

#[test]
fn bash_summaries() {
    let (s, r) = bash_report(true, "a\nb\n", "", "exit status: 0");
    assert_eq!(s, "Command output (2 lines)");
    assert_eq!(r, "a\nb");
    let (s, r) = bash_report(false, "ignored", "boom\n", "exit status: 1");
    assert_eq!(s, "Command output (1 lines)");
    assert_eq!(r, "boom");
    let (s, r) = bash_report(false, "", "", "exit status: 2");
    assert_eq!(s, "Command output (1 lines)");
    assert_eq!(r, "Command exited with status: exit status: 2");
    let many: String = (1..=501).map(|i| format!("{}\n", i)).collect();
    let (s, _) = bash_report(true, &many, "", "");
    assert_eq!(s, "Command output (501 lines, showing first 450)");
}

#[test]
fn glob_listing_is_sorted_without_dot_slash() {
    let (s, r) = glob_report("*.rs", vec!["./b.rs".to_string(), "a.rs".to_string(), "././c.rs".to_string()]);
    assert_eq!(s, "Found 3 files matching '*.rs'");
    assert_eq!(r, "a.rs\nb.rs\nc.rs");
    let (s, r) = glob_report("*.zz", Vec::new());
    assert_eq!(s, "No files match pattern: *.zz");
    assert_eq!(r, s);
}

#[test]
fn grep_finds_matching_lines() {
    let p = grep_pattern("fn [a-z]+").ok().unwrap();
    let mut hits = Vec::new();
    grep_file(&p, "src/x.rs", "fn main() {}\nlet x = 1;\n  fn helper()\n", &mut hits);
    assert_eq!(hits, vec!["src/x.rs:1: fn main() {}".to_string(), "src/x.rs:3:   fn helper()".to_string()]);
    let (s, r) = grep_report("fn [a-z]+", "src/*.rs", 1, &hits);
    assert_eq!(s, "Found 2 matches in 1 files");
    assert_eq!(r, "src/x.rs:1: fn main() {}\nsrc/x.rs:3:   fn helper()");
    let (s, r) = grep_report("zzz", "src/*.rs", 4, &Vec::new());
    assert_eq!(s, "No matches found for pattern: zzz");
    assert_eq!(r, s);
    let (s, r) = grep_report("zzz", "none/*", 0, &Vec::new());
    assert_eq!(s, "No files match pattern: none/*");
    assert_eq!(r, "");
}

#[test]
fn invalid_grep_pattern_is_reported() {
    match grep_pattern("(unclosed") {
        Err(e) => assert!(e.starts_with("Invalid regex pattern: ") && e.len() > "Invalid regex pattern: ".len()),
        Ok(_) => panic!("pattern should not compile"),
    }
}

#[test]
fn command_filter() {
    assert!(is_command_match("rm -rf /", "rm "));
    assert!(is_command_match("ls; rm x", "rm "));
    assert!(is_command_match("a; b", "b"));
    // The first occurrence of an operator decides: " | sh" right after "| " is no match.
    assert!(!is_command_match("echo hi | sh", " | sh"));
    assert!(!is_command_match("echo rm x", "rm "));
    assert_eq!(validate_bash_command("ls -la"), Ok(()));
    assert_eq!(
        validate_bash_command("RM -rf /tmp/x"),
        Err("Command blocked for safety: file deletion (data loss risk)".to_string())
    );
    assert_eq!(
        validate_bash_command("git push --force origin"),
        Err("Command blocked for safety: force git push (overwrites history)".to_string())
    );
    assert_eq!(
        validate_bash_command("dd if=/dev/zero"),
        Err("Command blocked for safety: disk write operations (data destruction risk)".to_string())
    );
}

#[test]
fn plans_for_each_tool() {
    match plan_tool(&call("Read", &[("filePath", text("a.txt")), ("offset", JsonValue::Number(JsonNumber::PosInt(5)))])) {
        ToolRequest::Read { path, offset } => {
            assert_eq!(path, "a.txt");
            assert_eq!(offset, 4);
        }
        _ => panic!("expected a read"),
    }
    match plan_tool(&call("Read", &[("filePath", text("a.txt")), ("offset", JsonValue::Number(JsonNumber::PosInt(0)))])) {
        ToolRequest::Read { offset, .. } => assert_eq!(offset, 0),
        _ => panic!("expected a read"),
    }
    match plan_tool(&call("Read", &[("filePath", text("a.txt")), ("offset", text("3"))])) {
        ToolRequest::Read { offset, .. } => assert_eq!(offset, 0),
        _ => panic!("expected a read"),
    }
    match plan_tool(&call("Read", &[])) {
        ToolRequest::Answer(s, r) => {
            assert_eq!(s, "Error: 'filePath' parameter is required and must be a string");
            assert_eq!(r, s);
        }
        _ => panic!("expected an answer"),
    }
    match plan_tool(&call("Glob", &[("pattern", text("*.rs"))])) {
        ToolRequest::Glob { pattern } => assert_eq!(pattern, "*.rs"),
        _ => panic!("expected a glob"),
    }
    match plan_tool(&call("Glob", &[])) {
        ToolRequest::Answer(s, r) => {
            assert_eq!(s, "Error: 'pattern' parameter is required");
            assert_eq!(r, "");
        }
        _ => panic!("expected an answer"),
    }
    match plan_tool(&call("Grep", &[("pattern", text("a+")), ("files", text("*.md"))])) {
        ToolRequest::Grep { pattern, files, .. } => {
            assert_eq!(pattern, "a+");
            assert_eq!(files, "*.md");
        }
        _ => panic!("expected a grep"),
    }
    match plan_tool(&call("Grep", &[("pattern", text("a+"))])) {
        ToolRequest::Answer(s, r) => {
            assert_eq!(s, "Error: 'files' parameter is required");
            assert_eq!(r, "");
        }
        _ => panic!("expected an answer"),
    }
    match plan_tool(&call("Grep", &[("pattern", text("[")), ("files", text("*"))])) {
        ToolRequest::Answer(s, r) => {
            assert!(s.starts_with("Invalid regex pattern: "));
            assert_eq!(r, "");
        }
        _ => panic!("expected an answer"),
    }
    match plan_tool(&call("Bash", &[("command", text("echo hi"))])) {
        ToolRequest::Bash { command } => assert_eq!(command, "echo hi"),
        _ => panic!("expected a command"),
    }
    match plan_tool(&call("Bash", &[("command", text("shutdown now"))])) {
        ToolRequest::Answer(s, r) => {
            assert_eq!(s, "Command blocked for safety: system shutdown (would interrupt session)");
            assert_eq!(r, s);
        }
        _ => panic!("expected an answer"),
    }
    match plan_tool(&call("Bash", &[])) {
        ToolRequest::Answer(s, r) => {
            assert_eq!(s, "Error: 'command' parameter is required");
            assert_eq!(r, s);
        }
        _ => panic!("expected an answer"),
    }
    match plan_tool(&call("Webfetch", &[])) {
        ToolRequest::Answer(s, r) => {
            assert_eq!(s, "Unknown tool: Webfetch");
            assert_eq!(r, s);
        }
        _ => panic!("expected an answer"),
    }
}

#[test]
fn strings_sort_by_code_point() {
    let v = vec!["b".to_string(), "B".to_string(), "a".to_string(), "ab".to_string(), "é".to_string()];
    assert_eq!(sort_strings(v), vec!["B", "a", "ab", "b", "é"]);
}

#[test]
fn reads_are_reported_under_the_file_name() {
    assert_eq!(display_name("src/main.rs"), "main.rs");
    assert_eq!(display_name("notes.txt"), "notes.txt");
    assert_eq!(display_name("dir/sub/"), "sub");
    assert_eq!(display_name(".."), "..");
    assert_eq!(display_name("/"), "/");
}

#[test]
fn file_names_follow_path_normalization() {
    assert_eq!(display_name("a/b/."), "b");
    assert_eq!(display_name("a/b/.//"), "b");
    assert_eq!(display_name("a//b"), "b");
    assert_eq!(display_name("a/.."), "a/..");
    assert_eq!(display_name("."), ".");
    assert_eq!(display_name("./"), "./");
    assert_eq!(display_name("./x"), "x");
    assert_eq!(display_name("/."), "/.");
    assert_eq!(display_name(""), "");
    assert_eq!(display_name("a/.b"), ".b");
    assert_eq!(display_name("a/b.."), "b..");
}

#[test]
fn cut_lines_stay_within_width_plus_marker() {
    let wide = "é".repeat(1001);
    let cut = truncate_line(&wide);
    assert_eq!(cut.len(), 2003);
    assert_eq!(cut.chars().count(), 1003);
}

#[test]
fn blocked_pattern_after_operator_is_refused() {
    assert_eq!(
        validate_bash_command("ls && Rm notes.txt"),
        Err("Command blocked for safety: file deletion (data loss risk)".to_string())
    );
    assert_eq!(
        validate_bash_command("echo $( reboot)"),
        Err("Command blocked for safety: system reboot (would interrupt session)".to_string())
    );
}
