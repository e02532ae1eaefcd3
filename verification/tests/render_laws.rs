use navi::{ContentType, Renderer};

fn plain(s: &str) -> String {
    let mut out = String::new();
    let mut in_escape = false;
    for ch in s.chars() {
        if ch == '\x1b' {
            in_escape = true;
        } else if in_escape {
            if ch == 'm' {
                in_escape = false;
            }
        } else {
            out.push(ch);
        }
    }
    out
}

#[test]
fn inline_rendering_keeps_all_but_delimiters() {
    let mut r = Renderer::new(80);
    r.push("a *b* `c` **d** e", ContentType::Normal);
    r.flush();
    assert_eq!(plain(&r.take_output()), "a b c d e\n");
}

#[test]
fn code_span_keeps_stars_literal() {
    let mut r = Renderer::new(80);
    r.push("`x*y*z`", ContentType::Normal);
    r.flush();
    let out = r.take_output();
    assert_eq!(plain(&out), "x*y*z\n");
    assert!(out.contains("\x1b[33m"));
}

#[test]
fn wrapping_keeps_lines_within_width() {
    let mut r = Renderer::new(12);
    for w in ["alpha", " beta", " gamma", " delta", " epsilon", " zeta", " eta"] {
        r.push(w, ContentType::Normal);
    }
    r.flush();
    let out = plain(&r.take_output());
    for line in out.lines() {
        assert!(line.chars().count() <= 12, "line too long: {:?}", line);
    }
    assert_eq!(out.split_whitespace().collect::<Vec<_>>().join(" "), "alpha beta gamma delta epsilon zeta eta");
}

#[test]
fn flush_ends_an_unfinished_line() {
    let mut r = Renderer::new(80);
    r.push("abc", ContentType::Normal);
    r.flush();
    let out = r.take_output();
    assert!(out.ends_with('\n'));
    assert_eq!(plain(&out), "abc\n");
}

#[test]
fn flush_of_fresh_renderer_writes_nothing() {
    let mut r = Renderer::new(80);
    r.flush();
    assert_eq!(r.take_output(), "");
}

#[test]
fn line_break_ends_blockquote() {
    let mut r = Renderer::new(80);
    r.push("> quoted\n", ContentType::Normal);
    r.push("plain", ContentType::Normal);
    r.flush();
    let out = r.take_output();
    let lines: Vec<&str> = out.lines().collect();
    assert_eq!(lines.len(), 2);
    assert!(lines[0].contains("\x1b[90m"));
    assert!(!lines[1].contains("\x1b[90m"));
    assert_eq!(plain(lines[1]), "plain");
}

#[test]
fn thinking_text_is_rendered() {
    let mut r = Renderer::new(80);
    r.push("pondering", ContentType::Thinking);
    r.flush();
    assert_eq!(plain(&r.take_output()), "pondering\n");
}

#[test]
fn line_length_counts_the_current_line() {
    let mut r = Renderer::new(80);
    assert_eq!(r.current_line_length(), 0);
    r.push("abc", ContentType::Normal);
    assert_eq!(r.current_line_length(), 3);
    r.push("\n", ContentType::Normal);
    assert_eq!(r.current_line_length(), 0);
}

#[test]
fn language_tag_of_a_fence_is_not_shown() {
    let mut r = Renderer::new(80);
    for t in ["```", "python", "\n", "print(1)", "\n", "```", "\n", "after"] {
        r.push(t, ContentType::Normal);
    }
    r.flush();
    let out = plain(&r.take_output());
    assert!(!out.contains("python"), "{:?}", out);
    assert!(out.contains("print(1)"));
    assert!(!out.contains("```"));
    assert!(out.contains("after"));
}

#[test]
fn fence_with_unicode_language_opens_a_block() {
    let mut r = Renderer::new(80);
    for t in ["```élan", "\n", "x", "\n", "```"] {
        r.push(t, ContentType::Normal);
    }
    r.flush();
    let out = plain(&r.take_output());
    assert!(!out.contains("élan"), "{:?}", out);
    assert!(!out.contains("```"));
    assert!(out.contains('x'));
}
