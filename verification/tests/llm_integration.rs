#[test]
fn test_parse_xml_tool_calls() {
    // Test basic XML tool call parsing
    let xml_content = r#"
    Some content here
    <tool_call><function=Bash><parameter=command>ls -la</parameter><parameter=description>List directory contents</parameter></function></tool_call>
    More content
    "#;

    let tool_calls = navi::parse_xml_tool_calls(xml_content);

    assert_eq!(tool_calls.len(), 1, "should parse one tool call");
    assert_eq!(
        tool_calls[0].name, "Bash",
        "should have correct function name"
    );
    assert_eq!(
        tool_calls[0].args.get("command").and_then(|v| v.as_str()),
        Some("ls -la"),
        "should extract command parameter"
    );
    assert_eq!(
        tool_calls[0]
            .args
            .get("description")
            .and_then(|v| v.as_str()),
        Some("List directory contents"),
        "should extract description parameter"
    );
}

#[test]
fn test_parse_multiple_xml_tool_calls() {
    // Test parsing multiple XML tool calls
    let xml_content = r#"
    <tool_call><function=Read><parameter=filePath>/etc/hosts</parameter></function></tool_call>
    <tool_call><function=Glob><parameter=pattern>*.rs</parameter></function></tool_call>
    "#;

    let tool_calls = navi::parse_xml_tool_calls(xml_content);

    assert_eq!(tool_calls.len(), 2, "should parse two tool calls");

    assert_eq!(tool_calls[0].name, "Read");
    assert_eq!(
        tool_calls[0].args.get("filePath").and_then(|v| v.as_str()),
        Some("/etc/hosts")
    );

    assert_eq!(tool_calls[1].name, "Glob");
    assert_eq!(
        tool_calls[1].args.get("pattern").and_then(|v| v.as_str()),
        Some("*.rs")
    );
}

#[test]
fn xml_calls_are_numbered_in_order() {
    let text = "<tool_call><function=A><parameter=x>1</parameter></function></tool_call>\
                <tool_call>no function here</tool_call>\
                <tool_call><function=B></function></tool_call>";
    let calls = navi::parse_xml_tool_calls(text);
    assert_eq!(calls.len(), 2);
    assert_eq!(calls[0].id, "call_0");
    assert_eq!(calls[0].name, "A");
    assert_eq!(calls[1].id, "call_1");
    assert_eq!(calls[1].name, "B");
    assert!(calls[1].args.get("x").is_none());
}

#[test]
fn xml_blocks_span_lines() {
    let text = "<tool_call>\n<function=Read>\n</tool_call>";
    let calls = navi::parse_xml_tool_calls(text);
    assert_eq!(calls.len(), 1);
    assert_eq!(calls[0].name, "Read");
    assert!(navi::llm::has_xml_tool_calls(text));
}

#[test]
fn xml_in_reasoning_layout_gives_trimmed_values() {
    let text = "Let me look at the file.\n<tool_call>\n<function=Read>\n<parameter=filePath>\n./src/tools.rs\n</parameter>\n<parameter=offset>\n560\n</parameter>\n</function>\n</tool_call>\n";
    let calls = navi::parse_xml_tool_calls(text);
    assert_eq!(calls.len(), 1, "should parse one tool call from reasoning");
    assert_eq!(calls[0].name, "Read", "should have Read function");
    assert_eq!(
        calls[0].args.get("filePath").and_then(|v| v.as_str()),
        Some("./src/tools.rs"),
        "should extract file path without extra whitespace"
    );
    assert_eq!(
        calls[0].args.get("offset").and_then(|v| v.as_str()),
        Some("560"),
        "should extract offset parameter"
    );
}

#[test]
fn xml_repeated_parameter_keeps_last_value() {
    let text = "<tool_call><function=Bash><parameter=command>ls</parameter><parameter=command>pwd</parameter></function></tool_call>";
    let calls = navi::parse_xml_tool_calls(text);
    assert_eq!(calls.len(), 1);
    assert_eq!(calls[0].args.get("command").and_then(|v| v.as_str()), Some("pwd"));
}

#[test]
fn xml_function_name_is_a_word() {
    // A name with a space is no `\w+` run followed by `>`.
    let text = "<tool_call><function=Re ad><parameter=a>b</parameter></function></tool_call>";
    assert!(navi::parse_xml_tool_calls(text).is_empty());
    // Unicode letters are word characters.
    let text = "<tool_call><function=Lése><parameter=clé>v</parameter></function></tool_call>";
    let calls = navi::parse_xml_tool_calls(text);
    assert_eq!(calls.len(), 1);
    assert_eq!(calls[0].name, "Lése");
    assert_eq!(calls[0].args.get("clé").and_then(|v| v.as_str()), Some("v"));
}

#[test]
fn xml_empty_block_and_lazy_close() {
    // An empty block does not match; the lazy capture then runs to the next closing tag.
    let text = "<tool_call></tool_call><function=X></tool_call>";
    let calls = navi::parse_xml_tool_calls(text);
    assert_eq!(calls.len(), 1);
    assert_eq!(calls[0].name, "X");
}

#[test]
fn has_xml_needs_both_tags() {
    assert!(!navi::llm::has_xml_tool_calls("<tool_call> only"));
    assert!(!navi::llm::has_xml_tool_calls("only </tool_call>"));
    assert!(navi::llm::has_xml_tool_calls("a </tool_call> b <tool_call>"));
}
