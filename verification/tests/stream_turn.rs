use navi::json::{JsonNumber, JsonObject, JsonValue};
use navi::llm::{
    begin_turn, failed_reply_events, format_tool_call, line_data, push_tool_result, tool_call_json, EventAction,
    ReplyStream, ToolCallAccumulator, Turn, CONTEXT_WINDOW_LIMIT,
};
use navi::{create_initial_history, format_messages_for_api, parse_json, parse_line, ContentType, StreamEvent, ToolCall};

fn obj(pairs: Vec<(&str, JsonValue)>) -> JsonValue {
    let mut o = JsonObject::new();
    for (k, v) in pairs {
        o.insert(k.to_string(), v);
    }
    JsonValue::Object(o)
}

fn s(t: &str) -> JsonValue {
    JsonValue::String(t.to_string())
}

fn delta(d: JsonValue) -> JsonValue {
    obj(vec![("choices", JsonValue::Array(vec![obj(vec![("delta", d)])]))])
}

fn piece(index: u64, id: Option<&str>, name: Option<&str>, args: Option<&str>) -> JsonValue {
    let mut f = Vec::new();
    if let Some(n) = name {
        f.push(("name", s(n)));
    }
    if let Some(a) = args {
        f.push(("arguments", s(a)));
    }
    let mut p = vec![("index", JsonValue::Number(JsonNumber::PosInt(index)))];
    if let Some(i) = id {
        p.push(("id", s(i)));
    }
    p.push(("function", obj(f)));
    obj(p)
}

fn args_of(pairs: Vec<(&str, &str)>) -> JsonObject {
    let mut o = JsonObject::new();
    for (k, v) in pairs {
        o.insert(k.to_string(), s(v));
    }
    o
}

#[test]
fn line_payloads() {
    assert_eq!(line_data("data: {\"a\":1}"), Some("{\"a\":1}".to_string()));
    assert_eq!(line_data("data: [DONE]"), None);
    assert_eq!(line_data(": keep-alive"), None);
    assert_eq!(line_data("data: "), Some(String::new()));
}

#[test]
fn content_and_reasoning_events() {
    let mut acc = ToolCallAccumulator::new();
    let mut thinking = String::new();
    let j = delta(obj(vec![("content", s("Hello")), ("reasoning_content", s("hmm"))]));
    let events = parse_json(&j, &mut acc, &mut thinking);
    assert_eq!(events.len(), 2);
    assert!(matches!(&events[0], StreamEvent::Content(t) if t == "Hello"));
    assert!(matches!(&events[1], StreamEvent::Thinking(t) if t == "hmm"));
    assert_eq!(thinking, "hmm");
    assert_eq!(acc.len(), 0);
}

#[test]
fn usage_events() {
    let mut acc = ToolCallAccumulator::new();
    let mut thinking = String::new();
    let j = obj(vec![
        ("usage", obj(vec![("total_tokens", JsonValue::Number(JsonNumber::PosInt(1234)))])),
        ("choices", JsonValue::Array(vec![obj(vec![("delta", obj(vec![("content", s("ignored"))]))])])),
    ]);
    let events = parse_json(&j, &mut acc, &mut thinking);
    assert_eq!(events.len(), 1);
    assert!(matches!(events[0], StreamEvent::Usage { total_tokens: 1234 }));
    let zero = obj(vec![("usage", obj(vec![]))]);
    assert!(parse_json(&zero, &mut acc, &mut thinking).is_empty());
}

#[test]
fn tool_call_pieces_accumulate_by_index() {
    let mut acc = ToolCallAccumulator::new();
    let mut thinking = String::new();
    let j1 = delta(obj(vec![(
        "tool_calls",
        JsonValue::Array(vec![piece(1, Some("b"), Some("Glob"), Some("{\"pattern\"")), piece(0, Some("a"), Some("Read"), Some("{"))]),
    )]));
    let j2 = delta(obj(vec![(
        "tool_calls",
        JsonValue::Array(vec![piece(1, None, None, Some(":\"*.rs\"}")), piece(0, None, None, Some("}"))]),
    )]));
    assert!(parse_json(&j1, &mut acc, &mut thinking).is_empty());
    assert!(parse_json(&j2, &mut acc, &mut thinking).is_empty());
    assert_eq!(acc.len(), 2);
    assert_eq!(acc.argument_texts(), vec!["{}".to_string(), "{\"pattern\":\"*.rs\"}".to_string()]);
}

#[test]
fn stream_lines_and_streamed_calls() {
    let mut st = ReplyStream::new();
    let lines = st.feed("data: one\ndata: tw");
    assert_eq!(lines, vec!["data: one".to_string()]);
    let lines = st.feed("o\r\n\ndata: three");
    assert_eq!(lines, vec!["data: two\r".to_string(), String::new()]);
    assert_eq!(st.finish(), Some("data: three".to_string()));
    assert_eq!(st.finish(), None);

    let mut thinking = String::new();
    let j = delta(obj(vec![(
        "tool_calls",
        JsonValue::Array(vec![piece(0, Some("x"), Some("Read"), Some("bad")), piece(2, Some("y"), Some("Glob"), Some("{}"))]),
    )]));
    st.take_json(&j, &mut thinking);
    assert_eq!(st.argument_texts(), vec!["bad".to_string(), "{}".to_string()]);
    let calls = st.tool_calls(vec![None, Some(args_of(vec![("pattern", "*")]))]);
    assert_eq!(calls.len(), 1);
    assert_eq!(calls[0].id, "y");
    assert_eq!(calls[0].name, "Glob");
    assert_eq!(calls[0].args.get("pattern").and_then(|v| v.as_str()), Some("*"));
}

#[test]
fn xml_in_the_stream_wins() {
    let mut st = ReplyStream::new();
    st.feed("data: <tool_call><function=Bash><parameter=command>ls</parameter></function></tool_call>\n");
    let mut thinking = String::new();
    let j = delta(obj(vec![("tool_calls", JsonValue::Array(vec![piece(0, Some("z"), Some("Read"), Some("{}"))]))]));
    st.take_json(&j, &mut thinking);
    let calls = st.tool_calls(vec![Some(JsonObject::new())]);
    assert_eq!(calls.len(), 1);
    assert_eq!(calls[0].id, "call_0");
    assert_eq!(calls[0].name, "Bash");
}

#[test]
fn initial_history_and_api_form() {
    let mut history = create_initial_history("be brief");
    assert_eq!(history.len(), 1);
    assert_eq!(history[0].role, "system");
    assert!(begin_turn("hi", &mut history, 10));
    assert!(!begin_turn("again", &mut history, CONTEXT_WINDOW_LIMIT));
    push_tool_result(&mut history, "call_0", "result".to_string());
    let api = format_messages_for_api(&history);
    assert_eq!(api.len(), 4);
    assert_eq!(api[0].get("role").and_then(|v| v.as_str()), Some("system"));
    let text = api[1].get("content").and_then(|c| c.get_index(0)).and_then(|p| p.get("text")).and_then(|t| t.as_str());
    assert_eq!(text, Some("hi"));
    assert_eq!(
        api[1].get("content").and_then(|c| c.get_index(0)).and_then(|p| p.get("type")).and_then(|t| t.as_str()),
        Some("text")
    );
    assert_eq!(api[3].get("role").and_then(|v| v.as_str()), Some("tool"));
    assert_eq!(api[3].get("tool_call_id").and_then(|v| v.as_str()), Some("call_0"));
}

#[test]
fn tool_call_lines() {
    let args = args_of(vec![("filePath", "src/main.rs")]);
    assert_eq!(format_tool_call("Read", &args), "Read src/main.rs");
    assert_eq!(format_tool_call("Glob", &JsonObject::new()), "Glob <pattern>");
    assert_eq!(format_tool_call("Bash", &args_of(vec![("command", "ls")])), "Bash ls");
    assert_eq!(format_tool_call("Webfetch", &JsonObject::new()), "Webfetch <url>");
    assert_eq!(format_tool_call("Other", &args), "Other {\"filePath\":\"src/main.rs\"}");
    let two = args_of(vec![("z", "1"), ("a", "2")]);
    assert_eq!(format_tool_call("Other", &two), "Other {\"a\":\"2\",\"z\":\"1\"}");
}

#[test]
fn tool_call_record() {
    let tc = ToolCall { id: "c7".to_string(), name: "Glob".to_string(), args: args_of(vec![("pattern", "*")]) };
    let j = tool_call_json(&tc);
    assert_eq!(j.get("type").and_then(|v| v.as_str()), Some("function"));
    assert_eq!(j.get("id").and_then(|v| v.as_str()), Some("c7"));
    let f = j.get("function").unwrap();
    assert_eq!(f.get("name").and_then(|v| v.as_str()), Some("Glob"));
    assert_eq!(f.get("arguments").and_then(|v| v.as_str()), Some("{\"pattern\":\"*\"}"));
}

#[test]
fn a_reply_without_tools_ends_the_turn() {
    let mut history = create_initial_history("p");
    let mut turn = Turn::new();
    assert!(matches!(turn.on_event(StreamEvent::Thinking("let me see".to_string())), EventAction::Render(t, ContentType::Thinking) if t == "let me see"));
    assert!(matches!(turn.on_event(StreamEvent::Content("Hi ".to_string())), EventAction::Render(t, ContentType::Normal) if t == "Hi "));
    assert!(matches!(turn.on_event(StreamEvent::Content("there".to_string())), EventAction::Render(_, ContentType::Normal)));
    assert!(matches!(turn.on_event(StreamEvent::Usage { total_tokens: 9 }), EventAction::SetUsage(9)));
    assert!(matches!(turn.on_event(StreamEvent::Done), EventAction::Done));
    assert!(!turn.end_reply(&mut history));
    let last = history.last().unwrap();
    assert_eq!(last.role, "assistant");
    assert_eq!(last.content.as_deref(), Some("Hi there"));
    assert_eq!(last.thinking.as_deref(), Some("let me see"));
    assert!(last.tool_calls.is_none());
    assert!(!turn.stopped());
}

#[test]
fn tool_replies_are_recorded_and_repeats_stop_the_turn() {
    let mut history = create_initial_history("p");
    let mut turn = Turn::new();
    for round in 1..=4 {
        let tc = ToolCall { id: format!("c{}", round), name: "Bash".to_string(), args: args_of(vec![("command", "ls")]) };
        assert!(matches!(turn.on_event(StreamEvent::ToolCalls(vec![tc])), EventAction::Continue));
        assert!(turn.end_reply(&mut history));
        let last = history.last().unwrap();
        assert!(last.content.is_none());
        assert!(last.thinking.is_none());
        assert_eq!(last.tool_calls.as_ref().map(|v| v.len()), Some(1));
        assert_eq!(turn.tool_calls().len(), 1);
        turn.after_tools();
        assert_eq!(turn.stopped(), round == 4, "round {}", round);
    }
}

#[test]
fn a_different_round_clears_the_repeats() {
    let mut history = create_initial_history("p");
    let mut turn = Turn::new();
    for command in ["ls", "ls", "ls", "pwd", "pwd", "pwd"] {
        let tc = ToolCall { id: "c".to_string(), name: "Bash".to_string(), args: args_of(vec![("command", command)]) };
        turn.start_reply();
        turn.on_event(StreamEvent::ToolCalls(vec![tc]));
        turn.end_reply(&mut history);
        assert!(!turn.after_tools());
        assert!(!turn.stopped());
    }
}

#[test]
fn context_exceeded_stops_the_turn() {
    let mut turn = Turn::new();
    assert!(matches!(turn.on_event(StreamEvent::ContextExceeded), EventAction::ContextExceeded));
    assert!(turn.stopped());
    assert!(matches!(turn.on_event(StreamEvent::Error("down".to_string())), EventAction::ServerError(e) if e == "down"));
}

#[test]
fn a_reply_after_a_tool_round_starts_without_calls() {
    let mut history = create_initial_history("p");
    let mut turn = Turn::new();
    let tc = ToolCall { id: "c1".to_string(), name: "Glob".to_string(), args: args_of(vec![("pattern", "*")]) };
    turn.start_reply();
    turn.on_event(StreamEvent::ToolCalls(vec![tc]));
    assert!(turn.end_reply(&mut history));
    push_tool_result(&mut history, "c1", "a.rs".to_string());
    turn.after_tools();
    turn.start_reply();
    assert!(turn.tool_calls().is_empty());
    turn.on_event(StreamEvent::Content("done".to_string()));
    turn.on_event(StreamEvent::Done);
    assert!(!turn.end_reply(&mut history));
    assert_eq!(history.len(), 4);
    assert_eq!(history[2].role, "tool");
    assert_eq!(history[3].content.as_deref(), Some("done"));
    assert!(history[3].tool_calls.is_none());
}

#[test]
fn a_reply_ends_with_its_calls_then_done() {
    let st = ReplyStream::new();
    let events = st.closing_events(Vec::new());
    assert_eq!(events.len(), 1);
    assert!(matches!(events[0], StreamEvent::Done));

    let mut st = ReplyStream::new();
    st.feed("data: <tool_call><function=Glob><parameter=pattern>*</parameter></function></tool_call>\n");
    let events = st.closing_events(Vec::new());
    assert_eq!(events.len(), 2);
    assert!(matches!(&events[0], StreamEvent::ToolCalls(c) if c.len() == 1 && c[0].name == "Glob"));
    assert!(matches!(events[1], StreamEvent::Done));

    let events = failed_reply_events("connection refused".to_string());
    assert_eq!(events.len(), 2);
    assert!(matches!(&events[0], StreamEvent::Error(e) if e == "connection refused"));
    assert!(matches!(events[1], StreamEvent::Done));
}

#[test]
fn raw_stream_lines() {
    let mut acc = ToolCallAccumulator::new();
    let mut thinking = String::new();
    let events = parse_line(
        "data: {\"choices\":[{\"delta\":{\"content\":\"Hi\",\"reasoning_content\":\"why\"}}]}",
        &mut acc,
        &mut thinking,
    );
    assert_eq!(events.len(), 2);
    assert!(matches!(&events[0], StreamEvent::Content(t) if t == "Hi"));
    assert!(matches!(&events[1], StreamEvent::Thinking(t) if t == "why"));
    assert_eq!(thinking, "why");
    assert!(parse_line("data: [DONE]", &mut acc, &mut thinking).is_empty());
    assert!(parse_line("data: {not json", &mut acc, &mut thinking).is_empty());
    assert!(parse_line("event: ping", &mut acc, &mut thinking).is_empty());
    let events = parse_line("data: {\"usage\":{\"total_tokens\":42}}", &mut acc, &mut thinking);
    assert!(matches!(events[0], StreamEvent::Usage { total_tokens: 42 }));
    let events = parse_line(
        "data: {\"choices\":[{\"delta\":{\"tool_calls\":[{\"index\":0,\"id\":\"x\",\"function\":{\"name\":\"Glob\",\"arguments\":\"{\\\"pattern\\\":\\\"*\\\"}\"}}]}}]}",
        &mut acc,
        &mut thinking,
    );
    assert!(events.is_empty());
    assert_eq!(acc.argument_texts(), vec!["{\"pattern\":\"*\"}".to_string()]);
    assert_eq!(thinking, "why");
}

#[test]
fn a_closed_stream_decodes_streamed_arguments() {
    let mut st = ReplyStream::new();
    let mut thinking = String::new();
    for line in st.feed("data: {\"choices\":[{\"delta\":{\"tool_calls\":[{\"index\":1,\"id\":\"b\",\"function\":{\"name\":\"Glob\",\"arguments\":\"{\\\"pattern\\\":\\\"*\\\"}\"}},{\"index\":0,\"id\":\"a\",\"function\":{\"name\":\"Read\",\"arguments\":\"[1]\"}}]}}]}\n") {
        assert!(st.take_line(&line, &mut thinking).is_empty());
    }
    let events = st.close();
    assert_eq!(events.len(), 2);
    match &events[0] {
        StreamEvent::ToolCalls(c) => {
            assert_eq!(c.len(), 1);
            assert_eq!(c[0].id, "b");
            assert_eq!(c[0].args.get("pattern").and_then(|v| v.as_str()), Some("*"));
        }
        _ => panic!("expected tool calls"),
    }
    assert!(matches!(events[1], StreamEvent::Done));
}

#[test]
fn an_interrupted_reply_is_dropped() {
    let mut turn = Turn::new();
    turn.on_event(StreamEvent::Content("partial".to_string()));
    assert!(turn.interrupt());
    assert!(turn.tool_calls().is_empty());
    let mut history = create_initial_history("p");
    assert!(!turn.end_reply(&mut history));
    assert_eq!(history.last().unwrap().content.as_deref(), Some(""));
}

#[test]
fn held_calls_are_listed_by_increasing_index() {
    let mut acc = ToolCallAccumulator::new();
    let mut thinking = String::new();
    let j = delta(obj(vec![(
        "tool_calls",
        JsonValue::Array(vec![
            piece(7, Some("c"), Some("Bash"), Some("{}")),
            piece(2, Some("b"), Some("Grep"), None),
            piece(9, Some("d"), None, Some("[")),
            piece(0, Some("a"), Some("Read"), Some("{")),
            piece(2, None, Some("Glob"), Some("x")),
        ]),
    )]));
    assert!(parse_json(&j, &mut acc, &mut thinking).is_empty());
    let list = acc.sorted_entries();
    let got: Vec<(usize, String, String, String)> =
        list.into_iter().map(|c| (c.index, c.id, c.name, c.arguments)).collect();
    assert_eq!(
        got,
        vec![
            (0, "a".to_string(), "Read".to_string(), "{".to_string()),
            (2, "b".to_string(), "Glob".to_string(), "x".to_string()),
            (7, "c".to_string(), "Bash".to_string(), "{}".to_string()),
            (9, "d".to_string(), String::new(), "[".to_string()),
        ]
    );
    assert_eq!(acc.len(), 4);
}

#[test]
fn a_plain_turn_adds_the_input_and_the_reply() {
    let mut history = create_initial_history("p");
    let before = history.len();
    assert!(begin_turn("hello", &mut history, 0));
    let mut turn = Turn::new();
    turn.on_event(StreamEvent::Content("Hel".to_string()));
    turn.on_event(StreamEvent::Usage { total_tokens: 12 });
    turn.on_event(StreamEvent::Content("lo!".to_string()));
    turn.on_event(StreamEvent::Done);
    assert!(!turn.end_reply(&mut history));
    assert_eq!(history.len(), before + 2);
    assert_eq!(history[before].role, "user");
    assert_eq!(history[before].content.as_deref(), Some("hello"));
    let last = history.last().unwrap();
    assert_eq!(last.role, "assistant");
    assert_eq!(last.content.as_deref(), Some("Hello!"));
    assert!(last.thinking.is_none());
    assert!(last.tool_calls.is_none());
    assert!(last.tool_call_id.is_none());
}

#[test]
fn a_tool_round_turn_records_calls_results_and_answer() {
    let mut history = create_initial_history("p");
    assert!(begin_turn("list", &mut history, 0));
    let mut turn = Turn::new();
    turn.start_reply();
    let a = ToolCall { id: "x1".to_string(), name: "Glob".to_string(), args: args_of(vec![("pattern", "*")]) };
    let b = ToolCall { id: "x2".to_string(), name: "Read".to_string(), args: args_of(vec![("filePath", "a")]) };
    turn.on_event(StreamEvent::ToolCalls(vec![a, b]));
    turn.on_event(StreamEvent::Done);
    assert!(turn.end_reply(&mut history));
    push_tool_result(&mut history, "x1", "a".to_string());
    push_tool_result(&mut history, "x2", "text".to_string());
    assert!(!turn.after_tools());
    turn.start_reply();
    turn.on_event(StreamEvent::Content("ok".to_string()));
    turn.on_event(StreamEvent::Done);
    assert!(!turn.end_reply(&mut history));
    assert_eq!(history.len(), 6);
    assert_eq!(history[1].role, "user");
    assert_eq!(history[2].role, "assistant");
    assert!(history[2].content.is_none());
    assert_eq!(history[2].tool_calls.as_ref().map(|v| v.len()), Some(2));
    assert_eq!(history[3].tool_call_id.as_deref(), Some("x1"));
    assert_eq!(history[3].content.as_deref(), Some("a"));
    assert_eq!(history[4].tool_call_id.as_deref(), Some("x2"));
    assert_eq!(history[4].content.as_deref(), Some("text"));
    assert_eq!(history[5].content.as_deref(), Some("ok"));
    assert!(history[5].tool_calls.is_none());
}
