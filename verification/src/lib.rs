//! A shell-like interface for working with LLMs: the verified core.
use vstd::prelude::*;

pub mod json;
pub mod llm;
pub mod render;
pub mod repl;
pub mod text;
pub mod tools;

pub use llm::{
    create_initial_history, format_messages_for_api, parse_json, parse_line, parse_xml_tool_calls,
    Message,
    StreamEvent,
};
pub use render::{ContentType, Renderer};
pub use tools::ToolCall;

verus! {
} // verus!
