# Navi

A shell-like interface for working with LLMs on the command line: a prompt
(or a single request with `navi -e "..."`) that talks to a local model
server, renders its streamed markdown answer in the terminal, and runs the
tools the model asks for (reading files, globbing, searching, running shell
commands).

## Layout

- `src/` is the library, verified with Verus. Every function states what it
  returns in its contract, and the library's laws are proof functions.
  - `text.rs`: character-level text operations (`trim`, `find`, line
    splitting, decimal printing) and their specifications.
  - `render.rs`: the streaming markdown renderer (emphasis, code spans and
    blocks, headings, quotes, bullets, word wrapping).
  - `json.rs`: JSON values as the library handles them, and their
    decoding from and encoding to text through `serde_json`.
  - `llm.rs`: tool calls written as XML, the events of a streamed reply
    (with the streamed tool calls held in a `HashMap` keyed by index),
    messages in the form of API requests, and the decisions of a turn.
  - `tools.rs`: what a tool call asks for, the reports of its results, and
    the safety filter for shell commands.
  - `repl.rs`: path completion and the prompt.
- `app/main.rs` is the program around the library: the command line, the
  HTTP stream, the terminal, files and processes.
- `tests/` exercises the library on concrete values.
