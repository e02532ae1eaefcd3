//! The conversation with the model: tool calls that it writes as XML in
//! its output, the events of a streamed reply, the messages of the history
//! and the decisions taken over a turn.
use vstd::prelude::*;
use crate::json::{
    entries_deep, lemma_entries_deep_index, opt_str, values_deep, view_field, view_text, view_u64,
    JsonObject, JsonValue, JsonView, json_of_text, decodes_to_object, decode_value, decode_object,
    object_text, encode_object,
};
use crate::render::ContentType;
use crate::text::{
    chars_of, contains, contains_str, decimal, find_from, find_from_exec, first_nl,
    lemma_find_from_occurs, lemma_first_nl, next_nl, occurs_at, occurs_at_exec, push_decimal,
    push_range, push_str, slice_of, string_of,
};
use crate::tools::{string_views, ToolCall};
use std::collections::HashMap;

verus! {

// ---------------------------------------------------------------------------
// The grammar of XML tool calls
// ---------------------------------------------------------------------------

/// Whether `c` is a word character of regular expressions (`\w`): by
/// Unicode's tables, a letter, a mark, a decimal digit, connector
/// punctuation or a join control.
pub uninterp spec fn word_char(c: char) -> bool;

/// `regex_syntax::is_word_character`: whether the character is in the
/// Unicode class that `\w` matches. Only that the answer depends on the
/// character alone is stated; the class is the crate's table. The crate is
/// built with its default `unicode-perl` feature, without which it panics.
#[verifier::external_body]
fn is_word_char(c: char) -> (r: bool)
    ensures
        r == word_char(c),
{
    regex_syntax::is_word_character(c)
}

/// Length of the run of word characters that starts at `i`.
pub open spec fn word_run(s: Seq<char>, i: int) -> nat
    decreases s.len() - i,
{
    if 0 <= i < s.len() && word_char(s[i]) {
        1 + word_run(s, i + 1)
    } else {
        0
    }
}

/// Where the text captured by a lazy `(.+?)` that starts at `from` ends when
/// `close` must follow it: the first occurrence of `close` after at least
/// one character. The capture may span lines.
pub open spec fn lazy_until(s: Seq<char>, close: Seq<char>, from: int) -> Option<int> {
    find_from(s, close, from + 1)
}

pub open spec fn call_open() -> Seq<char> {
    "<tool_call>"@
}

pub open spec fn call_close() -> Seq<char> {
    "</tool_call>"@
}

pub open spec fn function_open() -> Seq<char> {
    "<function="@
}

pub open spec fn param_open() -> Seq<char> {
    "<parameter="@
}

pub open spec fn param_close() -> Seq<char> {
    "</parameter>"@
}

/// `<tool_call>(.+?)</tool_call>` matches at `p`.
pub open spec fn call_at(s: Seq<char>, p: int) -> bool {
    occurs_at(s, call_open(), p) && lazy_until(s, call_close(), p + call_open().len()) is Some
}

/// Leftmost position from `from` on where a tool-call block matches.
pub open spec fn next_call(s: Seq<char>, from: int) -> Option<int>
    decreases s.len() - from,
{
    if from < 0 || from >= s.len() {
        None
    } else if call_at(s, from) {
        Some(from)
    } else {
        next_call(s, from + 1)
    }
}

/// The texts inside the tool-call blocks from `from` on: the matches of
/// `<tool_call>(.+?)</tool_call>`, leftmost first and not overlapping.
pub open spec fn call_blocks(s: Seq<char>, from: int) -> Seq<Seq<char>>
    decreases s.len() - from,
{
    match next_call(s, from) {
        Some(p) => match lazy_until(s, call_close(), p + call_open().len()) {
            Some(q) => if from < q + call_close().len() <= s.len() {
                seq![s.subrange(p + call_open().len(), q)] + call_blocks(s, q + call_close().len())
            } else {
                Seq::empty()
            },
            None => Seq::empty(),
        },
        None => Seq::empty(),
    }
}

/// `<function=(\w+)>` matches at `p`.
pub open spec fn function_at(b: Seq<char>, p: int) -> bool {
    let k = p + function_open().len();
    let e = k + word_run(b, k);
    occurs_at(b, function_open(), p) && word_run(b, k) > 0 && e < b.len() && b[e] == '>'
}

/// Leftmost position from `from` on where a function tag matches.
pub open spec fn next_function(b: Seq<char>, from: int) -> Option<int>
    decreases b.len() - from,
{
    if from < 0 || from >= b.len() {
        None
    } else if function_at(b, from) {
        Some(from)
    } else {
        next_function(b, from + 1)
    }
}

/// The name in the first function tag of a block.
pub open spec fn function_name(b: Seq<char>) -> Option<Seq<char>> {
    match next_function(b, 0) {
        Some(p) => {
            let k = p + function_open().len();
            Some(b.subrange(k, k + word_run(b, k)))
        },
        None => None,
    }
}

/// `<parameter=(\w+)>(.+?)</parameter>` matches at `p`.
pub open spec fn param_at(b: Seq<char>, p: int) -> bool {
    let k = p + param_open().len();
    let g = k + word_run(b, k);
    &&& occurs_at(b, param_open(), p)
    &&& word_run(b, k) > 0
    &&& g < b.len()
    &&& b[g] == '>'
    &&& lazy_until(b, param_close(), g + 1) is Some
}

/// Leftmost position from `from` on where a parameter matches.
pub open spec fn next_param(b: Seq<char>, from: int) -> Option<int>
    decreases b.len() - from,
{
    if from < 0 || from >= b.len() {
        None
    } else if param_at(b, from) {
        Some(from)
    } else {
        next_param(b, from + 1)
    }
}

/// The (name, value) pairs of the parameters of a block from `from` on,
/// leftmost first and not overlapping; a value is kept without the
/// whitespace around it.
pub open spec fn block_params(b: Seq<char>, from: int) -> Seq<(Seq<char>, Seq<char>)>
    decreases b.len() - from,
{
    match next_param(b, from) {
        Some(p) => {
            let k = p + param_open().len();
            let g = k + word_run(b, k);
            match lazy_until(b, param_close(), g + 1) {
                Some(q) => if from < q + param_close().len() <= b.len() {
                    seq![(b.subrange(k, g), crate::text::trim(b.subrange(g + 1, q)))] + block_params(
                        b,
                        q + param_close().len(),
                    )
                } else {
                    Seq::empty()
                },
                None => Seq::empty(),
            }
        },
        None => Seq::empty(),
    }
}

/// The calls that the blocks hold: for each block with a function tag, the
/// function's name and the block's parameters.
pub open spec fn xml_calls(blocks: Seq<Seq<char>>) -> Seq<(Seq<char>, Seq<(Seq<char>, Seq<char>)>)>
    decreases blocks.len(),
{
    if blocks.len() == 0 {
        Seq::empty()
    } else {
        let rest = xml_calls(blocks.drop_last());
        match function_name(blocks.last()) {
            Some(name) => rest.push((name, block_params(blocks.last(), 0))),
            None => rest,
        }
    }
}

/// The value of the last parameter named `key`.
pub open spec fn last_value(ps: Seq<(Seq<char>, Seq<char>)>, key: Seq<char>) -> Option<Seq<char>>
    decreases ps.len(),
{
    if ps.len() == 0 {
        None
    } else if ps.last().0 == key {
        Some(ps.last().1)
    } else {
        last_value(ps.drop_last(), key)
    }
}

/// The object maps each parameter name to its last value, as a JSON string,
/// and has no other key.
pub open spec fn holds_params(o: JsonObject, ps: Seq<(Seq<char>, Seq<char>)>) -> bool {
    &&& forall|k: Seq<char>| (#[trigger] o.get_spec(k) is Some) == (last_value(ps, k) is Some)
    &&& forall|k: Seq<char>|
        #[trigger] o.get_spec(k) is Some ==> o.get_spec(k).unwrap().str_spec() == last_value(ps, k)
}

/// Id given to the `i`-th call parsed from XML.
pub open spec fn call_id(i: int) -> Seq<char> {
    "call_"@ + decimal(i as nat)
}

/// The tool calls are the parsed ones, in order, numbered from zero.
pub open spec fn calls_match(
    calls: Seq<ToolCall>,
    parsed: Seq<(Seq<char>, Seq<(Seq<char>, Seq<char>)>)>,
) -> bool {
    &&& calls.len() == parsed.len()
    &&& forall|i: int|
        0 <= i < calls.len() ==> (#[trigger] calls[i]).id@ == call_id(i) && calls[i].name@
            == parsed[i].0 && holds_params(calls[i].args, parsed[i].1)
}

proof fn lemma_word_run(s: Seq<char>, i: int, k: int)
    requires
        0 <= i <= k <= s.len(),
        forall|j: int| i <= j < k ==> word_char(#[trigger] s[j]),
        k < s.len() ==> !word_char(s[k]),
    ensures
        word_run(s, i) == k - i,
    decreases k - i,
{
    if i < k {
        lemma_word_run(s, i + 1, k);
    }
}

proof fn lemma_next_call(s: Seq<char>, from: int, p: int)
    requires
        0 <= from <= p <= s.len(),
        forall|j: int| from <= j < p ==> !#[trigger] call_at(s, j),
        p < s.len() ==> call_at(s, p),
    ensures
        next_call(s, from) == if p < s.len() {
            Some(p)
        } else {
            None::<int>
        },
    decreases p - from,
{
    if from < p {
        lemma_next_call(s, from + 1, p);
    }
}

proof fn lemma_next_function(s: Seq<char>, from: int, p: int)
    requires
        0 <= from <= p <= s.len(),
        forall|j: int| from <= j < p ==> !#[trigger] function_at(s, j),
        p < s.len() ==> function_at(s, p),
    ensures
        next_function(s, from) == if p < s.len() {
            Some(p)
        } else {
            None::<int>
        },
    decreases p - from,
{
    if from < p {
        lemma_next_function(s, from + 1, p);
    }
}

proof fn lemma_next_param(s: Seq<char>, from: int, p: int)
    requires
        0 <= from <= p <= s.len(),
        forall|j: int| from <= j < p ==> !#[trigger] param_at(s, j),
        p < s.len() ==> param_at(s, p),
    ensures
        next_param(s, from) == if p < s.len() {
            Some(p)
        } else {
            None::<int>
        },
    decreases p - from,
{
    if from < p {
        lemma_next_param(s, from + 1, p);
    }
}

/// A lazy capture ends after its start, and `close` fits after its end.
proof fn lemma_lazy_until(s: Seq<char>, close: Seq<char>, from: int)
    requires
        0 <= from,
    ensures
        lazy_until(s, close, from) matches Some(q) ==> from < q && q + close.len() <= s.len(),
{
    lemma_find_from_occurs(s, close, from + 1);
}

/// A non-empty run of word characters (what `\w+` matches).
pub open spec fn is_word(t: Seq<char>) -> bool {
    t.len() > 0 && forall|j: int| 0 <= j < t.len() ==> word_char(#[trigger] t[j])
}

proof fn lemma_word_run_chars(s: Seq<char>, i: int)
    ensures
        word_run(s, i) > 0 ==> 0 <= i && i + word_run(s, i) <= s.len(),
        forall|j: int| i <= j < i + word_run(s, i) ==> word_char(#[trigger] s[j]),
    decreases s.len() - i,
{
    if 0 <= i < s.len() && word_char(s[i]) {
        lemma_word_run_chars(s, i + 1);
    }
}

proof fn lemma_next_call_found(s: Seq<char>, from: int)
    ensures
        next_call(s, from) matches Some(p) ==> call_at(s, p) && from <= p,
    decreases s.len() - from,
{
    if !(from < 0 || from >= s.len()) && !call_at(s, from) {
        lemma_next_call_found(s, from + 1);
    }
}

proof fn lemma_next_function_found(b: Seq<char>, from: int)
    ensures
        next_function(b, from) matches Some(p) ==> function_at(b, p) && from <= p,
    decreases b.len() - from,
{
    if !(from < 0 || from >= b.len()) && !function_at(b, from) {
        lemma_next_function_found(b, from + 1);
    }
}

proof fn lemma_function_name_word(b: Seq<char>)
    ensures
        function_name(b) matches Some(n) ==> is_word(n),
{
    lemma_next_function_found(b, 0);
    if let Some(p) = next_function(b, 0) {
        let k = p + function_open().len();
        lemma_word_run_chars(b, k);
        let n = b.subrange(k, k + word_run(b, k));
        assert forall|j: int| 0 <= j < n.len() implies word_char(#[trigger] n[j]) by {
            assert(n[j] == b[k + j]);
        }
    }
}

proof fn lemma_xml_calls(blocks: Seq<Seq<char>>)
    ensures
        xml_calls(blocks).len() <= blocks.len(),
        forall|i: int| 0 <= i < xml_calls(blocks).len() ==> is_word(#[trigger] xml_calls(blocks)[i].0),
    decreases blocks.len(),
{
    if blocks.len() > 0 {
        lemma_xml_calls(blocks.drop_last());
        lemma_function_name_word(blocks.last());
    }
}

/// A text without both an opening and a closing tool-call tag gives no
/// call; every call parsed is numbered in order, is named by a non-empty
/// run of word characters, and has only JSON strings as arguments.
pub proof fn law_xml_call_shape(content: Seq<char>, calls: Seq<ToolCall>)
    requires
        calls_match(calls, xml_calls(call_blocks(content, 0))),
    ensures
        !(contains(content, call_open()) && contains(content, call_close())) ==> calls.len() == 0,
        forall|i: int|
            0 <= i < calls.len() ==> (#[trigger] calls[i]).id@ == call_id(i) && is_word(
                calls[i].name@,
            ),
        forall|i: int, k: Seq<char>|
            0 <= i < calls.len() && (#[trigger] calls[i].args.get_spec(k)) is Some ==> calls[i].args.get_spec(
                k,
            ).unwrap().str_spec() is Some,
{
    let blocks = call_blocks(content, 0);
    lemma_xml_calls(blocks);
    if calls.len() > 0 {
        lemma_next_call_found(content, 0);
        let p = next_call(content, 0)->0;
        let q = lazy_until(content, call_close(), p + call_open().len())->0;
        lemma_find_from_occurs(content, call_open(), 0);
        lemma_find_from_occurs(content, call_close(), 0);
        lemma_find_from_occurs(content, call_close(), p + call_open().len() + 1);
        assert(occurs_at(content, call_open(), p));
        assert(occurs_at(content, call_close(), q));
    }
    assert forall|i: int| 0 <= i < calls.len() implies (#[trigger] calls[i]).id@ == call_id(i) && is_word(
        calls[i].name@,
    ) by {
        assert(is_word(xml_calls(blocks)[i].0));
    }
    assert forall|i: int, k: Seq<char>|
        0 <= i < calls.len() && (#[trigger] calls[i].args.get_spec(k)) is Some implies calls[i].args.get_spec(
            k,
        ).unwrap().str_spec() is Some by {
        assert(holds_params(calls[i].args, xml_calls(blocks)[i].1));
        assert(last_value(xml_calls(blocks)[i].1, k) is Some);
    }
}

/// End of the run of word characters that starts at `i`.
fn word_run_exec(s: &Vec<char>, i: usize) -> (k: usize)
    requires
        i <= s@.len(),
    ensures
        i <= k <= s@.len(),
        k - i == word_run(s@, i as int),
{
    let mut k = i;
    while k < s.len() && is_word_char(s[k])
        invariant
            i <= k <= s@.len(),
            forall|j: int| i <= j < k ==> word_char(#[trigger] s@[j]),
        decreases s@.len() - k,
    {
        k += 1;
    }
    proof {
        lemma_word_run(s@, i as int, k as int);
    }
    k
}

/// See `lazy_until`.
fn lazy_until_exec(s: &Vec<char>, close: &Vec<char>, from: usize) -> (r: Option<usize>)
    ensures
        match r {
            Some(q) => lazy_until(s@, close@, from as int) == Some(q as int) && from < q && q
                + close@.len() <= s@.len(),
            None => lazy_until(s@, close@, from as int) is None,
        },
{
    proof {
        lemma_lazy_until(s@, close@, from as int);
    }
    if from >= s.len() {
        return None;
    }
    find_from_exec(s, close, from + 1)
}

/// Leftmost tool-call block from `from` on: where it starts and where its
/// text ends.
fn find_call(s: &Vec<char>, open: &Vec<char>, close: &Vec<char>, from: usize) -> (r: Option<
    (usize, usize),
>)
    requires
        open@ == call_open(),
        close@ == call_close(),
        from <= s@.len(),
    ensures
        match r {
            Some((p, q)) => {
                &&& next_call(s@, from as int) == Some(p as int)
                &&& lazy_until(s@, call_close(), p + call_open().len()) == Some(q as int)
                &&& from <= p
                &&& p + call_open().len() < q
                &&& q + call_close().len() <= s@.len()
            },
            None => next_call(s@, from as int) is None,
        },
{
    let mut p = from;
    while p < s.len()
        invariant
            from <= p <= s@.len(),
            open@ == call_open(),
            close@ == call_close(),
            forall|j: int| from <= j < p ==> !#[trigger] call_at(s@, j),
        decreases s@.len() - p,
    {
        if occurs_at_exec(s, open, p) {
            if let Some(q) = lazy_until_exec(s, close, p + open.len()) {
                proof {
                    lemma_next_call(s@, from as int, p as int);
                }
                return Some((p, q));
            }
        }
        p += 1;
    }
    proof {
        lemma_next_call(s@, from as int, p as int);
    }
    None
}

/// First function tag of a block: where it starts and where its name ends.
fn find_function(b: &Vec<char>, open: &Vec<char>) -> (r: Option<(usize, usize)>)
    requires
        open@ == function_open(),
    ensures
        match r {
            Some((p, e)) => next_function(b@, 0) == Some(p as int) && p + function_open().len()
                <= e < b@.len() && e == p + function_open().len() + word_run(
                b@,
                p + function_open().len(),
            ),
            None => next_function(b@, 0) is None,
        },
{
    let mut p: usize = 0;
    while p < b.len()
        invariant
            p <= b@.len(),
            open@ == function_open(),
            forall|j: int| 0 <= j < p ==> !#[trigger] function_at(b@, j),
        decreases b@.len() - p,
    {
        if occurs_at_exec(b, open, p) {
            let k = p + open.len();
            let e = word_run_exec(b, k);
            if e > k && e < b.len() && b[e] == '>' {
                proof {
                    lemma_next_function(b@, 0, p as int);
                }
                return Some((p, e));
            }
        }
        p += 1;
    }
    proof {
        lemma_next_function(b@, 0, p as int);
    }
    None
}

/// Leftmost parameter of a block from `from` on: where it starts, where its
/// name ends and where its value ends.
fn find_param(b: &Vec<char>, open: &Vec<char>, close: &Vec<char>, from: usize) -> (r: Option<
    (usize, usize, usize),
>)
    requires
        open@ == param_open(),
        close@ == param_close(),
        from <= b@.len(),
    ensures
        match r {
            Some((p, g, q)) => {
                &&& next_param(b@, from as int) == Some(p as int)
                &&& from <= p
                &&& g == p + param_open().len() + word_run(b@, p + param_open().len())
                &&& lazy_until(b@, param_close(), g + 1) == Some(q as int)
                &&& g < q
                &&& q + param_close().len() <= b@.len()
            },
            None => next_param(b@, from as int) is None,
        },
{
    let mut p = from;
    while p < b.len()
        invariant
            from <= p <= b@.len(),
            open@ == param_open(),
            close@ == param_close(),
            forall|j: int| from <= j < p ==> !#[trigger] param_at(b@, j),
        decreases b@.len() - p,
    {
        if occurs_at_exec(b, open, p) {
            let k = p + open.len();
            let g = word_run_exec(b, k);
            if g > k && g < b.len() && b[g] == '>' {
                if let Some(q) = lazy_until_exec(b, close, g + 1) {
                    proof {
                        lemma_next_param(b@, from as int, p as int);
                    }
                    return Some((p, g, q));
                }
            }
        }
        p += 1;
    }
    proof {
        lemma_next_param(b@, from as int, p as int);
    }
    None
}

/// The parameters of a block as an object of JSON strings.
fn parse_params(b: &Vec<char>) -> (o: JsonObject)
    ensures
        holds_params(o, block_params(b@, 0)),
{
    let open = chars_of("<parameter=");
    let close = chars_of("</parameter>");
    let mut o = JsonObject::new();
    let mut pos: usize = 0;
    let ghost mut done: Seq<(Seq<char>, Seq<char>)> = Seq::empty();
    let len = b.len();
    assert(done + block_params(b@, 0) =~= block_params(b@, 0));
    loop
        invariant
            len == b@.len(),
            pos <= b@.len(),
            open@ == param_open(),
            close@ == param_close(),
            done + block_params(b@, pos as int) == block_params(b@, 0),
            holds_params(o, done),
        ensures
            holds_params(o, block_params(b@, 0)),
        decreases b@.len() - pos,
    {
        match find_param(b, &open, &close, pos) {
            Some((p, g, q)) => {
                let next = q + close.len();
                let k = p + open.len();
                let key_chars = slice_of(b, k, g);
                let raw_value = slice_of(b, g + 1, q);
                let value_chars = crate::text::trim_chars(&raw_value);
                let key = string_of(&key_chars);
                let value = string_of(&value_chars);
                let ghost kv = key@;
                let ghost vv = value@;
                let ghost before = o;
                o.insert(key, JsonValue::String(value));
                proof {
                    assert(block_params(b@, pos as int) == seq![(kv, vv)] + block_params(
                        b@,
                        next as int,
                    ));
                    let nd = done.push((kv, vv));
                    assert(nd.drop_last() =~= done);
                    assert(nd + block_params(b@, next as int) =~= done + (seq![(kv, vv)]
                        + block_params(b@, next as int)));
                    assert forall|kk: Seq<char>|
                        (#[trigger] o.get_spec(kk) is Some) == (last_value(nd, kk) is Some) by {
                        if kk != kv {
                            assert(o.get_spec(kk) == before.get_spec(kk));
                        }
                    }
                    assert forall|kk: Seq<char>| #[trigger]
                        o.get_spec(kk) is Some implies o.get_spec(kk).unwrap().str_spec()
                        == last_value(nd, kk) by {
                        if kk != kv {
                            assert(o.get_spec(kk) == before.get_spec(kk));
                        }
                    }
                    done = nd;
                }
                pos = next;
            },
            None => {
                assert(block_params(b@, pos as int) =~= Seq::<(Seq<char>, Seq<char>)>::empty());
                assert(done + block_params(b@, pos as int) =~= done);
                break ;
            },
        }
    }
    o
}

/// Whether the text holds both an opening and a closing tool-call tag.
pub fn has_xml_tool_calls(content: &str) -> (r: bool)
    ensures
        r == (contains(content@, call_open()) && contains(content@, call_close())),
{
    let s = chars_of(content);
    contains_str(&s, "<tool_call>") && contains_str(&s, "</tool_call>")
}

/// Parses the tool calls that a reply writes as XML:
/// `<tool_call><function=Name><parameter=key>value</parameter>...</function></tool_call>`.
/// Blocks and parameter values may span lines. Each block with a function
/// tag gives one call, named `call_0`, `call_1`, ... in order, whose
/// arguments are its parameters as JSON strings, trimmed of the whitespace
/// around them.
pub fn parse_xml_tool_calls(content: &str) -> (calls: Vec<ToolCall>)
    ensures
        calls_match(calls@, xml_calls(call_blocks(content@, 0))),
{
    let s = chars_of(content);
    let open = chars_of("<tool_call>");
    let close = chars_of("</tool_call>");
    let fopen = chars_of("<function=");
    let mut calls: Vec<ToolCall> = Vec::new();
    let mut pos: usize = 0;
    let ghost mut done: Seq<Seq<char>> = Seq::empty();
    let len = s.len();
    assert(done + call_blocks(s@, 0) =~= call_blocks(s@, 0));
    loop
        invariant
            len == s@.len(),
            pos <= s@.len(),
            s@ == content@,
            open@ == call_open(),
            close@ == call_close(),
            fopen@ == function_open(),
            done + call_blocks(s@, pos as int) == call_blocks(s@, 0),
            calls_match(calls@, xml_calls(done)),
        ensures
            calls_match(calls@, xml_calls(call_blocks(content@, 0))),
        decreases s@.len() - pos,
    {
        match find_call(&s, &open, &close, pos) {
            Some((p, q)) => {
                let block = slice_of(&s, p + open.len(), q);
                let next = q + close.len();
                let ghost nd = done.push(block@);
                proof {
                    assert(call_blocks(s@, pos as int) == seq![block@] + call_blocks(
                        s@,
                        next as int,
                    ));
                    assert(nd.drop_last() =~= done);
                    assert(nd + call_blocks(s@, next as int) =~= done + (seq![block@]
                        + call_blocks(s@, next as int)));
                }
                match find_function(&block, &fopen) {
                    Some((fp, e)) => {
                        let name_chars = slice_of(&block, fp + fopen.len(), e);
                        let name = string_of(&name_chars);
                        let args = parse_params(&block);
                        let mut id = String::new();
                        push_str(&mut id, "call_");
                        push_decimal(&mut id, calls.len());
                        let ghost old_calls = calls@;
                        calls.push(ToolCall { id, name, args });
                        proof {
                            let parsed = xml_calls(nd);
                            assert(parsed == xml_calls(done).push((name@, block_params(block@, 0))));
                            assert forall|i: int| 0 <= i < calls@.len() implies (#[trigger] calls@[i]).id@
                                == call_id(i) && calls@[i].name@ == parsed[i].0 && holds_params(
                                calls@[i].args,
                                parsed[i].1,
                            ) by {
                                if i < old_calls.len() {
                                    assert(calls@[i] == old_calls[i]);
                                }
                            }
                        }
                    },
                    None => {
                        proof {
                            assert(xml_calls(nd) == xml_calls(done));
                        }
                    },
                }
                proof {
                    done = nd;
                }
                pos = next;
            },
            None => {
                assert(call_blocks(s@, pos as int) =~= Seq::<Seq<char>>::empty());
                assert(done + call_blocks(s@, pos as int) =~= done);
                break ;
            },
        }
    }
    calls
}

// ---------------------------------------------------------------------------
// Streamed replies
// ---------------------------------------------------------------------------

/// What a streamed reply delivers, one event at a time.
pub enum StreamEvent {
    Content(String),
    Thinking(String),
    ToolCalls(Vec<ToolCall>),
    Usage { total_tokens: usize },
    ContextExceeded,
    Error(String),
    Done,
}

/// What an event carries, with texts as character sequences.
pub enum EventView {
    Content(Seq<char>),
    Thinking(Seq<char>),
    ToolCalls(Seq<ToolCall>),
    Usage(usize),
    ContextExceeded,
    Error(Seq<char>),
    Done,
}

impl View for StreamEvent {
    type V = EventView;

    open spec fn view(&self) -> EventView {
        match self {
            StreamEvent::Content(s) => EventView::Content(s@),
            StreamEvent::Thinking(s) => EventView::Thinking(s@),
            StreamEvent::ToolCalls(v) => EventView::ToolCalls(v@),
            StreamEvent::Usage { total_tokens } => EventView::Usage(*total_tokens),
            StreamEvent::ContextExceeded => EventView::ContextExceeded,
            StreamEvent::Error(s) => EventView::Error(s@),
            StreamEvent::Done => EventView::Done,
        }
    }
}

/// Views of a sequence of events.
pub open spec fn event_views(v: Seq<StreamEvent>) -> Seq<EventView> {
    v.map_values(|e: StreamEvent| e@)
}

/// A tool call as its pieces stream in: its index, and the id, the name and
/// the text of the arguments received so far.
pub struct PartialCall {
    pub index: usize,
    pub id: String,
    pub name: String,
    pub arguments: String,
}

/// The view of a partial call.
pub open spec fn partial_view(c: PartialCall) -> (usize, Seq<char>, Seq<char>, Seq<char>) {
    (c.index, c.id@, c.name@, c.arguments@)
}

/// The entries are ordered by index, each index once.
pub open spec fn indices_sorted(s: Seq<(usize, Seq<char>, Seq<char>, Seq<char>)>) -> bool {
    forall|i: int, j: int| 0 <= i < j < s.len() ==> (#[trigger] s[i]).0 < (#[trigger] s[j]).0
}

/// Where an entry with index `idx` stands or would stand: the first entry
/// whose index is not below it.
pub open spec fn entry_pos(s: Seq<(usize, Seq<char>, Seq<char>, Seq<char>)>, idx: usize) -> int
    decreases s.len(),
{
    if s.len() == 0 || s[0].0 >= idx {
        0
    } else {
        1 + entry_pos(s.drop_first(), idx)
    }
}

/// The text of an optional string slice.
pub open spec fn opt_view(o: Option<&str>) -> Option<Seq<char>> {
    match o {
        Some(x) => Some(x@),
        None => None,
    }
}

/// The entries after a piece of the call with index `idx` arrived: the
/// entry is made, empty, if it is new; a given id or name replaces the one
/// it had; a given argument text is appended to what it had.
pub open spec fn acc_update(
    s: Seq<(usize, Seq<char>, Seq<char>, Seq<char>)>,
    idx: usize,
    id: Option<Seq<char>>,
    name: Option<Seq<char>>,
    args: Option<Seq<char>>,
) -> Seq<(usize, Seq<char>, Seq<char>, Seq<char>)> {
    let p = entry_pos(s, idx);
    let found = p < s.len() && s[p].0 == idx;
    let before = if found {
        s[p]
    } else {
        (idx, Seq::<char>::empty(), Seq::<char>::empty(), Seq::<char>::empty())
    };
    let after = (
        idx,
        match id {
            Some(x) => x,
            None => before.1,
        },
        match name {
            Some(x) => x,
            None => before.2,
        },
        match args {
            Some(x) => before.3 + x,
            None => before.3,
        },
    );
    if found {
        s.update(p, after)
    } else {
        s.insert(p, after)
    }
}

/// The entries after one element of a streamed `tool_calls` array: an
/// element without a non-negative integer `index` changes nothing.
pub open spec fn acc_step(s: Seq<(usize, Seq<char>, Seq<char>, Seq<char>)>, tc: JsonView) -> Seq<
    (usize, Seq<char>, Seq<char>, Seq<char>),
> {
    match view_u64(tc.field("index"@)) {
        Some(i) => acc_update(
            s,
            i as usize,
            view_text(tc.field("id"@)),
            view_text(view_field(tc.field("function"@), "name"@)),
            view_text(view_field(tc.field("function"@), "arguments"@)),
        ),
        None => s,
    }
}

/// The entries after the elements of a `tool_calls` array, in order.
pub open spec fn acc_apply(s: Seq<(usize, Seq<char>, Seq<char>, Seq<char>)>, tcs: Seq<JsonView>) -> Seq<
    (usize, Seq<char>, Seq<char>, Seq<char>),
>
    decreases tcs.len(),
{
    if tcs.len() == 0 {
        s
    } else {
        acc_step(acc_apply(s, tcs.drop_last()), tcs.last())
    }
}

/// The id, name and argument text of the first entry with index `k`.
pub open spec fn entry_of(s: Seq<(usize, Seq<char>, Seq<char>, Seq<char>)>, k: usize) -> Option<
    (Seq<char>, Seq<char>, Seq<char>),
>
    decreases s.len(),
{
    if s.len() == 0 {
        None
    } else if s[0].0 == k {
        Some((s[0].1, s[0].2, s[0].3))
    } else {
        entry_of(s.drop_first(), k)
    }
}

proof fn lemma_entry_pos_facts(s: Seq<(usize, Seq<char>, Seq<char>, Seq<char>)>, idx: usize)
    ensures
        0 <= entry_pos(s, idx) <= s.len(),
        forall|j: int| 0 <= j < entry_pos(s, idx) ==> (#[trigger] s[j]).0 < idx,
        entry_pos(s, idx) < s.len() ==> s[entry_pos(s, idx)].0 >= idx,
    decreases s.len(),
{
    if !(s.len() == 0 || s[0].0 >= idx) {
        lemma_entry_pos_facts(s.drop_first(), idx);
        assert forall|j: int| 0 <= j < entry_pos(s, idx) implies (#[trigger] s[j]).0 < idx by {
            if j > 0 {
                assert(s[j] == s.drop_first()[j - 1]);
            }
        }
    }
}

proof fn lemma_entry_of_at(s: Seq<(usize, Seq<char>, Seq<char>, Seq<char>)>, k: usize, i: int)
    requires
        0 <= i < s.len(),
        s[i].0 == k,
        forall|j: int| 0 <= j < i ==> (#[trigger] s[j]).0 != k,
    ensures
        entry_of(s, k) == Some((s[i].1, s[i].2, s[i].3)),
    decreases i,
{
    if i > 0 {
        assert forall|j: int| 0 <= j < i - 1 implies (#[trigger] s.drop_first()[j]).0 != k by {
            assert(s.drop_first()[j] == s[j + 1]);
        }
        lemma_entry_of_at(s.drop_first(), k, i - 1);
    }
}

proof fn lemma_entry_of_none(s: Seq<(usize, Seq<char>, Seq<char>, Seq<char>)>, k: usize)
    requires
        forall|j: int| 0 <= j < s.len() ==> (#[trigger] s[j]).0 != k,
    ensures
        entry_of(s, k) is None,
    decreases s.len(),
{
    if s.len() > 0 {
        assert forall|j: int| 0 <= j < s.len() - 1 implies (#[trigger] s.drop_first()[j]).0 != k by {
            assert(s.drop_first()[j] == s[j + 1]);
        }
        lemma_entry_of_none(s.drop_first(), k);
    }
}

/// In ordered entries, the entry of index `k` is the one at the position
/// that holds `k`, if any.
proof fn lemma_entry_of_sorted(s: Seq<(usize, Seq<char>, Seq<char>, Seq<char>)>, k: usize)
    requires
        indices_sorted(s),
    ensures
        (exists|i: int| 0 <= i < s.len() && #[trigger] s[i].0 == k) ==> (entry_of(s, k) matches Some(
            e,
        ) && exists|i: int|
            0 <= i < s.len() && #[trigger] s[i].0 == k && e == (s[i].1, s[i].2, s[i].3)),
        !(exists|i: int| 0 <= i < s.len() && #[trigger] s[i].0 == k) ==> entry_of(s, k) is None,
{
    if exists|i: int| 0 <= i < s.len() && #[trigger] s[i].0 == k {
        let i = choose|i: int| 0 <= i < s.len() && #[trigger] s[i].0 == k;
        assert forall|j: int| 0 <= j < i implies (#[trigger] s[j]).0 != k by {
            assert(s[j].0 < s[i].0);
        }
        lemma_entry_of_at(s, k, i);
    } else {
        assert forall|j: int| 0 <= j < s.len() implies (#[trigger] s[j]).0 != k by {}
        lemma_entry_of_none(s, k);
    }
}

/// Read as a map from index to (id, name, argument text), the ordered
/// entries take a piece of call `idx` as a map update: the entry
/// of `idx` is made empty if new, a given id or name replaces its own, a
/// given argument text is appended to its own; every other index keeps its
/// entry; the entries stay ordered by index, each index once.
pub proof fn law_acc_update_as_map(
    s: Seq<(usize, Seq<char>, Seq<char>, Seq<char>)>,
    idx: usize,
    id: Option<Seq<char>>,
    name: Option<Seq<char>>,
    args: Option<Seq<char>>,
    k: usize,
)
    requires
        indices_sorted(s),
    ensures
        indices_sorted(acc_update(s, idx, id, name, args)),
        ({
            let before = match entry_of(s, idx) {
                Some(e) => e,
                None => (Seq::<char>::empty(), Seq::<char>::empty(), Seq::<char>::empty()),
            };
            entry_of(acc_update(s, idx, id, name, args), idx) == Some(
                (
                    match id {
                        Some(x) => x,
                        None => before.0,
                    },
                    match name {
                        Some(x) => x,
                        None => before.1,
                    },
                    match args {
                        Some(x) => before.2 + x,
                        None => before.2,
                    },
                ),
            )
        }),
        k != idx ==> entry_of(acc_update(s, idx, id, name, args), k) == entry_of(s, k),
{
    lemma_entry_pos_facts(s, idx);
    let p = entry_pos(s, idx);
    let found = p < s.len() && s[p].0 == idx;
    let r = acc_update(s, idx, id, name, args);
    // Positions from `p` on in `s` hold indices above `idx`, unless found.
    assert forall|j: int| p <= j < s.len() && !(found && j == p) implies (#[trigger] s[j]).0 > idx by {
        if j > p {
            assert(s[p].0 < s[j].0);
        }
    }
    if found {
        assert(r.len() == s.len());
        assert forall|j: int| 0 <= j < r.len() && j != p implies #[trigger] r[j] == s[j] by {}
        assert(r[p].0 == idx);
    } else {
        assert(r.len() == s.len() + 1);
        assert forall|j: int| 0 <= j < p implies #[trigger] r[j] == s[j] by {}
        assert forall|j: int| p < j < r.len() implies #[trigger] r[j] == s[j - 1] by {}
        assert(r[p].0 == idx);
    }
    assert forall|i: int, j: int| 0 <= i < j < r.len() implies (#[trigger] r[i]).0 < (#[trigger] r[j]).0 by {
        if found {
            if i == p {
                assert(s[j].0 > idx);
            } else if j == p {
                assert(s[i].0 < idx);
            } else {
                assert(s[i].0 < s[j].0);
            }
        } else {
            if i == p {
                assert(s[j - 1].0 > idx);
            } else if j == p {
                assert(s[i].0 < idx);
            } else if i < p && j > p {
                assert(s[i].0 < idx && s[j - 1].0 > idx);
            } else if i < p {
                assert(s[i].0 < s[j].0);
            } else {
                assert(s[i - 1].0 < s[j - 1].0);
            }
        }
    }
    lemma_entry_of_sorted(s, idx);
    lemma_entry_of_sorted(r, idx);
    if found {
        assert(exists|i: int| 0 <= i < s.len() && #[trigger] s[i].0 == idx) by {
            assert(s[p].0 == idx);
        }
    } else {
        assert(!(exists|i: int| 0 <= i < s.len() && #[trigger] s[i].0 == idx)) by {
            if exists|i: int| 0 <= i < s.len() && #[trigger] s[i].0 == idx {
                let i = choose|i: int| 0 <= i < s.len() && #[trigger] s[i].0 == idx;
                if i < p {
                    assert(s[i].0 < idx);
                } else {
                    assert(s[i].0 > idx);
                }
            }
        }
    }
    assert(exists|i: int| 0 <= i < r.len() && #[trigger] r[i].0 == idx) by {
        assert(r[p].0 == idx);
    }
    if k != idx {
        lemma_entry_of_sorted(s, k);
        lemma_entry_of_sorted(r, k);
        // An entry of `k` in `s` is one in `r`, and the other way round.
        if exists|i: int| 0 <= i < s.len() && #[trigger] s[i].0 == k {
            let i = choose|i: int| 0 <= i < s.len() && #[trigger] s[i].0 == k;
            let ri = if found || i < p {
                i
            } else {
                i + 1
            };
            assert(r[ri] == s[i]);
            assert(r[ri].0 == k);
        }
        if exists|i: int| 0 <= i < r.len() && #[trigger] r[i].0 == k {
            let i = choose|i: int| 0 <= i < r.len() && #[trigger] r[i].0 == k;
            assert(i != p);
            let si = if found || i < p {
                i
            } else {
                i - 1
            };
            assert(s[si] == r[i]);
            assert(s[si].0 == k);
        }
    }
}

/// The tool calls of a reply being streamed, keyed by their index: the id,
/// the name and the argument text received so far. Beside the map stands,
/// as ghost state, the same entries listed in increasing index order.
pub struct ToolCallAccumulator {
    calls: HashMap<usize, (String, String, String)>,
    order: Ghost<Seq<(usize, Seq<char>, Seq<char>, Seq<char>)>>,
}

/// The texts of a held entry.
pub open spec fn held_view(t: (String, String, String)) -> (Seq<char>, Seq<char>, Seq<char>) {
    (t.0@, t.1@, t.2@)
}

/// Every element of `s` is below every later one.
pub open spec fn strictly_increasing(s: Seq<usize>) -> bool {
    forall|i: int, j: int| 0 <= i < j < s.len() ==> (#[trigger] s[i]) < (#[trigger] s[j])
}

/// The indices of the entries, in order.
pub open spec fn entry_indices(s: Seq<(usize, Seq<char>, Seq<char>, Seq<char>)>) -> Seq<usize> {
    s.map_values(|e: (usize, Seq<char>, Seq<char>, Seq<char>)| e.0)
}

/// Two increasing sequences with the same elements are the same.
proof fn lemma_increasing_unique(a: Seq<usize>, b: Seq<usize>)
    requires
        strictly_increasing(a),
        strictly_increasing(b),
        forall|x: usize| a.contains(x) <==> b.contains(x),
    ensures
        a == b,
    decreases a.len(),
{
    if a.len() == 0 {
        if b.len() > 0 {
            assert(b.contains(b[0]));
        }
        assert(a =~= b);
    } else {
        assert(a.contains(a[0]));
        assert(b.len() > 0);
        assert(b.contains(b[0]));
        let i = choose|i: int| 0 <= i < a.len() && a[i] == b[0];
        let j = choose|j: int| 0 <= j < b.len() && b[j] == a[0];
        if i > 0 {
            assert(a[0] < a[i]);
        }
        if j > 0 {
            assert(b[0] < b[j]);
        }
        assert(a[0] == b[0]);
        let a1 = a.drop_first();
        let b1 = b.drop_first();
        assert forall|x: usize| a1.contains(x) <==> b1.contains(x) by {
            if a1.contains(x) {
                let k = choose|k: int| 0 <= k < a1.len() && a1[k] == x;
                assert(a[k + 1] == x && a[0] < a[k + 1]);
                assert(b.contains(x));
                let m = choose|m: int| 0 <= m < b.len() && b[m] == x;
                assert(m != 0);
                assert(b1[m - 1] == x);
            }
            if b1.contains(x) {
                let k = choose|k: int| 0 <= k < b1.len() && b1[k] == x;
                assert(b[k + 1] == x && b[0] < b[k + 1]);
                assert(a.contains(x));
                let m = choose|m: int| 0 <= m < a.len() && a[m] == x;
                assert(m != 0);
                assert(a1[m - 1] == x);
            }
        }
        assert forall|p: int, q: int| 0 <= p < q < a1.len() implies (#[trigger] a1[p]) < (
        #[trigger] a1[q]) by {
            assert(a[p + 1] < a[q + 1]);
        }
        assert forall|p: int, q: int| 0 <= p < q < b1.len() implies (#[trigger] b1[p]) < (
        #[trigger] b1[q]) by {
            assert(b[p + 1] < b[q + 1]);
        }
        lemma_increasing_unique(a1, b1);
        assert(a =~= b1.insert(0, b[0]));
        assert(b =~= b1.insert(0, b[0]));
    }
}

impl ToolCallAccumulator {
    /// The entries: index, id, name and argument text, in increasing index
    /// order.
    pub closed spec fn entries(&self) -> Seq<(usize, Seq<char>, Seq<char>, Seq<char>)> {
        self.order@
    }

    /// The map holds exactly the entries: an index is a key if and only if
    /// it has an entry, and its value is that entry's texts.
    pub closed spec fn holds_entries(&self) -> bool {
        &&& forall|k: usize| #[trigger]
            self.calls@.contains_key(k) <==> entry_of(self.order@, k) is Some
        &&& forall|k: usize|
            self.calls@.contains_key(k) ==> entry_of(self.order@, k) == Some(
                held_view(#[trigger] self.calls@[k]),
            )
    }

    /// The entries are ordered by index, each index once, and the map holds
    /// them.
    pub open spec fn wf(&self) -> bool {
        indices_sorted(self.entries()) && self.holds_entries()
    }

    /// No tool call yet.
    pub fn new() -> (r: ToolCallAccumulator)
        ensures
            r.wf(),
            r.entries() == Seq::<(usize, Seq<char>, Seq<char>, Seq<char>)>::empty(),
    {
        let r = ToolCallAccumulator { calls: HashMap::new(), order: Ghost(Seq::empty()) };
        assert forall|k: usize| #[trigger] r.calls@.contains_key(k) <==> entry_of(r.order@, k) is Some by {
            lemma_entry_of_none(r.order@, k);
        }
        r
    }

    /// The indices held, in increasing order.
    fn sorted_indices(&self) -> (ks: Vec<usize>)
        requires
            self.wf(),
        ensures
            ks@ == entry_indices(self.entries()),
    {
        broadcast use vstd::std_specs::hash::group_hash_axioms;

        let ghost all: Seq<usize> = vstd::std_specs::iter::IteratorSpec::remaining(
            &vstd::std_specs::hash::spec_keys_iter(&self.calls),
        ).unref();
        let mut ks: Vec<usize> = Vec::new();
        for kr in it: self.calls.keys()
            invariant
                it.seq().unref() == all,
                all.to_set() == self.calls@.dom(),
                all.no_duplicates(),
                strictly_increasing(ks@),
                forall|x: usize| ks@.contains(x) <==> all.take(it.index()).contains(x),
        {
            let k = *kr;
            let ghost before = ks@;
            let ghost idx = it.index();
            proof {
                assert(all[idx] == k);
                if before.contains(k) {
                    let m = choose|m: int| 0 <= m < idx && all.take(idx)[m] == k;
                    assert(all[m] == all[idx]);
                }
            }
            let mut p: usize = 0;
            while p < ks.len() && ks[p] < k
                invariant
                    p <= ks@.len(),
                    ks@ == before,
                    forall|j: int| 0 <= j < p ==> (#[trigger] ks@[j]) < k,
                decreases ks@.len() - p,
            {
                p += 1;
            }
            ks.insert(p, k);
            proof {
                assert(ks@ =~= before.insert(p as int, k));
                assert forall|i: int, j: int| 0 <= i < j < ks@.len() implies (#[trigger] ks@[i]) < (
                #[trigger] ks@[j]) by {
                    if j < p {
                    } else if j == p {
                        assert(before[i] < k);
                    } else if i < p {
                        assert(ks@[j] == before[j - 1]);
                        if p < before.len() {
                            assert(before[p as int] >= k && before[p as int] != k);
                            assert(before.contains(before[p as int]));
                            if j - 1 > p {
                                assert(before[p as int] < before[j - 1]);
                            }
                        }
                    } else if i == p {
                        assert(ks@[j] == before[j - 1]);
                        assert(before[p as int] >= k);
                        assert(before.contains(before[p as int]));
                        assert(before[p as int] != k);
                        if j - 1 > p {
                            assert(before[p as int] < before[j - 1]);
                        }
                    } else {
                        assert(ks@[i] == before[i - 1] && ks@[j] == before[j - 1]);
                    }
                }
                assert(all.take(idx + 1) =~= all.take(idx).push(k));
                assert forall|x: usize| ks@.contains(x) <==> all.take(idx + 1).contains(x) by {
                    let t0 = all.take(idx);
                    let t1 = all.take(idx + 1);
                    if ks@.contains(x) {
                        let m = choose|m: int| 0 <= m < ks@.len() && ks@[m] == x;
                        if m == p {
                            assert(t1[idx] == x);
                        } else {
                            if m < p {
                                assert(before[m] == x);
                            } else {
                                assert(before[m - 1] == x);
                            }
                            assert(before.contains(x));
                            let q = choose|q: int| 0 <= q < t0.len() && t0[q] == x;
                            assert(t1[q] == x);
                        }
                    }
                    if t1.contains(x) {
                        let q = choose|q: int| 0 <= q < t1.len() && t1[q] == x;
                        if q == idx {
                            assert(ks@[p as int] == x);
                        } else {
                            assert(t0[q] == x);
                            assert(t0.contains(x));
                            assert(before.contains(x));
                            let m = choose|m: int| 0 <= m < before.len() && before[m] == x;
                            if m < p {
                                assert(ks@[m] == x);
                            } else {
                                assert(ks@[m + 1] == x);
                            }
                        }
                    }
                }
            }
        }
        proof {
            let s = self.entries();
            let e = entry_indices(s);
            assert(all.take(all.len() as int) =~= all);
            assert forall|i: int, j: int| 0 <= i < j < e.len() implies (#[trigger] e[i]) < (
            #[trigger] e[j]) by {
                assert(s[i].0 < s[j].0);
            }
            assert forall|x: usize| ks@.contains(x) <==> e.contains(x) by {
                lemma_entry_of_sorted(s, x);
                if ks@.contains(x) {
                    assert(all.contains(x));
                    assert(all.to_set().contains(x));
                    assert(self.calls@.contains_key(x));
                    let i = choose|i: int| 0 <= i < s.len() && #[trigger] s[i].0 == x;
                    assert(e[i] == x);
                }
                if e.contains(x) {
                    let i = choose|i: int| 0 <= i < e.len() && e[i] == x;
                    assert(s[i].0 == x);
                    assert(self.calls@.contains_key(x));
                    assert(all.to_set().contains(x));
                }
            }
            lemma_increasing_unique(ks@, e);
        }
        ks
    }

    /// The entries, in increasing index order.
    pub fn sorted_entries(&self) -> (r: Vec<PartialCall>)
        requires
            self.wf(),
        ensures
            r@.map_values(|c: PartialCall| partial_view(c)) == self.entries(),
    {
        broadcast use vstd::std_specs::hash::group_hash_axioms;

        let ks = self.sorted_indices();
        let ghost s = self.entries();
        let mut r: Vec<PartialCall> = Vec::new();
        let mut i: usize = 0;
        while i < ks.len()
            invariant
                i <= ks@.len(),
                ks@ == entry_indices(s),
                s == self.entries(),
                self.wf(),
                r@.len() == i,
                forall|j: int| 0 <= j < i ==> partial_view(#[trigger] r@[j]) == s[j],
            decreases ks@.len() - i,
        {
            let k = ks[i];
            proof {
                assert(s[i as int].0 == k);
                lemma_entry_of_sorted(s, k);
                let j = choose|j: int| 0 <= j < s.len() && #[trigger] s[j].0 == k && entry_of(s, k)
                    == Some((s[j].1, s[j].2, s[j].3));
                if j != i {
                    if j < i {
                        assert(s[j].0 < s[i as int].0);
                    } else {
                        assert(s[i as int].0 < s[j].0);
                    }
                }
            }
            match self.calls.get(&k) {
                Some(t) => {
                    r.push(
                        PartialCall {
                            index: k,
                            id: t.0.clone(),
                            name: t.1.clone(),
                            arguments: t.2.clone(),
                        },
                    );
                },
                None => {},
            }
            i += 1;
        }
        assert(r@.map_values(|c: PartialCall| partial_view(c)) =~= s);
        r
    }

    /// Number of tool calls seen.
    pub fn len(&self) -> (n: usize)
        requires
            self.wf(),
        ensures
            n == self.entries().len(),
    {
        self.sorted_indices().len()
    }

    /// The argument texts, in increasing index order.
    pub fn argument_texts(&self) -> (r: Vec<String>)
        requires
            self.wf(),
        ensures
            r@.len() == self.entries().len(),
            forall|i: int| 0 <= i < r@.len() ==> (#[trigger] r@[i])@ == self.entries()[i].3,
    {
        let list = self.sorted_entries();
        let ghost lv = list@.map_values(|c: PartialCall| partial_view(c));
        let mut r: Vec<String> = Vec::new();
        let mut i: usize = 0;
        while i < list.len()
            invariant
                i <= list@.len(),
                lv == list@.map_values(|c: PartialCall| partial_view(c)),
                lv == self.entries(),
                r@.len() == i,
                forall|j: int| 0 <= j < i ==> (#[trigger] r@[j])@ == self.entries()[j].3,
            decreases list@.len() - i,
        {
            assert(lv[i as int] == partial_view(list@[i as int]));
            r.push(list[i].arguments.clone());
            i += 1;
        }
        r
    }

    /// Takes in one piece of the call with index `index`.
    fn update(&mut self, index: usize, id: Option<&str>, name: Option<&str>, args: Option<&str>)
        requires
            old(self).wf(),
        ensures
            final(self).wf(),
            final(self).entries() == acc_update(
                old(self).entries(),
                index,
                opt_view(id),
                opt_view(name),
                opt_view(args),
            ),
    {
        broadcast use vstd::std_specs::hash::group_hash_axioms;

        let ghost s = self.order@;
        let (mut new_id, mut new_name, mut new_args) = match self.calls.get(&index) {
            Some(t) => (t.0.clone(), t.1.clone(), t.2.clone()),
            None => (String::new(), String::new(), String::new()),
        };
        proof {
            let before = match entry_of(s, index) {
                Some(e) => e,
                None => (Seq::<char>::empty(), Seq::<char>::empty(), Seq::<char>::empty()),
            };
            assert((new_id@, new_name@, new_args@) == before);
        }
        if let Some(x) = id {
            new_id = x.to_owned();
        }
        if let Some(x) = name {
            new_name = x.to_owned();
        }
        if let Some(x) = args {
            push_str(&mut new_args, x);
        }
        let ghost nv = (new_id@, new_name@, new_args@);
        self.calls.insert(index, (new_id, new_name, new_args));
        let ghost r = acc_update(s, index, opt_view(id), opt_view(name), opt_view(args));
        self.order = Ghost(r);
        proof {
            assert forall|k: usize| #[trigger]
                self.calls@.contains_key(k) <==> entry_of(self.order@, k) is Some by {
                law_acc_update_as_map(s, index, opt_view(id), opt_view(name), opt_view(args), k);
            }
            assert forall|k: usize| self.calls@.contains_key(k) implies entry_of(self.order@, k)
                == Some(held_view(#[trigger] self.calls@[k])) by {
                law_acc_update_as_map(s, index, opt_view(id), opt_view(name), opt_view(args), k);
            }
            law_acc_update_as_map(s, index, opt_view(id), opt_view(name), opt_view(args), index);
        }
    }

    /// Takes in one element of a streamed `tool_calls` array.
    fn take_element(&mut self, tc: &JsonValue)
        requires
            old(self).wf(),
        ensures
            final(self).wf(),
            final(self).entries() == acc_step(old(self).entries(), tc.deep()),
    {
        let index = match tc.get("index") {
            Some(v) => v.as_u64(),
            None => None,
        };
        if let Some(i) = index {
            let id = match tc.get("id") {
                Some(v) => v.as_str(),
                None => None,
            };
            let function = tc.get("function");
            let name = match function {
                Some(f) => match f.get("name") {
                    Some(v) => v.as_str(),
                    None => None,
                },
                None => None,
            };
            let args = match function {
                Some(f) => match f.get("arguments") {
                    Some(v) => v.as_str(),
                    None => None,
                },
                None => None,
            };
            self.update(i as usize, id, name, args);
        }
    }
}

/// The usage count a streamed message reports, if it has a `usage` field:
/// its `total_tokens`, or zero.
pub open spec fn usage_total(j: JsonView) -> Option<usize> {
    match j.field("usage"@) {
        Some(u) => Some(
            match view_u64(u.field("total_tokens"@)) {
                Some(n) => n as usize,
                None => 0,
            },
        ),
        None => None,
    }
}

/// The `delta` of the first choice of a streamed message.
pub open spec fn delta_of(j: JsonView) -> Option<JsonView> {
    match j.field("choices"@) {
        Some(c) => match c.element(0) {
            Some(c0) => c0.field("delta"@),
            None => None,
        },
        None => None,
    }
}

/// The events a streamed message gives: the usage count when it reports
/// one above zero (and nothing else when it has a `usage` field); else the
/// text and the reasoning text of its delta, in that order, where present.
pub open spec fn line_events(j: JsonView) -> Seq<EventView> {
    match usage_total(j) {
        Some(t) => if t > 0 {
            seq![EventView::Usage(t)]
        } else {
            Seq::empty()
        },
        None => match delta_of(j) {
            Some(d) => (match view_text(d.field("content"@)) {
                Some(c) => seq![EventView::Content(c)],
                None => Seq::empty(),
            }) + (match view_text(d.field("reasoning_content"@)) {
                Some(t) => seq![EventView::Thinking(t)],
                None => Seq::empty(),
            }),
            None => Seq::empty(),
        },
    }
}

/// The tool-call pieces a streamed message carries.
pub open spec fn line_tool_calls(j: JsonView) -> Seq<JsonView> {
    match usage_total(j) {
        Some(_) => Seq::empty(),
        None => match delta_of(j) {
            Some(d) => match d.field("tool_calls"@) {
                Some(JsonView::Array(a)) => a,
                _ => Seq::empty(),
            },
            None => Seq::empty(),
        },
    }
}

/// The events of one line of the stream: the JSON it carries after
/// `data: ` is decoded (see `parse_json`); the end marker, a line without
/// that prefix and a line whose rest is not JSON give nothing and change
/// nothing.
pub fn parse_line(line: &str, calls: &mut ToolCallAccumulator, thinking: &mut String) -> (events:
    Vec<StreamEvent>)
    requires
        old(calls).wf(),
    ensures
        final(calls).wf(),
        match line_payload(line@) {
            Some(p) => match json_of_text(p) {
                Some(j) => {
                    &&& event_views(events@) == line_events(j)
                    &&& final(calls).entries() == acc_apply(old(calls).entries(), line_tool_calls(j))
                    &&& final(thinking)@ == old(thinking)@ + line_thinking(j)
                },
                None => {
                    &&& events@.len() == 0
                    &&& final(calls).entries() == old(calls).entries()
                    &&& final(thinking)@ == old(thinking)@
                },
            },
            None => {
                &&& events@.len() == 0
                &&& final(calls).entries() == old(calls).entries()
                &&& final(thinking)@ == old(thinking)@
            },
        },
{
    match line_data(line) {
        Some(data) => match decode_value(data.as_str()) {
            Some(json) => parse_json(&json, calls, thinking),
            None => Vec::new(),
        },
        None => Vec::new(),
    }
}

/// The events of a reply that could not be received: the error, then the
/// end of the reply.
pub fn failed_reply_events(error: String) -> (events: Vec<StreamEvent>)
    ensures
        event_views(events@) == seq![EventView::Error(error@), EventView::Done],
{
    let events = vec![StreamEvent::Error(error), StreamEvent::Done];
    assert(event_views(events@) =~= seq![EventView::Error(error@), EventView::Done]);
    events
}

/// A streamed message with neither a usage field nor a delta gives no
/// event and no reasoning text, and leaves the tool calls as they were.
pub proof fn law_line_without_usage_or_delta(
    j: JsonView,
    s: Seq<(usize, Seq<char>, Seq<char>, Seq<char>)>,
)
    requires
        j.field("usage"@) is None,
        delta_of(j) is None,
    ensures
        line_events(j) == Seq::<EventView>::empty(),
        line_thinking(j) == Seq::<char>::empty(),
        acc_apply(s, line_tool_calls(j)) == s,
{
    assert(line_tool_calls(j) =~= Seq::<JsonView>::empty());
}

/// A streamed message with a usage field gives only its usage count, when
/// above zero: no text, no reasoning text, no tool-call piece, even when it
/// also carries a delta.
pub proof fn law_usage_line(j: JsonView, s: Seq<(usize, Seq<char>, Seq<char>, Seq<char>)>)
    requires
        j.field("usage"@) is Some,
    ensures
        usage_total(j) is Some,
        line_events(j) == if usage_total(j)->0 > 0 {
            seq![EventView::Usage(usage_total(j)->0)]
        } else {
            Seq::<EventView>::empty()
        },
        line_thinking(j) == Seq::<char>::empty(),
        acc_apply(s, line_tool_calls(j)) == s,
{
    assert(line_tool_calls(j) =~= Seq::<JsonView>::empty());
}

/// A streamed message without a usage field whose first choice has a
/// delta `d` gives the delta's `content` text as a text event, then its
/// `reasoning_content` text as a reasoning event, each when it is a string;
/// the reasoning text is kept, and the delta's `tool_calls` array (if any)
/// are the pieces of tool calls it carries.
pub proof fn law_delta_line(j: JsonView, c: Seq<JsonView>, d: JsonView)
    requires
        j.field("usage"@) is None,
        j.field("choices"@) == Some(JsonView::Array(c)),
        c.len() > 0,
        c[0].field("delta"@) == Some(d),
    ensures
        line_events(j) == (match d.field("content"@) {
            Some(JsonView::Str(t)) => seq![EventView::Content(t)],
            _ => Seq::<EventView>::empty(),
        }) + (match d.field("reasoning_content"@) {
            Some(JsonView::Str(t)) => seq![EventView::Thinking(t)],
            _ => Seq::<EventView>::empty(),
        }),
        line_thinking(j) == match d.field("reasoning_content"@) {
            Some(JsonView::Str(t)) => t,
            _ => Seq::<char>::empty(),
        },
        line_tool_calls(j) == match d.field("tool_calls"@) {
            Some(JsonView::Array(a)) => a,
            _ => Seq::<JsonView>::empty(),
        },
{
    assert(delta_of(j) == Some(d));
    match d.field("content"@) {
        Some(JsonView::Str(t)) => {},
        Some(x) => {
            assert(x.text() is None);
        },
        None => {},
    }
    match d.field("reasoning_content"@) {
        Some(JsonView::Str(t)) => {},
        Some(x) => {
            assert(x.text() is None);
        },
        None => {},
    }
}

/// The text after `data: ` on a line of the stream, unless the line is the
/// end marker `data: [DONE]`.
pub open spec fn line_payload(line: Seq<char>) -> Option<Seq<char>> {
    if line == "data: [DONE]"@ {
        None
    } else if crate::text::starts_with(line, "data: "@) {
        Some(line.skip("data: "@.len() as int))
    } else {
        None
    }
}

/// The JSON text a line of the stream carries (see `line_payload`).
pub fn line_data(line: &str) -> (r: Option<String>)
    ensures
        match r {
            Some(d) => line_payload(line@) == Some(d@),
            None => line_payload(line@) is None,
        },
{
    let v = chars_of(line);
    let done = chars_of("data: [DONE]");
    if v.len() == done.len() && crate::text::starts_with_exec(&v, &done) {
        assert(v@ =~= done@);
        return None;
    }
    proof {
        if line@ == "data: [DONE]"@ {
            assert(v@.take(done@.len() as int) =~= v@);
        }
    }
    let prefix = chars_of("data: ");
    if crate::text::starts_with_exec(&v, &prefix) {
        let rest = slice_of(&v, prefix.len(), v.len());
        assert(rest@ =~= line@.skip("data: "@.len() as int));
        Some(string_of(&rest))
    } else {
        None
    }
}

/// The reasoning text of a streamed message.
pub open spec fn line_thinking(j: JsonView) -> Seq<char> {
    match usage_total(j) {
        Some(_) => Seq::empty(),
        None => match delta_of(j) {
            Some(d) => match view_text(d.field("reasoning_content"@)) {
                Some(t) => t,
                None => Seq::empty(),
            },
            None => Seq::empty(),
        },
    }
}

/// The events of one streamed message, given its decoded JSON; the pieces
/// of tool calls it carries go to `calls`, its reasoning text to
/// `thinking`.
pub fn parse_json(json: &JsonValue, calls: &mut ToolCallAccumulator, thinking: &mut String) -> (events:
    Vec<StreamEvent>)
    requires
        old(calls).wf(),
    ensures
        final(calls).wf(),
        event_views(events@) == line_events(json.deep()),
        final(calls).entries() == acc_apply(old(calls).entries(), line_tool_calls(json.deep())),
        final(thinking)@ == old(thinking)@ + line_thinking(json.deep()),
{
    let mut events: Vec<StreamEvent> = Vec::new();
    if let Some(usage) = json.get("usage") {
        let total: usize = match usage.get("total_tokens") {
            Some(t) => match t.as_u64() {
                Some(n) => n as usize,
                None => 0,
            },
            None => 0,
        };
        if total > 0 {
            events.push(StreamEvent::Usage { total_tokens: total });
        }
        assert(event_views(events@) =~= line_events(json.deep()));
        assert(thinking@ =~= old(thinking)@ + line_thinking(json.deep()));
        return events;
    }
    let delta = match json.get("choices") {
        Some(c) => match c.get_index(0) {
            Some(c0) => c0.get("delta"),
            None => None,
        },
        None => None,
    };
    match delta {
        None => {
            assert(event_views(events@) =~= line_events(json.deep()));
            assert(thinking@ =~= old(thinking)@ + line_thinking(json.deep()));
            events
        },
        Some(d) => {
            if let Some(content) = d.get("content") {
                if let Some(text) = content.as_str() {
                    events.push(StreamEvent::Content(text.to_owned()));
                }
            }
            if let Some(reasoning) = d.get("reasoning_content") {
                if let Some(text) = reasoning.as_str() {
                    events.push(StreamEvent::Thinking(text.to_owned()));
                    push_str(thinking, text);
                }
            }
            assert(thinking@ =~= old(thinking)@ + line_thinking(json.deep()));
            assert(event_views(events@) =~= line_events(json.deep()));
            let ghost start = calls.entries();
            if let Some(tcs) = d.get("tool_calls") {
                if let Some(arr) = tcs.as_array() {
                    let mut i: usize = 0;
                    while i < arr.len()
                        invariant
                            i <= arr@.len(),
                            calls.wf(),
                            calls.entries() == acc_apply(start, values_deep(arr@.take(i as int))),
                        decreases arr@.len() - i,
                    {
                        calls.take_element(&arr[i]);
                        proof {
                            assert(arr@.take(i + 1) =~= arr@.take(i as int).push(arr@[i as int]));
                            crate::json::lemma_values_deep_push(arr@.take(i as int), arr@[i as int]);
                            let vs = values_deep(arr@.take(i + 1));
                            assert(vs.drop_last() =~= values_deep(arr@.take(i as int)));
                        }
                        i += 1;
                    }
                    assert(arr@.take(i as int) =~= arr@);
                } else {
                    assert(line_tool_calls(json.deep()) =~= Seq::<JsonView>::empty());
                }
            } else {
                assert(line_tool_calls(json.deep()) =~= Seq::<JsonView>::empty());
            }
            events
        },
    }
}

/// `str::split('\n')`: the pieces of a text between line feeds.
pub open spec fn split_nl(t: Seq<char>) -> Seq<Seq<char>>
    decreases t.len(),
{
    let k = first_nl(t);
    if k >= t.len() {
        seq![t]
    } else {
        proof {
            lemma_first_nl(t);
        }
        seq![t.take(k)] + split_nl(t.skip(k + 1))
    }
}

/// Positions of the arguments that parsed, in order.
pub open spec fn kept(parsed: Seq<Option<JsonObject>>) -> Seq<int>
    decreases parsed.len(),
{
    if parsed.len() == 0 {
        Seq::empty()
    } else {
        let r = kept(parsed.drop_last());
        if parsed.last() is Some {
            r.push(parsed.len() - 1)
        } else {
            r
        }
    }
}

/// The call is the streamed entry `k` with its parsed arguments.
pub open spec fn call_from(
    c: ToolCall,
    entries: Seq<(usize, Seq<char>, Seq<char>, Seq<char>)>,
    parsed: Seq<Option<JsonObject>>,
    k: int,
) -> bool {
    &&& 0 <= k < entries.len()
    &&& c.id@ == entries[k].1
    &&& c.name@ == entries[k].2
    &&& parsed[k] == Some(c.args)
}

/// The calls are those streamed whose arguments parsed, in index order,
/// with their ids and names and the parsed arguments.
pub open spec fn streamed_match(
    calls: Seq<ToolCall>,
    entries: Seq<(usize, Seq<char>, Seq<char>, Seq<char>)>,
    parsed: Seq<Option<JsonObject>>,
) -> bool {
    let ks = kept(parsed);
    &&& calls.len() == ks.len()
    &&& forall|j: int| 0 <= j < calls.len() ==> call_from(#[trigger] calls[j], entries, parsed, ks[j])
}

/// The tool calls of a finished reply: those it wrote as XML if its text
/// holds tool-call tags, else those streamed whose arguments parsed.
pub open spec fn reply_calls_match(
    calls: Seq<ToolCall>,
    received: Seq<char>,
    entries: Seq<(usize, Seq<char>, Seq<char>, Seq<char>)>,
    parsed: Seq<Option<JsonObject>>,
) -> bool {
    if contains(received, call_open()) && contains(received, call_close()) {
        calls_match(calls, xml_calls(call_blocks(received, 0)))
    } else {
        streamed_match(calls, entries, parsed)
    }
}

/// `parsed` holds, for each streamed call, what its argument text decodes
/// to as a JSON object.
pub open spec fn arguments_decoded(
    entries: Seq<(usize, Seq<char>, Seq<char>, Seq<char>)>,
    parsed: Seq<Option<JsonObject>>,
) -> bool {
    &&& parsed.len() == entries.len()
    &&& forall|i: int| 0 <= i < parsed.len() ==> decodes_to_object(entries[i].3, #[trigger] parsed[i])
}

/// A streamed reply as it arrives: the text of the complete lines so far,
/// the unfinished last line, and the tool calls seen.
pub struct ReplyStream {
    pending: Vec<char>,
    received: String,
    calls: ToolCallAccumulator,
}

impl ReplyStream {
    /// The start of a line that has not ended yet.
    pub closed spec fn pending(&self) -> Seq<char> {
        self.pending@
    }

    /// The complete lines so far, each with its line feed, and, once the
    /// stream has ended, the last line.
    pub closed spec fn received(&self) -> Seq<char> {
        self.received@
    }

    /// The tool calls seen so far.
    pub closed spec fn calls(&self) -> ToolCallAccumulator {
        self.calls
    }

    pub open spec fn wf(&self) -> bool {
        self.calls().wf()
    }

    /// Nothing received yet.
    pub fn new() -> (r: ReplyStream)
        ensures
            r.wf(),
            r.pending() == Seq::<char>::empty(),
            r.received() == Seq::<char>::empty(),
            r.calls().entries() == Seq::<(usize, Seq<char>, Seq<char>, Seq<char>)>::empty(),
    {
        ReplyStream { pending: Vec::new(), received: String::new(), calls: ToolCallAccumulator::new() }
    }

    /// Takes a chunk of the stream and gives the lines it completes, without
    /// their line feeds; what follows the last line feed waits for the next
    /// chunk.
    pub fn feed(&mut self, chunk: &str) -> (lines: Vec<String>)
        requires
            old(self).wf(),
        ensures
            final(self).wf(),
            final(self).calls() == old(self).calls(),
            string_views(lines@) + seq![final(self).pending()] == split_nl(
                old(self).pending() + chunk@,
            ),
            final(self).received() == old(self).received() + (old(self).pending() + chunk@).take(
                (old(self).pending() + chunk@).len() - final(self).pending().len(),
            ),
            final(self).received() + final(self).pending() == old(self).received() + old(
                self,
            ).pending() + chunk@,
    {
        let ghost t0 = self.pending@ + chunk@;
        let c = chars_of(chunk);
        let mut t = Vec::new();
        std::mem::swap(&mut t, &mut self.pending);
        let mut i: usize = 0;
        while i < c.len()
            invariant
                i <= c@.len(),
                c@ == chunk@,
                t@ == old(self).pending@ + c@.take(i as int),
            decreases c@.len() - i,
        {
            t.push(c[i]);
            i += 1;
            assert(t@ =~= old(self).pending@ + c@.take(i as int));
        }
        assert(c@.take(i as int) =~= c@);
        let mut lines: Vec<String> = Vec::new();
        let mut start: usize = 0;
        assert(t@.skip(0) =~= t@);
        loop
            invariant
                start <= t@.len(),
                t@ == t0,
                self.calls == old(self).calls,
                self.received@ == old(self).received@ + t@.take(start as int),
                string_views(lines@) + split_nl(t@.skip(start as int)) == split_nl(t@),
            ensures
                start <= t@.len(),
                t@ == t0,
                self.calls == old(self).calls,
                self.received@ == old(self).received@ + t@.take(start as int),
                string_views(lines@) + seq![t@.skip(start as int)] == split_nl(t@),
            decreases t@.len() - start,
        {
            let ghost rest = t@.skip(start as int);
            let k = next_nl(&t, start);
            proof {
                lemma_first_nl(rest);
            }
            if k == t.len() {
                assert(split_nl(rest) == seq![rest]);
                break ;
            }
            let line = slice_of(&t, start, k);
            let ghost before = string_views(lines@);
            let ls = string_of(&line);
            lines.push(ls);
            proof {
                assert(string_views(lines@) =~= before.push(ls@));
                assert(rest.take(k - start) =~= line@);
                assert(rest.skip(k - start + 1) =~= t@.skip(k + 1));
                assert(split_nl(rest) == seq![line@] + split_nl(t@.skip(k + 1)));
                assert(string_views(lines@) + split_nl(t@.skip(k + 1)) =~= before + split_nl(rest));
            }
            push_range(&mut self.received, &t, start, k + 1);
            proof {
                assert(t@.take(start as int) + t@.subrange(start as int, k + 1) =~= t@.take(k + 1));
            }
            start = k + 1;
        }
        self.pending = slice_of(&t, start, t.len());
        assert(self.pending@ =~= t@.skip(start as int));
        assert(t@.take(start as int) + t@.skip(start as int) =~= t@);
        assert(t@.take(t@.len() - self.pending@.len()) =~= t@.take(start as int));
        assert(self.received@ + self.pending@ =~= old(self).received@ + t0);
        lines
    }

    /// Ends the stream: the unfinished last line, if it holds anything,
    /// counts as a line.
    pub fn finish(&mut self) -> (rest: Option<String>)
        requires
            old(self).wf(),
        ensures
            final(self).wf(),
            final(self).calls() == old(self).calls(),
            final(self).pending() == Seq::<char>::empty(),
            final(self).received() == old(self).received() + old(self).pending(),
            match rest {
                Some(r) => old(self).pending().len() > 0 && r@ == old(self).pending(),
                None => old(self).pending().len() == 0,
            },
    {
        if self.pending.len() == 0 {
            assert(self.received@ =~= self.received@ + self.pending@);
            return None;
        }
        let r = string_of(&self.pending);
        crate::text::push_chars(&mut self.received, &self.pending);
        self.pending = Vec::new();
        Some(r)
    }

    /// The events of one streamed message (see `parse_json`).
    pub fn take_json(&mut self, json: &JsonValue, thinking: &mut String) -> (events: Vec<StreamEvent>)
        requires
            old(self).wf(),
        ensures
            final(self).wf(),
            final(self).pending() == old(self).pending(),
            final(self).received() == old(self).received(),
            event_views(events@) == line_events(json.deep()),
            final(self).calls().entries() == acc_apply(
                old(self).calls().entries(),
                line_tool_calls(json.deep()),
            ),
            final(thinking)@ == old(thinking)@ + line_thinking(json.deep()),
    {
        parse_json(json, &mut self.calls, thinking)
    }

    /// Takes in one complete line of the stream: the JSON it carries after
    /// `data: ` is decoded and its events given (see `take_json`); the end
    /// marker, a line without that prefix and a line whose rest is not JSON
    /// give nothing and change nothing.
    pub fn take_line(&mut self, line: &str, thinking: &mut String) -> (events: Vec<StreamEvent>)
        requires
            old(self).wf(),
        ensures
            final(self).wf(),
            final(self).pending() == old(self).pending(),
            final(self).received() == old(self).received(),
            match line_payload(line@) {
                Some(p) => match json_of_text(p) {
                    Some(j) => {
                        &&& event_views(events@) == line_events(j)
                        &&& final(self).calls().entries() == acc_apply(
                            old(self).calls().entries(),
                            line_tool_calls(j),
                        )
                        &&& final(thinking)@ == old(thinking)@ + line_thinking(j)
                    },
                    None => {
                        &&& events@.len() == 0
                        &&& final(self).calls().entries() == old(self).calls().entries()
                        &&& final(thinking)@ == old(thinking)@
                    },
                },
                None => {
                    &&& events@.len() == 0
                    &&& final(self).calls().entries() == old(self).calls().entries()
                    &&& final(thinking)@ == old(thinking)@
                },
            },
    {
        parse_line(line, &mut self.calls, thinking)
    }

    /// The argument texts of the streamed tool calls, in index order.
    pub fn argument_texts(&self) -> (r: Vec<String>)
        requires
            self.wf(),
        ensures
            r@.len() == self.calls().entries().len(),
            forall|i: int| 0 <= i < r@.len() ==> (#[trigger] r@[i])@ == self.calls().entries()[i].3,
    {
        self.calls.argument_texts()
    }

    /// The last events of the finished reply: its tool calls (see
    /// `tool_calls`) when there are any, then the end of the reply.
    pub fn closing_events(&self, parsed: Vec<Option<JsonObject>>) -> (events: Vec<StreamEvent>)
        requires
            self.wf(),
            parsed@.len() == self.calls().entries().len(),
        ensures
            exists|c: Seq<ToolCall>|
                #[trigger] reply_calls_match(c, self.received(), self.calls().entries(), parsed@)
                    && event_views(events@) == if c.len() > 0 {
                    seq![EventView::ToolCalls(c), EventView::Done]
                } else {
                    seq![EventView::Done]
                },
    {
        let ghost p = parsed@;
        let calls = self.tool_calls(parsed);
        let ghost c = calls@;
        let mut events: Vec<StreamEvent> = Vec::new();
        if calls.len() > 0 {
            events.push(StreamEvent::ToolCalls(calls));
        }
        events.push(StreamEvent::Done);
        assert(event_views(events@) =~= if c.len() > 0 {
            seq![EventView::ToolCalls(c), EventView::Done]
        } else {
            seq![EventView::Done]
        });
        assert(reply_calls_match(c, self.received(), self.calls().entries(), p));
        events
    }

    /// The last events of the finished reply (see `closing_events`), with
    /// each streamed argument text decoded as a JSON object.
    pub fn close(&self) -> (events: Vec<StreamEvent>)
        requires
            self.wf(),
        ensures
            exists|parsed: Seq<Option<JsonObject>>|
                #[trigger] arguments_decoded(self.calls().entries(), parsed) && exists|c: Seq<ToolCall>|
                    #[trigger] reply_calls_match(c, self.received(), self.calls().entries(), parsed)
                        && event_views(events@) == if c.len() > 0 {
                        seq![EventView::ToolCalls(c), EventView::Done]
                    } else {
                        seq![EventView::Done]
                    },
    {
        let texts = self.argument_texts();
        let mut parsed: Vec<Option<JsonObject>> = Vec::new();
        let mut i: usize = 0;
        while i < texts.len()
            invariant
                i <= texts@.len(),
                texts@.len() == self.calls().entries().len(),
                forall|k: int| 0 <= k < texts@.len() ==> (#[trigger] texts@[k])@ == self.calls().entries()[k].3,
                parsed@.len() == i,
                forall|k: int|
                    0 <= k < i ==> decodes_to_object(self.calls().entries()[k].3, #[trigger] parsed@[k]),
            decreases texts@.len() - i,
        {
            parsed.push(decode_object(texts[i].as_str()));
            i += 1;
        }
        let ghost p = parsed@;
        let events = self.closing_events(parsed);
        assert(arguments_decoded(self.calls().entries(), p));
        events
    }

    /// The tool calls of the finished reply, given what each streamed
    /// argument text parsed to (see `reply_calls_match`).
    pub fn tool_calls(&self, parsed: Vec<Option<JsonObject>>) -> (calls: Vec<ToolCall>)
        requires
            self.wf(),
            parsed@.len() == self.calls().entries().len(),
        ensures
            reply_calls_match(calls@, self.received(), self.calls().entries(), parsed@),
    {
        if has_xml_tool_calls(self.received.as_str()) {
            return parse_xml_tool_calls(self.received.as_str());
        }
        let ghost entries = self.calls().entries();
        let ghost all = parsed@;
        let list = self.calls.sorted_entries();
        let mut calls: Vec<ToolCall> = Vec::new();
        let mut rest = parsed;
        let mut i: usize = 0;
        let n = rest.len();
        assert(all.take(0) =~= Seq::<Option<JsonObject>>::empty());
        while i < n
            invariant
                n == all.len(),
                i <= n,
                rest@ == all.skip(i as int),
                entries == self.calls().entries(),
                list@.map_values(|c: PartialCall| partial_view(c)) == entries,
                n == entries.len(),
                calls@.len() == kept(all.take(i as int)).len(),
                forall|j: int|
                    0 <= j < calls@.len() ==> call_from(
                        #[trigger] calls@[j],
                        entries,
                        all,
                        kept(all.take(i as int))[j],
                    ),
            decreases n - i,
        {
            let ghost pre = all.take(i + 1);
            proof {
                assert(pre.drop_last() =~= all.take(i as int));
                assert(pre.last() == all[i as int]);
                assert(rest@[0] == all[i as int]);
                assert(rest@.remove(0) =~= all.skip(i + 1));
            }
            let item = rest.remove(0);
            match item {
                Some(args) => {
                    proof {
                        assert(entries[i as int] == partial_view(list@[i as int]));
                    }
                    let id = list[i].id.clone();
                    let name = list[i].name.clone();
                    proof {
                        assert(kept(pre) == kept(all.take(i as int)).push(i as int));
                    }
                    let ghost before = calls@;
                    calls.push(ToolCall { id, name, args });
                    proof {
                        assert forall|j: int| 0 <= j < calls@.len() implies call_from(
                            #[trigger] calls@[j],
                            entries,
                            all,
                            kept(pre)[j],
                        ) by {
                            if j < before.len() {
                                assert(calls@[j] == before[j]);
                            }
                        }
                    }
                },
                None => {
                    proof {
                        assert(kept(pre) == kept(all.take(i as int)));
                        assert forall|j: int| 0 <= j < calls@.len() implies call_from(
                            #[trigger] calls@[j],
                            entries,
                            all,
                            kept(pre)[j],
                        ) by {}
                    }
                },
            }
            i += 1;
            assert(all.take(i as int) == pre);
        }
        assert(all.take(n as int) =~= all);
        proof {
            assert(!(contains(self.received(), call_open()) && contains(self.received(), call_close())));
        }
        calls
    }
}

// ---------------------------------------------------------------------------
// Messages
// ---------------------------------------------------------------------------

/// A message of the conversation.
pub struct Message {
    pub role: String,
    pub content: Option<String>,
    pub thinking: Option<String>,
    pub tool_calls: Option<Vec<JsonValue>>,
    pub tool_call_id: Option<String>,
}

/// The text of an optional string.
pub open spec fn opt_string(o: Option<String>) -> Option<Seq<char>> {
    match o {
        Some(x) => Some(x@),
        None => None,
    }
}

/// A message with only a role and a text.
pub open spec fn plain_message(m: Message, role: Seq<char>, content: Seq<char>) -> bool {
    &&& m.role@ == role
    &&& opt_string(m.content) == Some(content)
    &&& m.thinking is None
    &&& m.tool_calls is None
    &&& m.tool_call_id is None
}

/// The history a session starts with: the system prompt.
pub fn create_initial_history(system_prompt: &str) -> (history: Vec<Message>)
    ensures
        history@.len() == 1,
        plain_message(history@[0], "system"@, system_prompt@),
{
    vec![
        Message {
            role: "system".to_owned(),
            content: Some(system_prompt.to_owned()),
            thinking: None,
            tool_calls: None,
            tool_call_id: None,
        },
    ]
}

/// `[{"type": "text", "text": t}]`, the form of a message's text.
pub open spec fn text_parts(t: Seq<char>) -> JsonView {
    JsonView::Array(
        seq![JsonView::Object(seq![("type"@, JsonView::Str("text"@)), ("text"@, JsonView::Str(t))])],
    )
}

/// The text of a message, empty when it has none.
pub open spec fn text_of(c: Option<String>) -> Seq<char> {
    match c {
        Some(x) => x@,
        None => Seq::empty(),
    }
}

/// A message's text as parts, or `null` when it has none.
pub open spec fn content_parts(c: Option<String>) -> JsonView {
    match c {
        Some(x) => text_parts(x@),
        None => JsonView::Null,
    }
}

/// A message's text as parts, or `null` when it has none or it is blank.
pub open spec fn nonblank_parts(c: Option<String>) -> JsonView {
    match c {
        Some(x) => if crate::text::trim(x@).len() > 0 {
            text_parts(x@)
        } else {
            JsonView::Null
        },
        None => JsonView::Null,
    }
}

/// The form of a message in an API request: a tool result with its text
/// as parts and the id of its call; an assistant message with tool calls,
/// with its text as parts unless it is blank; any other message with its
/// role and its text as parts (or `null`).
pub open spec fn api_message(m: Message) -> JsonView {
    if m.role@ == "tool"@ {
        let base = seq![
            ("role"@, JsonView::Str("tool"@)),
            ("content"@, text_parts(text_of(m.content))),
        ];
        JsonView::Object(
            match m.tool_call_id {
                Some(id) => base.push(("tool_call_id"@, JsonView::Str(id@))),
                None => base,
            },
        )
    } else if m.role@ == "assistant"@ && m.tool_calls is Some {
        JsonView::Object(
            seq![
                ("role"@, JsonView::Str("assistant"@)),
                ("tool_calls"@, JsonView::Array(values_deep(m.tool_calls.unwrap()@))),
                ("content"@, nonblank_parts(m.content)),
            ],
        )
    } else {
        JsonView::Object(
            seq![("role"@, JsonView::Str(m.role@)), ("content"@, content_parts(m.content))],
        )
    }
}

/// `[{"type": "text", "text": t}]`, written out.
pub open spec fn parts_of(t: Seq<char>) -> JsonView {
    JsonView::Array(
        seq![JsonView::Object(seq![("type"@, JsonView::Str("text"@)), ("text"@, JsonView::Str(t))])],
    )
}

/// A tool result goes to the model with its text: the API form of a
/// message with role `tool` is the role, the message's text (empty only
/// when it has none) as one text part, and the id of the call it answers,
/// when it has one, in that order.
pub proof fn law_tool_result_sent(m: Message)
    requires
        m.role@ == "tool"@,
    ensures
        api_message(m) matches JsonView::Object(es) && es.len() == (if m.tool_call_id is Some {
            3int
        } else {
            2int
        }) && es[0] == ("role"@, JsonView::Str("tool"@)) && es[1] == (
            "content"@,
            parts_of(
                match m.content {
                    Some(c) => c@,
                    None => Seq::<char>::empty(),
                },
            ),
        ) && (m.tool_call_id matches Some(id) ==> es[2] == ("tool_call_id"@, JsonView::Str(id@))),
        m.content matches Some(c) ==> match api_message(m) {
            JsonView::Object(es) => match es[1].1 {
                JsonView::Array(ps) => ps.len() == 1 && match ps[0] {
                    JsonView::Object(pe) => pe.len() == 2 && pe[1] == ("text"@, JsonView::Str(c@)),
                    _ => false,
                },
                _ => false,
            },
            _ => false,
        },
{
}

/// An assistant message that asks for tools goes to the model as its role,
/// its tool calls each as recorded, in order, and its text as one text part
/// unless it has none or it is blank (then `null`).
pub proof fn law_assistant_calls_sent(m: Message)
    requires
        m.role@ == "assistant"@,
        m.tool_calls is Some,
    ensures
        match api_message(m) {
            JsonView::Object(es) => {
                &&& es.len() == 3
                &&& es[0] == ("role"@, JsonView::Str("assistant"@))
                &&& es[1].0 == "tool_calls"@
                &&& match es[1].1 {
                    JsonView::Array(a) => a.len() == m.tool_calls.unwrap()@.len() && forall|i: int|
                        0 <= i < a.len() ==> #[trigger] a[i] == m.tool_calls.unwrap()@[i].deep(),
                    _ => false,
                }
                &&& es[2] == (
                    "content"@,
                    match m.content {
                        Some(c) => if crate::text::trim(c@).len() > 0 {
                            parts_of(c@)
                        } else {
                            JsonView::Null
                        },
                        None => JsonView::Null,
                    },
                )
            },
            _ => false,
        },
{
    reveal_strlit("assistant");
    reveal_strlit("tool");
    assert("assistant"@ != "tool"@) by {
        assert("assistant"@.len() != "tool"@.len());
    }
    crate::json::lemma_values_deep_index(m.tool_calls.unwrap()@);
}

/// Any other message goes to the model as its role and its text as one
/// text part, or `null` when it has none.
pub proof fn law_plain_message_sent(m: Message)
    requires
        m.role@ != "tool"@,
        !(m.role@ == "assistant"@ && m.tool_calls is Some),
    ensures
        match api_message(m) {
            JsonView::Object(es) => {
                &&& es.len() == 2
                &&& es[0] == ("role"@, JsonView::Str(m.role@))
                &&& es[1] == (
                    "content"@,
                    match m.content {
                        Some(c) => parts_of(c@),
                        None => JsonView::Null,
                    },
                )
            },
            _ => false,
        },
{
}

/// A JSON string.
fn json_str(s: &str) -> (r: JsonValue)
    ensures
        r.deep() == JsonView::Str(s@),
{
    JsonValue::String(s.to_owned())
}

/// An object of the given entries.
fn json_object(entries: Vec<(String, JsonValue)>) -> (r: JsonValue)
    ensures
        r.deep() == JsonView::Object(entries_deep(entries@)),
{
    JsonValue::Object(JsonObject::from_entries(entries))
}

/// See `text_parts`.
fn text_parts_value(t: &str) -> (r: JsonValue)
    ensures
        r.deep() == text_parts(t@),
{
    let k1 = "type".to_owned();
    let v1 = json_str("text");
    let k2 = "text".to_owned();
    let v2 = json_str(t);
    let entries = vec![(k1, v1), (k2, v2)];
    let ghost ev = entries@;
    let part = json_object(entries);
    proof {
        lemma_entries_deep_index(ev);
        assert(entries_deep(ev) =~= seq![("type"@, JsonView::Str("text"@)), ("text"@, JsonView::Str(t@))]);
    }
    let parts = vec![part];
    let ghost pv = parts@;
    let r = JsonValue::Array(parts);
    proof {
        crate::json::lemma_values_deep_index(pv);
        assert(values_deep(pv) =~= seq![part.deep()]);
    }
    r
}

/// The form of one message in an API request (see `api_message`).
pub fn format_message_for_api(m: &Message) -> (r: JsonValue)
    ensures
        r.deep() == api_message(*m),
{
    let empty = String::new();
    let content: &str = match &m.content {
        Some(c) => c.as_str(),
        None => empty.as_str(),
    };
    let kr = "role".to_owned();
    let kc = "content".to_owned();
    if crate::text::str_eq(m.role.as_str(), "tool") {
        let vr = json_str("tool");
        let vc = text_parts_value(content);
        let mut entries = vec![(kr, vr), (kc, vc)];
        let ghost e0 = entries@;
        if let Some(id) = &m.tool_call_id {
            let ki = "tool_call_id".to_owned();
            let vi = json_str(id.as_str());
            entries.push((ki, vi));
        }
        let ghost ev = entries@;
        let r = json_object(entries);
        proof {
            lemma_entries_deep_index(ev);
            let base = seq![("role"@, JsonView::Str("tool"@)), ("content"@, text_parts(text_of(m.content)))];
            if m.tool_call_id is Some {
                assert(entries_deep(ev) =~= base.push(("tool_call_id"@, JsonView::Str((m.tool_call_id->0)@))));
            } else {
                assert(entries_deep(ev) =~= base);
            }
        }
        r
    } else if crate::text::str_eq(m.role.as_str(), "assistant") && m.tool_calls.is_some() {
        let calls = match &m.tool_calls {
            Some(v) => crate::json::copy_values(v),
            None => Vec::new(),
        };
        let content_value = match &m.content {
            Some(c) => {
                let cv = chars_of(c.as_str());
                let t = crate::text::trim_chars(&cv);
                if t.len() > 0 {
                    text_parts_value(c.as_str())
                } else {
                    JsonValue::Null
                }
            },
            None => JsonValue::Null,
        };
        let vr = json_str("assistant");
        let kt = "tool_calls".to_owned();
        let vt = JsonValue::Array(calls);
        let entries = vec![(kr, vr), (kt, vt), (kc, content_value)];
        let ghost ev = entries@;
        let r = json_object(entries);
        proof {
            lemma_entries_deep_index(ev);
            assert(entries_deep(ev) =~= seq![
                ("role"@, JsonView::Str("assistant"@)),
                ("tool_calls"@, JsonView::Array(values_deep(m.tool_calls.unwrap()@))),
                ("content"@, content_value.deep()),
            ]);
        }
        r
    } else {
        let content_value = match &m.content {
            Some(c) => text_parts_value(c.as_str()),
            None => JsonValue::Null,
        };
        let vr = json_str(m.role.as_str());
        let entries = vec![(kr, vr), (kc, content_value)];
        let ghost ev = entries@;
        let r = json_object(entries);
        proof {
            lemma_entries_deep_index(ev);
            assert(entries_deep(ev) =~= seq![
                ("role"@, JsonView::Str(m.role@)),
                ("content"@, content_value.deep()),
            ]);
        }
        r
    }
}

/// The messages in the form of an API request, in order.
pub fn format_messages_for_api(messages: &Vec<Message>) -> (r: Vec<JsonValue>)
    ensures
        r@.len() == messages@.len(),
        forall|i: int| 0 <= i < r@.len() ==> (#[trigger] r@[i]).deep() == api_message(messages@[i]),
{
    let mut r: Vec<JsonValue> = Vec::new();
    let mut i: usize = 0;
    while i < messages.len()
        invariant
            i <= messages@.len(),
            r@.len() == i,
            forall|j: int| 0 <= j < i ==> (#[trigger] r@[j]).deep() == api_message(messages@[j]),
        decreases messages@.len() - i,
    {
        r.push(format_message_for_api(&messages[i]));
        i += 1;
    }
    r
}

// ---------------------------------------------------------------------------
// Tool calls in the conversation
// ---------------------------------------------------------------------------

/// The text of the argument `key`, or `default` when it is missing or not
/// a string.
pub open spec fn arg_or(args: JsonObject, key: Seq<char>, default: Seq<char>) -> Seq<char> {
    match opt_str(args.get_spec(key)) {
        Some(t) => t,
        None => default,
    }
}

/// How a tool call is shown: the tool and its main argument for the known
/// tools, else the name and the arguments as JSON text.
pub open spec fn tool_call_line(name: Seq<char>, args: JsonObject) -> Seq<char> {
    if name == "Read"@ {
        "Read "@ + arg_or(args, "filePath"@, "<path>"@)
    } else if name == "Glob"@ {
        "Glob "@ + arg_or(args, "pattern"@, "<pattern>"@)
    } else if name == "Grep"@ {
        "Grep "@ + arg_or(args, "pattern"@, "<pattern>"@)
    } else if name == "Bash"@ {
        "Bash "@ + arg_or(args, "command"@, "<command>"@)
    } else if name == "Webfetch"@ {
        "Webfetch "@ + arg_or(args, "url"@, "<url>"@)
    } else {
        name + " "@ + object_text(args)
    }
}

/// Appends the text of argument `key`, or `default`.
fn push_arg_or(out: &mut String, args: &JsonObject, key: &str, default: &str)
    ensures
        final(out)@ == old(out)@ + arg_or(*args, key@, default@),
{
    let v = match args.get(key) {
        Some(j) => j.as_str(),
        None => None,
    };
    match v {
        Some(t) => push_str(out, t),
        None => push_str(out, default),
    }
}

/// The text of a string argument, or `default` when it is missing or not a
/// string, written out.
pub open spec fn string_arg(args: JsonObject, key: Seq<char>, default: Seq<char>) -> Seq<char> {
    match args.get_spec(key) {
        Some(JsonValue::String(s)) => s@,
        _ => default,
    }
}

/// Each known tool is shown by its name and its main argument: `Read` by
/// `filePath`, `Glob` and `Grep` by `pattern`, `Bash` by `command`,
/// `Webfetch` by `url`, each with its placeholder when the argument is
/// missing or not a string; any other tool by its name and its arguments as
/// JSON text.
pub proof fn law_tool_call_lines(name: Seq<char>, args: JsonObject)
    ensures
        tool_call_line("Read"@, args) == "Read "@ + string_arg(args, "filePath"@, "<path>"@),
        tool_call_line("Glob"@, args) == "Glob "@ + string_arg(args, "pattern"@, "<pattern>"@),
        tool_call_line("Grep"@, args) == "Grep "@ + string_arg(args, "pattern"@, "<pattern>"@),
        tool_call_line("Bash"@, args) == "Bash "@ + string_arg(args, "command"@, "<command>"@),
        tool_call_line("Webfetch"@, args) == "Webfetch "@ + string_arg(args, "url"@, "<url>"@),
        name != "Read"@ && name != "Glob"@ && name != "Grep"@ && name != "Bash"@ && name
            != "Webfetch"@ ==> tool_call_line(name, args) == name + " "@ + object_text(args),
{
    reveal_strlit("Read");
    reveal_strlit("Glob");
    reveal_strlit("Grep");
    reveal_strlit("Bash");
    reveal_strlit("Webfetch");
    assert("Glob"@ != "Read"@) by {
        assert("Glob"@[0] != "Read"@[0]);
    }
    assert("Grep"@ != "Read"@) by {
        assert("Grep"@[0] != "Read"@[0]);
    }
    assert("Grep"@ != "Glob"@) by {
        assert("Grep"@[1] != "Glob"@[1]);
    }
    assert("Bash"@ != "Read"@) by {
        assert("Bash"@[0] != "Read"@[0]);
    }
    assert("Bash"@ != "Glob"@) by {
        assert("Bash"@[0] != "Glob"@[0]);
    }
    assert("Bash"@ != "Grep"@) by {
        assert("Bash"@[0] != "Grep"@[0]);
    }
    assert("Webfetch"@.len() == 8);
    assert("Webfetch"@ != "Read"@ && "Webfetch"@ != "Glob"@ && "Webfetch"@ != "Grep"@
        && "Webfetch"@ != "Bash"@);
}

/// The line that shows a tool call.
pub fn format_tool_call(name: &str, args: &JsonObject) -> (r: String)
    ensures
        r@ == tool_call_line(name@, *args),
{
    let mut r = String::new();
    if crate::text::str_eq(name, "Read") {
        push_str(&mut r, "Read ");
        push_arg_or(&mut r, args, "filePath", "<path>");
    } else if crate::text::str_eq(name, "Glob") {
        push_str(&mut r, "Glob ");
        push_arg_or(&mut r, args, "pattern", "<pattern>");
    } else if crate::text::str_eq(name, "Grep") {
        push_str(&mut r, "Grep ");
        push_arg_or(&mut r, args, "pattern", "<pattern>");
    } else if crate::text::str_eq(name, "Bash") {
        push_str(&mut r, "Bash ");
        push_arg_or(&mut r, args, "command", "<command>");
    } else if crate::text::str_eq(name, "Webfetch") {
        push_str(&mut r, "Webfetch ");
        push_arg_or(&mut r, args, "url", "<url>");
    } else {
        push_str(&mut r, name);
        push_str(&mut r, " ");
        let args_text = encode_object(args);
        push_str(&mut r, args_text.as_str());
    }
    r
}

/// How a tool call is recorded in the history:
/// `{"type": "function", "id": .., "function": {"name": .., "arguments": ..}}`.
pub open spec fn tool_call_view(id: Seq<char>, name: Seq<char>, args_text: Seq<char>) -> JsonView {
    JsonView::Object(
        seq![
            ("type"@, JsonView::Str("function"@)),
            ("id"@, JsonView::Str(id)),
            ("function"@, JsonView::Object(
                seq![("name"@, JsonView::Str(name)), ("arguments"@, JsonView::Str(args_text))],
            )),
        ],
    )
}

/// See `tool_call_view`: the call with its arguments as JSON text.
pub fn tool_call_json(tc: &ToolCall) -> (r: JsonValue)
    ensures
        r.deep() == tool_call_view(tc.id@, tc.name@, object_text(tc.args)),
{
    let kn = "name".to_owned();
    let vn = json_str(tc.name.as_str());
    let ka = "arguments".to_owned();
    let args_text = encode_object(&tc.args);
    let va = json_str(args_text.as_str());
    let inner = vec![(kn, vn), (ka, va)];
    let ghost iv = inner@;
    let function = json_object(inner);
    let kt = "type".to_owned();
    let vt = json_str("function");
    let ki = "id".to_owned();
    let vi = json_str(tc.id.as_str());
    let kf = "function".to_owned();
    let outer = vec![(kt, vt), (ki, vi), (kf, function)];
    let ghost ov = outer@;
    let r = json_object(outer);
    proof {
        lemma_entries_deep_index(iv);
        assert(entries_deep(iv) =~= seq![("name"@, JsonView::Str(tc.name@)), ("arguments"@, JsonView::Str(object_text(tc.args)))]);
        lemma_entries_deep_index(ov);
        assert(entries_deep(ov) =~= seq![
            ("type"@, JsonView::Str("function"@)),
            ("id"@, JsonView::Str(tc.id@)),
            ("function"@, function.deep()),
        ]);
    }
    r
}

// ---------------------------------------------------------------------------
// A turn of the conversation
// ---------------------------------------------------------------------------

/// Tokens of context a session may use; a turn does not start beyond it.
pub const CONTEXT_WINDOW_LIMIT: usize = 64000;

/// Rounds of the same tool calls, after the first, that stop a turn.
pub const MAX_REPEATS: usize = 3;

/// Records the user's input and says whether the turn may go on: not once
/// the context used has reached `CONTEXT_WINDOW_LIMIT`.
pub fn begin_turn(input: &str, history: &mut Vec<Message>, context_usage: usize) -> (proceed: bool)
    ensures
        final(history)@.len() == old(history)@.len() + 1,
        final(history)@.take(old(history)@.len() as int) == old(history)@,
        plain_message(final(history)@.last(), "user"@, input@),
        proceed == (context_usage < CONTEXT_WINDOW_LIMIT),
{
    history.push(
        Message {
            role: "user".to_owned(),
            content: Some(input.to_owned()),
            thinking: None,
            tool_calls: None,
            tool_call_id: None,
        },
    );
    assert(history@.take(old(history)@.len() as int) =~= old(history)@);
    context_usage < CONTEXT_WINDOW_LIMIT
}

/// What the caller does with an event of a reply.
pub enum EventAction {
    /// Show the text in the given style, and go on.
    Render(String, ContentType),
    /// Record the tokens used, and go on.
    SetUsage(usize),
    /// Go on.
    Continue,
    /// The context is full: the reply ends, and the turn stops after it.
    ContextExceeded,
    /// The server reported an error: the reply ends.
    ServerError(String),
    /// The reply is complete.
    Done,
}

/// The state of a turn: whether it is to stop, how often the same tool
/// calls came again, the last round of calls (names and argument texts),
/// and the reply being received.
pub struct Turn {
    should_stop: bool,
    duplicate_count: usize,
    last_calls: Option<Vec<(String, String)>>,
    content: String,
    thinking: String,
    tool_calls: Vec<ToolCall>,
}

/// Views of a round of tool calls.
pub open spec fn round_view(v: Seq<(String, String)>) -> Seq<(Seq<char>, Seq<char>)> {
    v.map_values(|p: (String, String)| (p.0@, p.1@))
}

/// The round of calls: each call's name with its arguments as JSON text.
pub open spec fn round_of(calls: Seq<ToolCall>) -> Seq<(Seq<char>, Seq<char>)> {
    Seq::new(calls.len(), |i: int| (calls[i].name@, object_text(calls[i].args)))
}

/// Whether the turn stops, the repeat count and the last round, after a
/// round of tool calls: a round equal to the last one counts as a repeat
/// (the count saturates at `usize::MAX`), another one clears the count; the
/// turn stops at `MAX_REPEATS` repeats.
pub open spec fn after_round(
    stop: bool,
    repeats: nat,
    last: Option<Seq<(Seq<char>, Seq<char>)>>,
    round: Seq<(Seq<char>, Seq<char>)>,
) -> (bool, nat, Option<Seq<(Seq<char>, Seq<char>)>>) {
    let more: nat = if repeats < usize::MAX {
        repeats + 1
    } else {
        repeats
    };
    match last {
        Some(l) => if l == round {
            (stop || more >= MAX_REPEATS, more, Some(round))
        } else {
            (stop, 0, Some(round))
        },
        None => (stop, repeats, Some(round)),
    }
}

/// What a reply has delivered so far: its text, its reasoning text, its
/// tool calls, and whether the turn is to stop.
pub struct ReplyView {
    pub content: Seq<char>,
    pub thinking: Seq<char>,
    pub calls: Seq<ToolCall>,
    pub stop: bool,
}

/// A reply that has delivered nothing, in a turn that goes on.
pub open spec fn fresh_reply() -> ReplyView {
    ReplyView {
        content: Seq::empty(),
        thinking: Seq::empty(),
        calls: Seq::empty(),
        stop: false,
    }
}

/// A reply after one more event: text and reasoning text are appended, a
/// list of tool calls replaces the one before, a full context stops the
/// turn.
pub open spec fn reply_step(r: ReplyView, e: EventView) -> ReplyView {
    match e {
        EventView::Content(t) => ReplyView { content: r.content + t, ..r },
        EventView::Thinking(t) => ReplyView { thinking: r.thinking + t, ..r },
        EventView::ToolCalls(c) => ReplyView { calls: c, ..r },
        EventView::ContextExceeded => ReplyView { stop: true, ..r },
        _ => r,
    }
}

/// A reply after a sequence of events, in order.
pub open spec fn reply_after(r: ReplyView, es: Seq<EventView>) -> ReplyView
    decreases es.len(),
{
    if es.len() == 0 {
        r
    } else {
        reply_step(reply_after(r, es.drop_last()), es.last())
    }
}

/// The texts of the events, in order.
pub open spec fn content_of(es: Seq<EventView>) -> Seq<char>
    decreases es.len(),
{
    if es.len() == 0 {
        Seq::empty()
    } else {
        content_of(es.drop_last()) + match es.last() {
            EventView::Content(t) => t,
            _ => Seq::empty(),
        }
    }
}

/// The reasoning texts of the events, in order.
pub open spec fn thinking_of(es: Seq<EventView>) -> Seq<char>
    decreases es.len(),
{
    if es.len() == 0 {
        Seq::empty()
    } else {
        thinking_of(es.drop_last()) + match es.last() {
            EventView::Thinking(t) => t,
            _ => Seq::empty(),
        }
    }
}

/// The tool calls of the last tool-call event, or none.
pub open spec fn calls_of(es: Seq<EventView>) -> Seq<ToolCall>
    decreases es.len(),
{
    if es.len() == 0 {
        Seq::empty()
    } else {
        match es.last() {
            EventView::ToolCalls(c) => c,
            _ => calls_of(es.drop_last()),
        }
    }
}

/// Some event reports that the context is full.
pub open spec fn context_exceeded_in(es: Seq<EventView>) -> bool {
    exists|i: int| 0 <= i < es.len() && #[trigger] es[i] == EventView::ContextExceeded
}

/// `m` is the assistant message that records reply `r`: the reply's text when it
/// asked for no tool, else its tool calls; its reasoning text unless empty.
pub open spec fn recorded_reply(m: Message, r: ReplyView) -> bool {
    &&& m.role@ == "assistant"@
    &&& m.tool_call_id is None
    &&& opt_string(m.thinking) == if r.thinking.len() > 0 {
        Some(r.thinking)
    } else {
        None
    }
    &&& r.calls.len() == 0 ==> opt_string(m.content) == Some(r.content) && m.tool_calls is None
    &&& r.calls.len() > 0 ==> m.content is None
    &&& r.calls.len() > 0 ==> (m.tool_calls matches Some(v) && v@.len() == r.calls.len() && forall|
        i: int,
    |
        0 <= i < v@.len() ==> (#[trigger] v@[i]).deep() == tool_call_view(
            r.calls[i].id@,
            r.calls[i].name@,
            object_text(r.calls[i].args),
        ))
}

proof fn lemma_reply_after(es: Seq<EventView>)
    ensures
        reply_after(fresh_reply(), es).content == content_of(es),
        reply_after(fresh_reply(), es).thinking == thinking_of(es),
        reply_after(fresh_reply(), es).calls == calls_of(es),
        reply_after(fresh_reply(), es).stop == context_exceeded_in(es),
    decreases es.len(),
{
    if es.len() == 0 {
        assert(content_of(es) =~= Seq::<char>::empty());
        assert(thinking_of(es) =~= Seq::<char>::empty());
    } else {
        let d = es.drop_last();
        lemma_reply_after(d);
        match es.last() {
            EventView::Content(t) => {},
            EventView::Thinking(t) => {},
            _ => {
                assert(content_of(es) =~= content_of(d));
                assert(thinking_of(es) =~= thinking_of(d));
            },
        }
        if es.last() == EventView::ContextExceeded {
            assert(es[es.len() - 1] == EventView::ContextExceeded);
        } else {
            if context_exceeded_in(es) {
                let i = choose|i: int| 0 <= i < es.len() && #[trigger] es[i] == EventView::ContextExceeded;
                assert(d[i] == es[i]);
            }
            if context_exceeded_in(d) {
                let i = choose|i: int| 0 <= i < d.len() && #[trigger] d[i] == EventView::ContextExceeded;
                assert(es[i] == d[i]);
            }
        }
        if context_exceeded_in(d) {
            let i = choose|i: int| 0 <= i < d.len() && #[trigger] d[i] == EventView::ContextExceeded;
            assert(es[i] == d[i]);
        }
    }
}

/// A whole reply: from a fresh start, the reply's events leave its text and
/// its reasoning text, each joined in order, the tool calls of its last
/// tool-call event, and a stop exactly when one event reported a full
/// context; recording the reply writes these into the assistant message.
pub proof fn law_reply_recorded(es: Seq<EventView>, m: Message)
    requires
        recorded_reply(m, reply_after(fresh_reply(), es)),
    ensures
        reply_after(fresh_reply(), es).stop == context_exceeded_in(es),
        m.role@ == "assistant"@,
        m.tool_call_id is None,
        opt_string(m.thinking) == if thinking_of(es).len() > 0 {
            Some(thinking_of(es))
        } else {
            None
        },
        calls_of(es).len() == 0 ==> opt_string(m.content) == Some(content_of(es)) && m.tool_calls is None,
        calls_of(es).len() > 0 ==> m.content is None,
        calls_of(es).len() > 0 ==> (m.tool_calls matches Some(v) && v@.len() == calls_of(es).len()
            && forall|i: int|
            0 <= i < v@.len() ==> (#[trigger] v@[i]).deep() == tool_call_view(
                calls_of(es)[i].id@,
                calls_of(es)[i].name@,
                object_text(calls_of(es)[i].args),
            )),
{
    lemma_reply_after(es);
}

/// A turn whose one reply asks for no tool leaves the history it found
/// followed by exactly two messages: the user's input, then the assistant's
/// message with the reply's text joined in order and its reasoning text,
/// if any. Here `h1` is the history after `begin_turn` and `h2` after
/// `end_reply`, each as those functions state it.
pub proof fn law_plain_turn_history(
    h0: Seq<Message>,
    h1: Seq<Message>,
    h2: Seq<Message>,
    input: Seq<char>,
    es: Seq<EventView>,
)
    requires
        h1.len() == h0.len() + 1,
        h1.take(h0.len() as int) == h0,
        plain_message(h1.last(), "user"@, input),
        h2.len() == h1.len() + 1,
        h2.take(h1.len() as int) == h1,
        recorded_reply(h2.last(), reply_after(fresh_reply(), es)),
        calls_of(es).len() == 0,
    ensures
        h2.len() == h0.len() + 2,
        h2.take(h0.len() as int) == h0,
        plain_message(h2[h0.len() as int], "user"@, input),
        h2.last().role@ == "assistant"@,
        opt_string(h2.last().content) == Some(content_of(es)),
        opt_string(h2.last().thinking) == if thinking_of(es).len() > 0 {
            Some(thinking_of(es))
        } else {
            None
        },
        h2.last().tool_calls is None,
        h2.last().tool_call_id is None,
{
    law_reply_recorded(es, h2.last());
    assert(h2[h0.len() as int] == h2.take(h1.len() as int)[h0.len() as int]);
    assert(h2.take(h0.len() as int) =~= h1.take(h0.len() as int));
}

/// `m` records the result `result` of the tool call with id `id`.
pub open spec fn tool_result_message(m: Message, id: Seq<char>, result: Seq<char>) -> bool {
    &&& m.role@ == "tool"@
    &&& opt_string(m.content) == Some(result)
    &&& m.thinking is None
    &&& m.tool_calls is None
    &&& opt_string(m.tool_call_id) == Some(id)
}

/// A turn with one round of tool calls, answered by a reply that asks for
/// none, leaves the history it found followed by the user's input, the
/// assistant's message with the calls of the first reply (as `end_reply`
/// records them), one tool message per call in order, and the assistant's
/// message with the text of the second reply. Here `h1` is the history
/// after `begin_turn`, `h2` after the first `end_reply`, `h3` after one
/// `push_tool_result` per call, and `h4` after the second `end_reply`.
pub proof fn law_tool_round_turn_history(
    h0: Seq<Message>,
    h1: Seq<Message>,
    h2: Seq<Message>,
    h3: Seq<Message>,
    h4: Seq<Message>,
    input: Seq<char>,
    es1: Seq<EventView>,
    results: Seq<Seq<char>>,
    es2: Seq<EventView>,
)
    requires
        h1.len() == h0.len() + 1,
        h1.take(h0.len() as int) == h0,
        plain_message(h1.last(), "user"@, input),
        h2.len() == h1.len() + 1,
        h2.take(h1.len() as int) == h1,
        recorded_reply(h2.last(), reply_after(fresh_reply(), es1)),
        calls_of(es1).len() > 0,
        results.len() == calls_of(es1).len(),
        h3.len() == h2.len() + results.len(),
        h3.take(h2.len() as int) == h2,
        forall|i: int|
            0 <= i < results.len() ==> tool_result_message(
                #[trigger] h3[h2.len() + i],
                calls_of(es1)[i].id@,
                results[i],
            ),
        h4.len() == h3.len() + 1,
        h4.take(h3.len() as int) == h3,
        recorded_reply(h4.last(), reply_after(fresh_reply(), es2)),
        calls_of(es2).len() == 0,
    ensures
        h4.len() == h0.len() + results.len() + 3,
        h4.take(h0.len() as int) == h0,
        plain_message(h4[h0.len() as int], "user"@, input),
        h4[h0.len() as int + 1].role@ == "assistant"@,
        h4[h0.len() as int + 1].content is None,
        h4[h0.len() as int + 1].tool_calls matches Some(v) && v@.len() == calls_of(es1).len() && forall|
            i: int,
        |
            0 <= i < v@.len() ==> (#[trigger] v@[i]).deep() == tool_call_view(
                calls_of(es1)[i].id@,
                calls_of(es1)[i].name@,
                object_text(calls_of(es1)[i].args),
            ),
        forall|i: int|
            0 <= i < results.len() ==> tool_result_message(
                #[trigger] h4[h0.len() + 2 + i],
                calls_of(es1)[i].id@,
                results[i],
            ),
        h4.last().role@ == "assistant"@,
        opt_string(h4.last().content) == Some(content_of(es2)),
        h4.last().tool_calls is None,
{
    law_reply_recorded(es1, h2.last());
    law_reply_recorded(es2, h4.last());
    let n = h0.len() as int;
    assert(h4[n] == h3[n]);
    assert(h3[n] == h2[n]);
    assert(h2[n] == h1[n]);
    assert(h4[n + 1] == h3[n + 1]);
    assert(h3[n + 1] == h2[n + 1]);
    assert forall|i: int| 0 <= i < results.len() implies tool_result_message(
        #[trigger] h4[h0.len() + 2 + i],
        calls_of(es1)[i].id@,
        results[i],
    ) by {
        assert(h4[n + 2 + i] == h3[h2.len() + i]);
    }
    assert(h4.take(n) =~= h0) by {
        assert forall|j: int| 0 <= j < n implies h4.take(n)[j] == h0[j] by {
            assert(h4[j] == h3[j]);
            assert(h3[j] == h2[j]);
            assert(h2[j] == h1[j]);
            assert(h1[j] == h1.take(n)[j]);
        }
    }
}

impl Turn {
    pub closed spec fn stopping(&self) -> bool {
        self.should_stop
    }

    pub closed spec fn repeats(&self) -> nat {
        self.duplicate_count as nat
    }

    pub closed spec fn last_round(&self) -> Option<Seq<(Seq<char>, Seq<char>)>> {
        match self.last_calls {
            Some(v) => Some(round_view(v@)),
            None => None,
        }
    }

    pub closed spec fn content(&self) -> Seq<char> {
        self.content@
    }

    pub closed spec fn thinking(&self) -> Seq<char> {
        self.thinking@
    }

    pub closed spec fn calls(&self) -> Seq<ToolCall> {
        self.tool_calls@
    }

    /// What the reply being received has delivered.
    pub closed spec fn reply(&self) -> ReplyView {
        ReplyView {
            content: self.content@,
            thinking: self.thinking@,
            calls: self.tool_calls@,
            stop: self.should_stop,
        }
    }

    /// A turn that has not received anything.
    pub fn new() -> (t: Turn)
        ensures
            !t.stopping(),
            t.repeats() == 0,
            t.last_round() is None,
            t.content() == Seq::<char>::empty(),
            t.thinking() == Seq::<char>::empty(),
            t.calls() == Seq::<ToolCall>::empty(),
            t.reply() == fresh_reply(),
    {
        Turn {
            should_stop: false,
            duplicate_count: 0,
            last_calls: None,
            content: String::new(),
            thinking: String::new(),
            tool_calls: Vec::new(),
        }
    }

    /// Whether the turn is to stop.
    pub fn stopped(&self) -> (r: bool)
        ensures
            r == self.stopping(),
    {
        self.should_stop
    }

    /// The tool calls of the reply received.
    pub fn tool_calls(&self) -> (r: &Vec<ToolCall>)
        ensures
            r@ == self.calls(),
    {
        &self.tool_calls
    }

    /// Starts a new reply: nothing delivered yet; whether the turn stops,
    /// the repeat count and the last round stay.
    pub fn start_reply(&mut self)
        ensures
            final(self).reply() == (ReplyView { stop: old(self).stopping(), ..fresh_reply() }),
            final(self).stopping() == old(self).stopping(),
            final(self).repeats() == old(self).repeats(),
            final(self).last_round() == old(self).last_round(),
    {
        self.content = String::new();
        self.thinking = String::new();
        self.tool_calls = Vec::new();
    }

    /// Ends the turn when the user interrupts a reply: what the reply
    /// delivered is dropped, nothing is recorded in the history, and the
    /// session goes on.
    pub fn interrupt(&mut self) -> (keep_session: bool)
        ensures
            keep_session,
            final(self).reply() == (ReplyView { stop: old(self).stopping(), ..fresh_reply() }),
            final(self).stopping() == old(self).stopping(),
            final(self).repeats() == old(self).repeats(),
            final(self).last_round() == old(self).last_round(),
    {
        self.start_reply();
        true
    }

    /// Takes in an event of the reply and says what to do with it: text and
    /// reasoning text are kept and shown, tool calls kept, usage recorded.
    pub fn on_event(&mut self, event: StreamEvent) -> (a: EventAction)
        ensures
            final(self).reply() == reply_step(old(self).reply(), event@),
            final(self).repeats() == old(self).repeats(),
            final(self).last_round() == old(self).last_round(),
            match event {
                StreamEvent::Content(t) => {
                    &&& a matches EventAction::Render(s, ContentType::Normal) && s@ == t@
                    &&& final(self).content() == old(self).content() + t@
                    &&& final(self).thinking() == old(self).thinking()
                    &&& final(self).calls() == old(self).calls()
                    &&& final(self).stopping() == old(self).stopping()
                },
                StreamEvent::Thinking(t) => {
                    &&& a matches EventAction::Render(s, ContentType::Thinking) && s@ == t@
                    &&& final(self).content() == old(self).content()
                    &&& final(self).thinking() == old(self).thinking() + t@
                    &&& final(self).calls() == old(self).calls()
                    &&& final(self).stopping() == old(self).stopping()
                },
                StreamEvent::ToolCalls(c) => {
                    &&& a is Continue
                    &&& final(self).content() == old(self).content()
                    &&& final(self).thinking() == old(self).thinking()
                    &&& final(self).calls() == c@
                    &&& final(self).stopping() == old(self).stopping()
                },
                StreamEvent::Usage { total_tokens } => {
                    &&& a == EventAction::SetUsage(total_tokens)
                    &&& final(self).content() == old(self).content()
                    &&& final(self).thinking() == old(self).thinking()
                    &&& final(self).calls() == old(self).calls()
                    &&& final(self).stopping() == old(self).stopping()
                },
                StreamEvent::ContextExceeded => {
                    &&& a is ContextExceeded
                    &&& final(self).content() == old(self).content()
                    &&& final(self).thinking() == old(self).thinking()
                    &&& final(self).calls() == old(self).calls()
                    &&& final(self).stopping()
                },
                StreamEvent::Error(e) => {
                    &&& a matches EventAction::ServerError(s) && s@ == e@
                    &&& final(self).content() == old(self).content()
                    &&& final(self).thinking() == old(self).thinking()
                    &&& final(self).calls() == old(self).calls()
                    &&& final(self).stopping() == old(self).stopping()
                },
                StreamEvent::Done => {
                    &&& a is Done
                    &&& final(self).content() == old(self).content()
                    &&& final(self).thinking() == old(self).thinking()
                    &&& final(self).calls() == old(self).calls()
                    &&& final(self).stopping() == old(self).stopping()
                },
            },
    {
        match event {
            StreamEvent::Content(text) => {
                push_str(&mut self.content, text.as_str());
                EventAction::Render(text, ContentType::Normal)
            },
            StreamEvent::Thinking(text) => {
                push_str(&mut self.thinking, text.as_str());
                EventAction::Render(text, ContentType::Thinking)
            },
            StreamEvent::ToolCalls(calls) => {
                self.tool_calls = calls;
                EventAction::Continue
            },
            StreamEvent::Usage { total_tokens } => EventAction::SetUsage(total_tokens),
            StreamEvent::ContextExceeded => {
                self.should_stop = true;
                EventAction::ContextExceeded
            },
            StreamEvent::Error(err) => EventAction::ServerError(err),
            StreamEvent::Done => EventAction::Done,
        }
    }

    /// Ends a reply: records it in the history, with its text when it asked
    /// for no tool, else with its tool calls and their arguments as JSON
    /// text, and says whether tools are to run. The reasoning text is kept
    /// unless it is empty. A new reply starts empty.
    pub fn end_reply(&mut self, history: &mut Vec<Message>) -> (run_tools: bool)
        ensures
            recorded_reply(final(history)@.last(), old(self).reply()),
            run_tools == (old(self).calls().len() > 0),
            final(history)@.len() == old(history)@.len() + 1,
            final(history)@.take(old(history)@.len() as int) == old(history)@,
            final(history)@.last().role@ == "assistant"@,
            final(history)@.last().tool_call_id is None,
            opt_string(final(history)@.last().thinking) == if old(self).thinking().len() > 0 {
                Some(old(self).thinking())
            } else {
                None
            },
            !run_tools ==> opt_string(final(history)@.last().content) == Some(old(self).content())
                && final(history)@.last().tool_calls is None,
            run_tools ==> final(history)@.last().content is None,
            run_tools ==> (final(history)@.last().tool_calls matches Some(v) && v@.len() == old(
                self,
            ).calls().len() && forall|i: int|
                0 <= i < v@.len() ==> (#[trigger] v@[i]).deep() == tool_call_view(
                    old(self).calls()[i].id@,
                    old(self).calls()[i].name@,
                    object_text(old(self).calls()[i].args),
                )),
            final(self).stopping() == old(self).stopping(),
            final(self).repeats() == old(self).repeats(),
            final(self).last_round() == old(self).last_round(),
            final(self).calls() == old(self).calls(),
            final(self).content() == Seq::<char>::empty(),
            final(self).thinking() == Seq::<char>::empty(),
    {
        let mut content = String::new();
        std::mem::swap(&mut content, &mut self.content);
        let mut thinking = String::new();
        std::mem::swap(&mut thinking, &mut self.thinking);
        let thinking_opt = if thinking.as_str().is_empty() {
            None
        } else {
            Some(thinking)
        };
        if self.tool_calls.len() == 0 {
            history.push(
                Message {
                    role: "assistant".to_owned(),
                    content: Some(content),
                    thinking: thinking_opt,
                    tool_calls: None,
                    tool_call_id: None,
                },
            );
            assert(history@.take(old(history)@.len() as int) =~= old(history)@);
            false
        } else {
            let mut jsons: Vec<JsonValue> = Vec::new();
            let mut i: usize = 0;
            while i < self.tool_calls.len()
                invariant
                    i <= self.tool_calls@.len(),
                    self.tool_calls@ == old(self).calls(),
                    jsons@.len() == i,
                    forall|j: int|
                        0 <= j < i ==> (#[trigger] jsons@[j]).deep() == tool_call_view(
                            self.tool_calls@[j].id@,
                            self.tool_calls@[j].name@,
                            object_text(self.tool_calls@[j].args),
                        ),
                decreases self.tool_calls@.len() - i,
            {
                jsons.push(tool_call_json(&self.tool_calls[i]));
                i += 1;
            }
            history.push(
                Message {
                    role: "assistant".to_owned(),
                    content: None,
                    thinking: thinking_opt,
                    tool_calls: Some(jsons),
                    tool_call_id: None,
                },
            );
            assert(history@.take(old(history)@.len() as int) =~= old(history)@);
            true
        }
    }

    /// Ends a round of tool calls (see `after_round`), comparing calls by
    /// name and arguments as JSON text. Says whether this round was a
    /// repeat that reached `MAX_REPEATS`.
    pub fn after_tools(&mut self) -> (limit: bool)
        ensures
            limit == (old(self).last_round() == Some(round_of(old(self).calls()))
                && final(self).repeats() >= MAX_REPEATS),
            (final(self).stopping(), final(self).repeats(), final(self).last_round()) == after_round(
                old(self).stopping(),
                old(self).repeats(),
                old(self).last_round(),
                round_of(old(self).calls()),
            ),
            final(self).calls() == old(self).calls(),
            final(self).content() == old(self).content(),
            final(self).thinking() == old(self).thinking(),
    {
        let ghost round = round_of(self.tool_calls@);
        let mut current: Vec<(String, String)> = Vec::new();
        let mut i: usize = 0;
        while i < self.tool_calls.len()
            invariant
                i <= self.tool_calls@.len(),
                round == round_of(self.tool_calls@),
                round_view(current@) == round.take(i as int),
            decreases self.tool_calls@.len() - i,
        {
            let ghost before = round_view(current@);
            let name = self.tool_calls[i].name.clone();
            let text = encode_object(&self.tool_calls[i].args);
            current.push((name, text));
            assert(round_view(current@) =~= before.push(round[i as int]));
            assert(round.take(i + 1) =~= round.take(i as int).push(round[i as int]));
            i += 1;
        }
        assert(round.take(i as int) =~= round);
        let same = match &self.last_calls {
            Some(last) => Some(same_round(last, &current)),
            None => None,
        };
        let mut limit = false;
        match same {
            Some(true) => {
                self.duplicate_count = self.duplicate_count.saturating_add(1);
                if self.duplicate_count >= MAX_REPEATS {
                    self.should_stop = true;
                    limit = true;
                }
            },
            Some(false) => {
                self.duplicate_count = 0;
            },
            None => {},
        }
        self.last_calls = Some(current);
        limit
    }
}

/// Whether two rounds of calls are the same.
fn same_round(a: &Vec<(String, String)>, b: &Vec<(String, String)>) -> (r: bool)
    ensures
        r == (round_view(a@) == round_view(b@)),
{
    if a.len() != b.len() {
        assert(round_view(a@).len() != round_view(b@).len());
        return false;
    }
    let mut i: usize = 0;
    while i < a.len()
        invariant
            i <= a@.len(),
            a@.len() == b@.len(),
            forall|j: int| 0 <= j < i ==> round_view(a@)[j] == round_view(b@)[j],
        decreases a@.len() - i,
    {
        if a[i].0 != b[i].0 || a[i].1 != b[i].1 {
            assert(round_view(a@)[i as int] != round_view(b@)[i as int]);
            return false;
        }
        i += 1;
    }
    assert(round_view(a@) =~= round_view(b@));
    true
}

/// Records the result of a tool call in the history.
pub fn push_tool_result(history: &mut Vec<Message>, id: &str, result: String)
    ensures
        final(history)@.len() == old(history)@.len() + 1,
        final(history)@.take(old(history)@.len() as int) == old(history)@,
        final(history)@.last().role@ == "tool"@,
        opt_string(final(history)@.last().content) == Some(result@),
        final(history)@.last().thinking is None,
        final(history)@.last().tool_calls is None,
        opt_string(final(history)@.last().tool_call_id) == Some(id@),
{
    history.push(
        Message {
            role: "tool".to_owned(),
            content: Some(result),
            thinking: None,
            tool_calls: None,
            tool_call_id: Some(id.to_owned()),
        },
    );
    assert(history@.take(old(history)@.len() as int) =~= old(history)@);
}

/// A turn stops once the same round of tool calls has come four times in a
/// row, whatever came before.
pub proof fn law_same_round_four_times_stops(
    stop: bool,
    repeats: nat,
    last: Option<Seq<(Seq<char>, Seq<char>)>>,
    round: Seq<(Seq<char>, Seq<char>)>,
)
    requires
        repeats <= usize::MAX,
    ensures
        ({
            let s1 = after_round(stop, repeats, last, round);
            let s2 = after_round(s1.0, s1.1, s1.2, round);
            let s3 = after_round(s2.0, s2.1, s2.2, round);
            let s4 = after_round(s3.0, s3.1, s3.2, round);
            s4.0
        }),
{
}

/// From a fresh turn, the same round of tool calls stops it at its fourth
/// time and not before.
pub proof fn law_fresh_turn_stops_at_fourth_same_round(round: Seq<(Seq<char>, Seq<char>)>)
    ensures
        ({
            let s1 = after_round(false, 0, None, round);
            let s2 = after_round(s1.0, s1.1, s1.2, round);
            let s3 = after_round(s2.0, s2.1, s2.2, round);
            let s4 = after_round(s3.0, s3.1, s3.2, round);
            !s1.0 && !s2.0 && !s3.0 && s4.0
        }),
{
}

/// A round that differs from the last one clears the repeat count and
/// does not stop the turn.
pub proof fn law_new_round_clears_repeats(
    stop: bool,
    repeats: nat,
    last: Seq<(Seq<char>, Seq<char>)>,
    round: Seq<(Seq<char>, Seq<char>)>,
)
    requires
        last != round,
    ensures
        after_round(stop, repeats, Some(last), round) == (stop, 0nat, Some(round)),
{
}

} // verus!
