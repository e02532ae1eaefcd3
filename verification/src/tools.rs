//! Formatting of tool results (file reads, globs, greps, shell commands)
//! and the safety filter for shell commands.
use vstd::prelude::*;
use vstd::multiset::Multiset;
use crate::json::{opt_str, opt_u64, JsonObject};
use crate::text::{
    byte_len, chars_of, decimal, lemma_byte_len_push, split_lines, text_lines,
    lemma_byte_len_take_mono, push_chars, push_decimal, push_str, slice_of, utf8_width_exec,
};

verus! {

/// A call of a tool that the model asked for.
pub struct ToolCall {
    pub id: String,
    pub name: String,
    pub args: JsonObject,
}

/// Lines above this count are cut down to a head and a tail.
pub const MAX_OUTPUT_LINES: usize = 500;

/// Lines kept at the end of a cut-down output.
pub const MAX_OUTPUT_CONTEXT: usize = 50;

/// Lines longer than this many bytes are cut.
pub const MAX_LINE_WIDTH: usize = 2000;

/// Some prefix of `s` is exactly `b` bytes long (`b` is a character boundary).
pub open spec fn has_boundary(s: Seq<char>, b: int) -> bool {
    exists|k: int| 0 <= k <= s.len() && byte_len(s.take(k)) == b
}

/// Number of characters in the prefix of `s` that is `b` bytes long.
pub open spec fn boundary_index(s: Seq<char>, b: int) -> int {
    choose|k: int| 0 <= k <= s.len() && byte_len(s.take(k)) == b
}

/// Cutting a line at `MAX_LINE_WIDTH` bytes does not split a character.
pub open spec fn truncatable(line: Seq<char>) -> bool {
    byte_len(line) > MAX_LINE_WIDTH ==> has_boundary(line, MAX_LINE_WIDTH as int)
}

/// A line cut to its first `MAX_LINE_WIDTH` bytes, marked with `...`.
pub open spec fn truncated(line: Seq<char>) -> Seq<char> {
    if byte_len(line) > MAX_LINE_WIDTH {
        line.take(boundary_index(line, MAX_LINE_WIDTH as int)) + seq!['.', '.', '.']
    } else {
        line
    }
}

/// Lines joined with `\n`.
pub open spec fn join_lines(ls: Seq<Seq<char>>) -> Seq<char>
    decreases ls.len(),
{
    if ls.len() == 0 {
        Seq::empty()
    } else if ls.len() == 1 {
        ls[0]
    } else {
        join_lines(ls.drop_last()) + seq!['\n'] + ls.last()
    }
}

/// Every line cut.
pub open spec fn truncated_all(ls: Seq<Seq<char>>) -> Seq<Seq<char>> {
    ls.map_values(|l: Seq<char>| truncated(l))
}

/// The line at `i` is part of the formatted output (all lines of a short
/// output; the head and the tail of a long one).
pub open spec fn is_kept(n: int, i: int) -> bool {
    n <= MAX_OUTPUT_LINES || i < MAX_OUTPUT_LINES - MAX_OUTPUT_CONTEXT || i >= n - MAX_OUTPUT_CONTEXT
}

/// Every line that the formatted output keeps can be cut safely.
pub open spec fn output_ok(ls: Seq<Seq<char>>) -> bool {
    forall|i: int| 0 <= i < ls.len() && is_kept(ls.len() as int, i) ==> truncatable(#[trigger] ls[i])
}

/// Tool output: lines cut at `MAX_LINE_WIDTH` bytes and joined; more than
/// `MAX_OUTPUT_LINES` lines are cut down to the first 450 and the last 50
/// with a note of how many were left out.
pub open spec fn format_output(ls: Seq<Seq<char>>) -> Seq<char> {
    if ls.len() > MAX_OUTPUT_LINES {
        let head = (MAX_OUTPUT_LINES - MAX_OUTPUT_CONTEXT) as int;
        join_lines(truncated_all(ls.take(head))) + "\n\n[... "@ + decimal(
            (ls.len() - head - MAX_OUTPUT_CONTEXT) as nat,
        ) + " lines truncated ...]\n\n"@ + join_lines(
            truncated_all(ls.skip(ls.len() - MAX_OUTPUT_CONTEXT)),
        )
    } else {
        join_lines(truncated_all(ls))
    }
}

/// Views of string slices.
pub open spec fn str_views(v: Seq<&str>) -> Seq<Seq<char>> {
    v.map_values(|s: &str| s@)
}

/// Cuts a line to its first `MAX_LINE_WIDTH` bytes, followed by `...`.
pub fn truncate_line(line: &str) -> (r: String)
    requires
        truncatable(line@),
    ensures
        r@ == truncated(line@),
{
    let v = chars_of(line);
    truncate_chars(&v)
}

/// `truncate_line` on characters.
fn truncate_chars(v: &Vec<char>) -> (r: String)
    requires
        truncatable(v@),
    ensures
        r@ == truncated(v@),
{
    let ghost line = v@;
    // scan the first MAX_LINE_WIDTH bytes
    let mut k: usize = 0;
    let mut b: usize = 0;
    assert(v@.take(0) =~= Seq::<char>::empty());
    while k < v.len() && b < MAX_LINE_WIDTH
        invariant
            k <= v@.len(),
            b == byte_len(v@.take(k as int)),
            b <= MAX_LINE_WIDTH + 3,
            v@ == line,
            k > 0 ==> byte_len(v@.take(k - 1)) < MAX_LINE_WIDTH,
        decreases v@.len() - k,
    {
        proof {
            assert(v@.take(k + 1) =~= v@.take(k as int).push(v@[k as int]));
            lemma_byte_len_push(v@.take(k as int), v@[k as int]);
        }
        b = b + utf8_width_exec(v[k]);
        k = k + 1;
    }
    if k == v.len() && b <= MAX_LINE_WIDTH {
        assert(v@.take(k as int) =~= v@);
        let mut r = String::new();
        push_chars(&mut r, v);
        r
    } else {
        proof {
            if k < v@.len() {
                lemma_byte_len_take_mono(v@, k as int, v@.len() as int);
            }
            assert(v@.take(v@.len() as int) =~= v@);
            assert(byte_len(line) > MAX_LINE_WIDTH);
            let kk = boundary_index(line, MAX_LINE_WIDTH as int);
            if kk < k {
                if kk < k - 1 {
                    lemma_byte_len_take_mono(v@, kk, k - 1);
                }
                assert(false);
            }
            if kk > k {
                lemma_byte_len_take_mono(v@, k as int, kk);
                assert(false);
            }
        }
        let mut r = String::new();
        let head = slice_of(v, 0, k);
        assert(head@ =~= line.take(k as int));
        push_chars(&mut r, &head);
        r.push('.');
        r.push('.');
        r.push('.');
        assert(r@ =~= truncated(line));
        r
    }
}

/// `join_lines` of a prefix grows by one line at a time.
pub proof fn lemma_join_push(ls: Seq<Seq<char>>, x: Seq<char>)
    ensures
        join_lines(ls.push(x)) == if ls.len() == 0 {
            x
        } else {
            join_lines(ls) + seq!['\n'] + x
        },
{
    assert(ls.push(x).drop_last() =~= ls);
}

/// Views of character vectors.
pub open spec fn char_views(v: Seq<Vec<char>>) -> Seq<Seq<char>> {
    v.map_values(|l: Vec<char>| l@)
}

/// Appends the cut lines `ls[from..to]`, joined with `\n`, to `out`.
fn push_joined(out: &mut String, lines: &Vec<Vec<char>>, from: usize, to: usize)
    requires
        from <= to <= lines@.len(),
        forall|i: int| from <= i < to ==> truncatable(#[trigger] lines@[i]@),
    ensures
        final(out)@ == old(out)@ + join_lines(
            truncated_all(char_views(lines@).subrange(from as int, to as int)),
        ),
{
    let ghost ls = char_views(lines@);
    let mut i = from;
    assert(truncated_all(ls.subrange(from as int, from as int)) =~= Seq::<Seq<char>>::empty());
    while i < to
        invariant
            from <= i <= to <= lines@.len(),
            ls == char_views(lines@),
            forall|j: int| from <= j < to ==> truncatable(#[trigger] lines@[j]@),
            out@ == old(out)@ + join_lines(truncated_all(ls.subrange(from as int, i as int))),
        decreases to - i,
    {
        let line = truncate_chars(&lines[i]);
        let ghost prev = truncated_all(ls.subrange(from as int, i as int));
        if i > from {
            out.push('\n');
        }
        let lv = chars_of(line.as_str());
        push_chars(out, &lv);
        proof {
            assert(truncated_all(ls.subrange(from as int, i + 1)) =~= prev.push(truncated(ls[i as int])));
            lemma_join_push(prev, truncated(ls[i as int]));
        }
        i = i + 1;
    }
}

/// Formats tool output lines (see `format_output`).
pub fn format_output_chars(lines: &Vec<Vec<char>>) -> (r: String)
    requires
        output_ok(char_views(lines@)),
    ensures
        r@ == format_output(char_views(lines@)),
{
    let ghost ls = char_views(lines@);
    assert forall|i: int| 0 <= i < lines@.len() && is_kept(lines@.len() as int, i) implies truncatable(
        #[trigger] lines@[i]@,
    ) by {
        assert(ls[i] == lines@[i]@);
    }
    let mut r = String::new();
    if lines.len() > MAX_OUTPUT_LINES {
        let head_lines = MAX_OUTPUT_LINES - MAX_OUTPUT_CONTEXT;
        push_joined(&mut r, lines, 0, head_lines);
        push_str(&mut r, "\n\n[... ");
        let skipped = lines.len() - head_lines - MAX_OUTPUT_CONTEXT;
        push_decimal(&mut r, skipped);
        push_str(&mut r, " lines truncated ...]\n\n");
        push_joined(&mut r, lines, lines.len() - MAX_OUTPUT_CONTEXT, lines.len());
        assert(ls.subrange(0, head_lines as int) =~= ls.take(head_lines as int));
        assert(ls.subrange(lines.len() - MAX_OUTPUT_CONTEXT, lines@.len() as int) =~= ls.skip(
            lines.len() - MAX_OUTPUT_CONTEXT,
        ));
    } else {
        push_joined(&mut r, lines, 0, lines.len());
        assert(ls.subrange(0, lines@.len() as int) =~= ls);
    }
    r
}

/// Formats tool output lines: each cut at `MAX_LINE_WIDTH` bytes, joined
/// with line breaks, and a long output cut down to its head and tail (see
/// `format_output`).
pub fn format_output_lines(lines: Vec<&str>) -> (r: String)
    requires
        output_ok(str_views(lines@)),
    ensures
        r@ == format_output(str_views(lines@)),
{
    let mut v: Vec<Vec<char>> = Vec::new();
    let mut i: usize = 0;
    while i < lines.len()
        invariant
            i <= lines@.len(),
            char_views(v@) == str_views(lines@).take(i as int),
        decreases lines@.len() - i,
    {
        let ghost before = char_views(v@);
        let cv = chars_of(lines[i]);
        v.push(cv);
        assert(char_views(v@) =~= before.push(lines@[i as int]@));
        assert(str_views(lines@).take(i + 1) =~= str_views(lines@).take(i as int).push(lines@[i as int]@));
        i += 1;
    }
    assert(str_views(lines@).take(i as int) =~= str_views(lines@));
    format_output_chars(&v)
}

// ---------------------------------------------------------------------------
// Tool reports
// ---------------------------------------------------------------------------

/// The lines from position `offset` on (none when `offset` is past the end).
pub open spec fn lines_from(ls: Seq<Seq<char>>, offset: int) -> Seq<Seq<char>> {
    if offset <= ls.len() {
        ls.skip(offset)
    } else {
        Seq::empty()
    }
}

/// Summary line of a file read: the file name and which lines are shown.
pub open spec fn read_summary(filename: Seq<char>, offset: int, total: int, count: int) -> Seq<char> {
    if count > MAX_OUTPUT_LINES {
        let shown = MAX_OUTPUT_LINES as int;
        if offset > 0 {
            "Reading "@ + filename + " (lines "@ + decimal((offset + 1) as nat) + "-"@ + decimal(
                (offset + shown) as nat,
            ) + " of "@ + decimal(total as nat) + ")"@
        } else {
            "Reading "@ + filename + " (lines 1-"@ + decimal(shown as nat) + " of "@ + decimal(
                total as nat,
            ) + ")"@
        }
    } else {
        if offset > 0 {
            "Reading "@ + filename + " (lines "@ + decimal((offset + 1) as nat) + "-"@ + decimal(
                (offset + count) as nat,
            ) + " of "@ + decimal(total as nat) + ")"@
        } else if total == 1 {
            "Reading "@ + filename + " (1 line)"@
        } else {
            "Reading "@ + filename + " (lines 1-"@ + decimal(count as nat) + ")"@
        }
    }
}

/// Text of a file read: the formatted lines from `offset` on, and, when
/// reading from an offset, a note of the line range.
pub open spec fn read_result(ls: Seq<Seq<char>>, offset: int) -> Seq<char> {
    let from = lines_from(ls, offset);
    format_output(from) + if offset > 0 {
        "\n\n[Read from line "@ + decimal((offset + 1) as nat) + " to "@ + decimal(
            (offset + from.len()) as nat,
        ) + " of "@ + decimal(ls.len()) + " total]"@
    } else {
        Seq::empty()
    }
}

/// Copies the character vectors `v[from..]`.
fn lines_from_exec(v: &Vec<Vec<char>>, from: usize) -> (r: Vec<Vec<char>>)
    ensures
        char_views(r@) == lines_from(char_views(v@), from as int),
{
    let mut r: Vec<Vec<char>> = Vec::new();
    if from > v.len() {
        assert(char_views(r@) =~= Seq::<Seq<char>>::empty());
        return r;
    }
    let mut i = from;
    assert(char_views(v@).skip(from as int).take(0) =~= char_views(r@));
    while i < v.len()
        invariant
            from <= i <= v@.len(),
            char_views(r@) == char_views(v@).skip(from as int).take(i - from),
        decreases v@.len() - i,
    {
        let ghost before = char_views(r@);
        let line = slice_of(&v[i], 0, v[i].len());
        assert(line@ =~= v@[i as int]@);
        r.push(line);
        assert(char_views(r@) =~= before.push(v@[i as int]@));
        assert(char_views(v@).skip(from as int).take(i + 1 - from) =~= before.push(v@[i as int]@));
        i += 1;
    }
    assert(char_views(v@).skip(from as int).take(i - from) =~= char_views(v@).skip(from as int));
    r
}

/// Summary and text of reading a file whose content is `content`, from
/// line `offset + 1` on.
pub fn read_report(filename: &str, offset: usize, content: &str) -> (r: (String, String))
    requires
        offset < usize::MAX,
        output_ok(lines_from(text_lines(content@), offset as int)),
    ensures
        r.0@ == read_summary(
            filename@,
            offset as int,
            text_lines(content@).len() as int,
            lines_from(text_lines(content@), offset as int).len() as int,
        ),
        r.1@ == read_result(text_lines(content@), offset as int),
{
    let chars = chars_of(content);
    let all_lines = split_lines(&chars);
    let total_lines = all_lines.len();
    let lines_from_offset = lines_from_exec(&all_lines, offset);
    let lines_from_offset_count = lines_from_offset.len();
    let ghost ls = text_lines(content@);
    assert(char_views(all_lines@) == ls);
    assert(offset + lines_from_offset_count <= total_lines || lines_from_offset_count == 0);
    let mut summary = String::new();
    push_str(&mut summary, "Reading ");
    push_str(&mut summary, filename);
    if lines_from_offset_count > MAX_OUTPUT_LINES {
        let head_lines = MAX_OUTPUT_LINES - MAX_OUTPUT_CONTEXT;
        let lines_shown = head_lines + MAX_OUTPUT_CONTEXT;
        let end_line = offset + lines_shown;
        if offset > 0 {
            push_str(&mut summary, " (lines ");
            push_decimal(&mut summary, offset + 1);
            push_str(&mut summary, "-");
            push_decimal(&mut summary, end_line);
            push_str(&mut summary, " of ");
            push_decimal(&mut summary, total_lines);
            push_str(&mut summary, ")");
        } else {
            push_str(&mut summary, " (lines 1-");
            push_decimal(&mut summary, lines_shown);
            push_str(&mut summary, " of ");
            push_decimal(&mut summary, total_lines);
            push_str(&mut summary, ")");
        }
    } else {
        let end_line = offset + lines_from_offset_count;
        if offset > 0 {
            push_str(&mut summary, " (lines ");
            push_decimal(&mut summary, offset + 1);
            push_str(&mut summary, "-");
            push_decimal(&mut summary, end_line);
            push_str(&mut summary, " of ");
            push_decimal(&mut summary, total_lines);
            push_str(&mut summary, ")");
        } else if total_lines == 1 {
            push_str(&mut summary, " (1 line)");
        } else {
            push_str(&mut summary, " (lines 1-");
            push_decimal(&mut summary, lines_from_offset_count);
            push_str(&mut summary, ")");
        }
    }
    let mut result = format_output_chars(&lines_from_offset);
    if offset > 0 {
        push_str(&mut result, "\n\n[Read from line ");
        push_decimal(&mut result, offset + 1);
        push_str(&mut result, " to ");
        push_decimal(&mut result, offset + lines_from_offset_count);
        push_str(&mut result, " of ");
        push_decimal(&mut result, total_lines);
        push_str(&mut result, " total]");
    }
    assert(summary@ =~= read_summary(filename@, offset as int, total_lines as int, lines_from_offset_count as int));
    assert(result@ =~= read_result(ls, offset as int));
    (summary, result)
}

/// The text a shell command reports: its standard output when it
/// succeeded, else its error output, else its exit status.
pub open spec fn bash_text(success: bool, stdout: Seq<char>, stderr: Seq<char>, status: Seq<char>) -> Seq<char> {
    if success {
        stdout
    } else if stderr.len() > 0 {
        stderr
    } else {
        "Command exited with status: "@ + status
    }
}

/// Summary line of a shell command's output.
pub open spec fn bash_summary(total: int) -> Seq<char> {
    if total > MAX_OUTPUT_LINES {
        "Command output ("@ + decimal(total as nat) + " lines, showing first "@ + decimal(
            (MAX_OUTPUT_LINES - MAX_OUTPUT_CONTEXT) as nat,
        ) + ")"@
    } else {
        "Command output ("@ + decimal(total as nat) + " lines)"@
    }
}

/// Summary and text of a finished shell command; `status` is how its exit
/// status prints.
pub fn bash_report(success: bool, stdout: &str, stderr: &str, status: &str) -> (r: (String, String))
    requires
        output_ok(text_lines(bash_text(success, stdout@, stderr@, status@))),
    ensures
        r.0@ == bash_summary(text_lines(bash_text(success, stdout@, stderr@, status@)).len() as int),
        r.1@ == format_output(text_lines(bash_text(success, stdout@, stderr@, status@))),
{
    let mut result = String::new();
    if success {
        push_str(&mut result, stdout);
    } else if !stderr.is_empty() {
        push_str(&mut result, stderr);
    } else {
        push_str(&mut result, "Command exited with status: ");
        push_str(&mut result, status);
    }
    let chars = chars_of(result.as_str());
    let output_lines = split_lines(&chars);
    let total_lines = output_lines.len();
    let mut summary = String::new();
    push_str(&mut summary, "Command output (");
    push_decimal(&mut summary, total_lines);
    if total_lines > MAX_OUTPUT_LINES {
        push_str(&mut summary, " lines, showing first ");
        push_decimal(&mut summary, MAX_OUTPUT_LINES - MAX_OUTPUT_CONTEXT);
        push_str(&mut summary, ")");
    } else {
        push_str(&mut summary, " lines)");
    }
    let result_text = format_output_chars(&output_lines);
    assert(summary@ =~= bash_summary(total_lines as int));
    (summary, result_text)
}

// ---------------------------------------------------------------------------
// Sorted path lists
// ---------------------------------------------------------------------------

/// `a` comes no later than `b` in the order of `String`s (lexicographic by
/// code point, which is the byte order of their UTF-8 encodings).
pub open spec fn text_le(a: Seq<char>, b: Seq<char>) -> bool
    decreases a.len(),
{
    if a.len() == 0 {
        true
    } else if b.len() == 0 {
        false
    } else if a[0] != b[0] {
        a[0] < b[0]
    } else {
        text_le(a.drop_first(), b.drop_first())
    }
}

/// The texts are in order.
pub open spec fn sorted_texts(s: Seq<Seq<char>>) -> bool {
    forall|i: int, j: int| 0 <= i < j < s.len() ==> text_le(#[trigger] s[i], #[trigger] s[j])
}

/// The order of texts is total.
pub proof fn lemma_text_le_total(a: Seq<char>, b: Seq<char>)
    ensures
        text_le(a, b) || text_le(b, a),
    decreases a.len(),
{
    if a.len() > 0 && b.len() > 0 && a[0] == b[0] {
        lemma_text_le_total(a.drop_first(), b.drop_first());
    }
}

/// The order of texts is transitive.
pub proof fn lemma_text_le_trans(a: Seq<char>, b: Seq<char>, c: Seq<char>)
    requires
        text_le(a, b),
        text_le(b, c),
    ensures
        text_le(a, c),
    decreases a.len(),
{
    if a.len() > 0 && b.len() > 0 && c.len() > 0 && a[0] == b[0] && b[0] == c[0] {
        lemma_text_le_trans(a.drop_first(), b.drop_first(), c.drop_first());
    }
}

/// Whether `a` comes no later than `b` (see `text_le`).
fn text_le_exec(a: &Vec<char>, b: &Vec<char>) -> (r: bool)
    ensures
        r == text_le(a@, b@),
{
    let mut i: usize = 0;
    assert(a@.skip(0) =~= a@ && b@.skip(0) =~= b@);
    while i < a.len() && i < b.len() && a[i] == b[i]
        invariant
            i <= a@.len(),
            i <= b@.len(),
            text_le(a@, b@) == text_le(a@.skip(i as int), b@.skip(i as int)),
        decreases a@.len() - i,
    {
        assert(a@.skip(i as int).drop_first() =~= a@.skip(i + 1));
        assert(b@.skip(i as int).drop_first() =~= b@.skip(i + 1));
        i += 1;
    }
    let ghost sa = a@.skip(i as int);
    let ghost sb = b@.skip(i as int);
    if i == a.len() {
        assert(sa.len() == 0);
        true
    } else if i == b.len() {
        false
    } else {
        assert(sa[0] == a@[i as int] && sb[0] == b@[i as int]);
        a[i] < b[i]
    }
}

/// Sorts texts into the order of `String`s.
fn sort_texts(v: Vec<Vec<char>>) -> (r: Vec<Vec<char>>)
    ensures
        sorted_texts(char_views(r@)),
        char_views(r@).to_multiset() == char_views(v@).to_multiset(),
{
    let mut r: Vec<Vec<char>> = Vec::new();
    let mut v = v;
    let ghost orig = char_views(v@);
    proof {
        broadcast use vstd::seq_lib::group_to_multiset_ensures;
        broadcast use vstd::multiset::group_multiset_axioms;
        vstd::multiset::lemma_multiset_empty_len(char_views(r@).to_multiset());
        assert(char_views(r@).to_multiset() =~= Multiset::empty());
        assert(char_views(r@).to_multiset().add(orig.to_multiset()) =~= orig.to_multiset());
    }
    while v.len() > 0
        invariant
            sorted_texts(char_views(r@)),
            char_views(r@).to_multiset().add(char_views(v@).to_multiset()) == orig.to_multiset(),
        decreases v@.len(),
    {
        let ghost before_v = char_views(v@);
        let x = v.pop().unwrap();
        assert(before_v =~= char_views(v@).push(x@));
        // first position whose text does not come before x
        let mut p: usize = 0;
        while p < r.len() && !text_le_exec(&x, &r[p])
            invariant
                p <= r@.len(),
                forall|k: int| 0 <= k < p ==> !text_le(x@, #[trigger] r@[k]@),
            decreases r@.len() - p,
        {
            p += 1;
        }
        let ghost before_r = char_views(r@);
        r.insert(p, x);
        proof {
            let after = char_views(r@);
            assert(after =~= before_r.insert(p as int, x@));
            before_r.insert_ensures(p as int, x@);
            broadcast use vstd::seq_lib::group_to_multiset_ensures;
            broadcast use vstd::multiset::group_multiset_axioms;
            assert(after.to_multiset() == before_r.to_multiset().insert(x@));
            assert(before_v.to_multiset() == char_views(v@).to_multiset().insert(x@));
            assert(after.to_multiset().add(char_views(v@).to_multiset()) =~= before_r.to_multiset().add(
                before_v.to_multiset(),
            ));
            assert forall|i: int, j: int| 0 <= i < j < after.len() implies text_le(
                #[trigger] after[i],
                #[trigger] after[j],
            ) by {
                if i < p && j == p {
                    assert(!text_le(x@, r@[i]@)) by {
                        assert(r@[i]@ == before_r[i]);
                    }
                    lemma_text_le_total(x@, before_r[i]);
                } else if i == p && j > p {
                    if p < before_r.len() {
                        assert(text_le(x@, before_r[p as int]));
                        if j - 1 > p {
                            assert(text_le(before_r[p as int], before_r[j - 1]));
                            lemma_text_le_trans(x@, before_r[p as int], before_r[j - 1]);
                        }
                    }
                } else if i < p && j > p {
                    assert(text_le(before_r[i], before_r[j - 1]));
                } else if j < p {
                    assert(text_le(before_r[i], before_r[j]));
                } else {
                    assert(text_le(before_r[i - 1], before_r[j - 1]));
                }
            }
        }
    }
    proof {
        broadcast use vstd::seq_lib::group_to_multiset_ensures;
        broadcast use vstd::multiset::group_multiset_axioms;
        vstd::multiset::lemma_multiset_empty_len(char_views(v@).to_multiset());
        assert(char_views(v@).to_multiset() =~= Multiset::empty());
        assert(char_views(r@).to_multiset().add(char_views(v@).to_multiset()) =~= char_views(r@).to_multiset());
    }
    r
}

/// `./` as a sequence of characters.
pub open spec fn dot_slash() -> Seq<char> {
    seq!['.', '/']
}

/// Paths without their leading `./`s.
pub open spec fn trimmed_paths(paths: Seq<Seq<char>>) -> Seq<Seq<char>> {
    paths.map_values(|p: Seq<char>| crate::text::trim_start_matches(p, dot_slash()))
}

/// `m` lists the same paths as `paths`, in order.
pub open spec fn sorted_listing(m: Seq<Seq<char>>, paths: Seq<Seq<char>>) -> bool {
    sorted_texts(m) && m.to_multiset() == trimmed_paths(paths).to_multiset()
}

/// Views of `String`s.
pub open spec fn string_views(v: Seq<String>) -> Seq<Seq<char>> {
    v.map_values(|s: String| s@)
}

/// The texts in order (byte order, as `String`s sort).
pub fn sort_strings(v: Vec<String>) -> (r: Vec<String>)
    ensures
        sorted_texts(string_views(r@)),
        string_views(r@).to_multiset() == string_views(v@).to_multiset(),
{
    let mut cv: Vec<Vec<char>> = Vec::new();
    let mut i: usize = 0;
    while i < v.len()
        invariant
            i <= v@.len(),
            char_views(cv@) == string_views(v@).take(i as int),
        decreases v@.len() - i,
    {
        let ghost before = char_views(cv@);
        cv.push(chars_of(v[i].as_str()));
        assert(char_views(cv@) =~= before.push(v@[i as int]@));
        assert(string_views(v@).take(i + 1) =~= string_views(v@).take(i as int).push(v@[i as int]@));
        i += 1;
    }
    assert(string_views(v@).take(i as int) =~= string_views(v@));
    let sorted = sort_texts(cv);
    let mut r: Vec<String> = Vec::new();
    let mut j: usize = 0;
    while j < sorted.len()
        invariant
            j <= sorted@.len(),
            string_views(r@) == char_views(sorted@).take(j as int),
        decreases sorted@.len() - j,
    {
        let ghost before = string_views(r@);
        r.push(crate::text::string_of(&sorted[j]));
        assert(string_views(r@) =~= before.push(sorted@[j as int]@));
        assert(char_views(sorted@).take(j + 1) =~= char_views(sorted@).take(j as int).push(
            sorted@[j as int]@,
        ));
        j += 1;
    }
    assert(char_views(sorted@).take(j as int) =~= char_views(sorted@));
    r
}

/// The path without its leading `./`s.
fn trim_dot_slash(v: &Vec<char>) -> (r: Vec<char>)
    ensures
        r@ == crate::text::trim_start_matches(v@, dot_slash()),
{
    let mut i: usize = 0;
    assert(v@.skip(0) =~= v@);
    while v.len() - i >= 2 && v[i] == '.' && v[i + 1] == '/'
        invariant
            i <= v@.len(),
            crate::text::trim_start_matches(v@, dot_slash()) == crate::text::trim_start_matches(
                v@.skip(i as int),
                dot_slash(),
            ),
        decreases v@.len() - i,
    {
        assert(v@.skip(i as int).take(2) =~= dot_slash());
        assert(v@.skip(i as int).skip(2) =~= v@.skip(i + 2));
        i += 2;
    }
    let ghost t = v@.skip(i as int);
    assert(!crate::text::starts_with(t, dot_slash())) by {
        if t.len() >= 2 {
            assert(t[0] == v@[i as int] && t[1] == v@[i + 1]);
            if t.take(2) =~= dot_slash() {
                assert(t.take(2)[0] == t[0] && t.take(2)[1] == t[1]);
            }
        }
    }
    slice_of(v, i, v.len())
}

/// Summary and text of a glob: the matching paths, without leading `./`,
/// sorted and formatted, or a note that nothing matched.
pub fn glob_report(pattern: &str, paths: Vec<String>) -> (r: (String, String))
    requires
        forall|m: Seq<Seq<char>>| sorted_listing(m, string_views(paths@)) ==> output_ok(m),
    ensures
        paths@.len() == 0 ==> r.0@ == "No files match pattern: "@ + pattern@ && r.1@ == r.0@,
        paths@.len() > 0 ==> r.0@ == "Found "@ + decimal(paths@.len()) + " files matching '"@
            + pattern@ + "'"@,
        paths@.len() > 0 ==> exists|m: Seq<Seq<char>>|
            sorted_listing(m, string_views(paths@)) && r.1@ == format_output(m),
{
    let mut matches: Vec<Vec<char>> = Vec::new();
    let mut i: usize = 0;
    while i < paths.len()
        invariant
            i <= paths@.len(),
            char_views(matches@) == trimmed_paths(string_views(paths@)).take(i as int),
        decreases paths@.len() - i,
    {
        let ghost before = char_views(matches@);
        let v = chars_of(paths[i].as_str());
        let t = trim_dot_slash(&v);
        matches.push(t);
        assert(char_views(matches@) =~= before.push(t@));
        assert(trimmed_paths(string_views(paths@)).take(i + 1) =~= trimmed_paths(
            string_views(paths@),
        ).take(i as int).push(t@));
        i += 1;
    }
    assert(trimmed_paths(string_views(paths@)).take(i as int) =~= trimmed_paths(string_views(paths@)));
    let total_matches = matches.len();
    let sorted = sort_texts(matches);
    if total_matches == 0 {
        let mut result = String::new();
        push_str(&mut result, "No files match pattern: ");
        push_str(&mut result, pattern);
        let copy = string_of_chars(&result);
        (copy, result)
    } else {
        let mut summary = String::new();
        push_str(&mut summary, "Found ");
        push_decimal(&mut summary, total_matches);
        push_str(&mut summary, " files matching '");
        push_str(&mut summary, pattern);
        push_str(&mut summary, "'");
        assert(sorted_listing(char_views(sorted@), string_views(paths@)));
        let result = format_output_chars(&sorted);
        (summary, result)
    }
}

/// A copy of a `String`.
fn string_of_chars(s: &String) -> (r: String)
    ensures
        r@ == s@,
{
    let v = chars_of(s.as_str());
    crate::text::string_of(&v)
}

// ---------------------------------------------------------------------------
// Grep
// ---------------------------------------------------------------------------

/// `regex::Regex`, a compiled regular expression.
#[verifier::external_type_specification]
#[verifier::external_body]
pub struct ExRegex(regex::Regex);

/// What `regex::Regex::new` reports for a pattern: `None` when it compiles,
/// else the text of its error.
pub uninterp spec fn regex_compile_error(pattern: Seq<char>) -> Option<Seq<char>>;

/// Whether the regular expression `pattern` matches somewhere in `line`
/// (`regex::Regex::is_match`).
pub uninterp spec fn regex_is_match(pattern: Seq<char>, line: Seq<char>) -> bool;

/// A compiled search pattern together with its source text.
pub struct LinePattern {
    source: String,
    re: regex::Regex,
}

impl LinePattern {
    /// The pattern's source text.
    pub closed spec fn source(&self) -> Seq<char> {
        self.source@
    }
}

/// `regex::Regex::new`: compiles `pattern`, or gives the text of the error.
/// The result is a function of the pattern alone; which patterns compile,
/// and the error texts, are the regex crate's.
#[verifier::external_body]
fn compile_pattern(pattern: &str) -> (r: Result<LinePattern, String>)
    ensures
        match r {
            Ok(p) => regex_compile_error(pattern@) is None && p.source() == pattern@,
            Err(e) => regex_compile_error(pattern@) == Some(e@),
        },
{
    match regex::Regex::new(pattern) {
        Ok(re) => Ok(LinePattern { source: pattern.to_string(), re }),
        Err(e) => Err(e.to_string()),
    }
}

/// `regex::Regex::is_match`: whether the pattern matches somewhere in
/// `line`, a function of the pattern and the line alone.
#[verifier::external_body]
fn pattern_is_match(p: &LinePattern, line: &str) -> (b: bool)
    ensures
        b == regex_is_match(p.source(), line@),
{
    p.re.is_match(line)
}

/// Compiles a grep pattern; an invalid one gives the error summary.
pub fn grep_pattern(pattern: &str) -> (r: Result<LinePattern, String>)
    ensures
        match r {
            Ok(p) => regex_compile_error(pattern@) is None && p.source() == pattern@,
            Err(e) => regex_compile_error(pattern@) matches Some(msg) && e@ == "Invalid regex pattern: "@
                + msg,
        },
{
    match compile_pattern(pattern) {
        Ok(p) => Ok(p),
        Err(e) => {
            let mut error = String::new();
            push_str(&mut error, "Invalid regex pattern: ");
            push_str(&mut error, e.as_str());
            Err(error)
        },
    }
}

/// Match lines of a file: `path:line_number: line` for each line, from
/// number `first` on, that the pattern matches.
pub open spec fn grep_hits(pattern: Seq<char>, path: Seq<char>, ls: Seq<Seq<char>>, first: int) -> Seq<Seq<char>>
    decreases ls.len(),
{
    if ls.len() == 0 {
        Seq::empty()
    } else {
        let hit = path + ":"@ + decimal(first as nat) + ": "@ + ls[0];
        let rest = grep_hits(pattern, path, ls.drop_first(), first + 1);
        if regex_is_match(pattern, ls[0]) {
            seq![hit] + rest
        } else {
            rest
        }
    }
}

/// Appends to `matches` the hits of the pattern in a file's content, one
/// entry `path:line_number: line` per matching line.
pub fn grep_file(p: &LinePattern, path: &str, content: &str, matches: &mut Vec<String>)
    ensures
        string_views(final(matches)@) == string_views(old(matches)@) + grep_hits(
            p.source(),
            path@,
            text_lines(content@),
            1,
        ),
{
    let chars = chars_of(content);
    let lines = split_lines(&chars);
    let ghost ls = text_lines(content@);
    let mut i: usize = 0;
    assert(char_views(lines@) == ls);
    assert(ls.skip(0) =~= ls);
    while i < lines.len()
        invariant
            i <= lines@.len(),
            char_views(lines@) == ls,
            string_views(old(matches)@) + grep_hits(p.source(), path@, ls, 1) == string_views(matches@)
                + grep_hits(p.source(), path@, ls.skip(i as int), i + 1),
        decreases lines@.len() - i,
    {
        let line = crate::text::string_of(&lines[i]);
        assert(ls.skip(i as int)[0] == line@);
        assert(ls.skip(i as int).drop_first() =~= ls.skip(i + 1));
        if pattern_is_match(p, line.as_str()) {
            let ghost before = string_views(matches@);
            let mut hit = String::new();
            push_str(&mut hit, path);
            push_str(&mut hit, ":");
            push_decimal(&mut hit, i + 1);
            push_str(&mut hit, ": ");
            push_str(&mut hit, line.as_str());
            matches.push(hit);
            assert(string_views(matches@) =~= before + seq![hit@]);
        }
        i += 1;
    }
    assert(ls.skip(i as int) =~= Seq::<Seq<char>>::empty());
}

/// Summary and text of a grep over `file_count` files.
pub fn grep_report(pattern: &str, files_pattern: &str, file_count: usize, matches: &Vec<String>) -> (r: (
    String,
    String,
))
    requires
        output_ok(string_views(matches@)),
    ensures
        file_count == 0 ==> r.0@ == "No files match pattern: "@ + files_pattern@ && r.1@.len() == 0,
        file_count > 0 && matches@.len() == 0 ==> r.0@ == "No matches found for pattern: "@ + pattern@
            && r.1@ == r.0@,
        file_count > 0 && matches@.len() > 0 ==> r.0@ == "Found "@ + decimal(matches@.len()) + " matches in "@
            + decimal(file_count as nat) + " files"@ && r.1@ == format_output(string_views(matches@)),
{
    if file_count == 0 {
        let mut summary = String::new();
        push_str(&mut summary, "No files match pattern: ");
        push_str(&mut summary, files_pattern);
        return (summary, String::new());
    }
    if matches.len() == 0 {
        let mut result = String::new();
        push_str(&mut result, "No matches found for pattern: ");
        push_str(&mut result, pattern);
        let copy = result.clone();
        (copy, result)
    } else {
        let mut summary = String::new();
        push_str(&mut summary, "Found ");
        push_decimal(&mut summary, matches.len());
        push_str(&mut summary, " matches in ");
        push_decimal(&mut summary, file_count);
        push_str(&mut summary, " files");
        let mut v: Vec<Vec<char>> = Vec::new();
        let mut i: usize = 0;
        while i < matches.len()
            invariant
                i <= matches@.len(),
                char_views(v@) == string_views(matches@).take(i as int),
            decreases matches@.len() - i,
        {
            let ghost before = char_views(v@);
            let c = chars_of(matches[i].as_str());
            v.push(c);
            assert(char_views(v@) =~= before.push(matches@[i as int]@));
            assert(string_views(matches@).take(i + 1) =~= string_views(matches@).take(i as int).push(
                matches@[i as int]@,
            ));
            i += 1;
        }
        assert(string_views(matches@).take(i as int) =~= string_views(matches@));
        let result = format_output_chars(&v);
        (summary, result)
    }
}

// ---------------------------------------------------------------------------
// Shell command filter
// ---------------------------------------------------------------------------

/// What `str::to_lowercase` gives for a text (Unicode lowercase mapping).
pub uninterp spec fn lowercase(s: Seq<char>) -> Seq<char>;

/// `str::to_lowercase`: the text mapped to lowercase. The mapping is std's
/// Unicode table; this states only that it depends on the text alone.
#[verifier::external_body]
fn to_lowercase(s: &str) -> (r: String)
    ensures
        r@ == lowercase(s@),
{
    s.to_lowercase()
}

/// Shell operators after which a new command starts.
pub open spec fn command_operators() -> Seq<Seq<char>> {
    seq!["; "@, "| "@, "& "@, "$( "@, "` "@, "\t"@, "\n"@]
}

/// `pattern` starts the text that follows the first occurrence of `op`.
pub open spec fn matches_after(command: Seq<char>, pattern: Seq<char>, op: Seq<char>) -> bool {
    match crate::text::find(command, op) {
        Some(pos) => crate::text::starts_with(command.skip(pos + op.len()), pattern),
        None => false,
    }
}

/// `pattern` appears as a command: at the start, or right after the first
/// occurrence of one of the shell operators.
pub open spec fn command_match(command: Seq<char>, pattern: Seq<char>) -> bool {
    ||| crate::text::starts_with(command, pattern)
    ||| exists|i: int|
        0 <= i < command_operators().len() && #[trigger] matches_after(
            command,
            pattern,
            command_operators()[i],
        )
}

/// Blocked command patterns with the reason for each.
pub open spec fn blocked_rules() -> Seq<(Seq<char>, Seq<char>)> {
    seq![
        ("dd"@, "disk write operations (data destruction risk)"@),
        ("mkfs"@, "filesystem formatting (irreversible)"@),
        ("reboot"@, "system reboot (would interrupt session)"@),
        ("shutdown"@, "system shutdown (would interrupt session)"@),
        ("rm "@, "file deletion (data loss risk)"@),
        ("rm\t"@, "file deletion (data loss risk)"@),
        ("mv "@, "file move/rename (could overwrite data)"@),
        ("truncate"@, "file truncation (destructive)"@),
        ("git push --force"@, "force git push (overwrites history)"@),
        ("git push -f"@, "force git push (overwrites history)"@),
        (" | bash"@, "pipe to bash (code injection risk)"@),
        (" | sh"@, "pipe to shell (code injection risk)"@),
    ]
}

/// First blocked rule, from `i` on, whose pattern appears as a command.
pub open spec fn first_blocked(command: Seq<char>, i: int) -> Option<int>
    decreases blocked_rules().len() - i,
{
    if i < 0 || i >= blocked_rules().len() {
        None
    } else if command_match(command, blocked_rules()[i].0) {
        Some(i)
    } else {
        first_blocked(command, i + 1)
    }
}

/// The verdict on a shell command: blocked, with the reason of the first
/// rule that matches its lowercase form, or allowed.
pub open spec fn bash_verdict(command: Seq<char>) -> Result<(), Seq<char>> {
    match first_blocked(lowercase(command), 0) {
        Some(i) => Err("Command blocked for safety: "@ + blocked_rules()[i].1),
        None => Ok(()),
    }
}

/// Whether `pattern` appears as a command in `command` (see `command_match`).
pub fn is_command_match(command: &str, pattern: &str) -> (r: bool)
    ensures
        r == command_match(command@, pattern@),
{
    let cmd = chars_of(command);
    let pat = chars_of(pattern);
    // Check if pattern appears as a command (beginning of string or after operators)
    if crate::text::starts_with_exec(&cmd, &pat) {
        return true;
    }
    // Check after common operators: ;, |, &, $(), ``, etc
    let operators = vec!["; ", "| ", "& ", "$( ", "` ", "\t", "\n"];
    assert(operators@.map_values(|o: &str| o@) =~= command_operators());
    let mut i: usize = 0;
    while i < operators.len()
        invariant
            i <= operators@.len(),
            operators@.map_values(|o: &str| o@) == command_operators(),
            cmd@ == command@,
            pat@ == pattern@,
            forall|j: int| 0 <= j < i ==> !#[trigger] matches_after(cmd@, pat@, command_operators()[j]),
        decreases operators@.len() - i,
    {
        let op = chars_of(operators[i]);
        assert(op@ == command_operators()[i as int]);
        let clen = cmd.len();
        if let Some(pos) = crate::text::find_exec(&cmd, &op) {
            assert(pos + op@.len() <= clen);
            let after = slice_of(&cmd, pos + op.len(), clen);
            assert(after@ =~= cmd@.skip(pos + op@.len()));
            if crate::text::starts_with_exec(&after, &pat) {
                assert(matches_after(command@, pattern@, command_operators()[i as int]));
                return true;
            }
        }
        i += 1;
    }
    assert forall|j: int| 0 <= j < command_operators().len() implies !#[trigger] matches_after(
        command@,
        pattern@,
        command_operators()[j],
    ) by {}
    false
}

/// Checks a shell command against the blocked list (case-insensitively).
pub fn validate_bash_command(command: &str) -> (r: Result<(), String>)
    ensures
        match r {
            Ok(()) => bash_verdict(command@) is Ok,
            Err(e) => bash_verdict(command@) == Err::<(), Seq<char>>(e@),
        },
{
    let cmd_lower = to_lowercase(command);
    // Blocked commands - all dangerous operations are denied
    let blocked = vec![
        ("dd", "disk write operations (data destruction risk)"),
        ("mkfs", "filesystem formatting (irreversible)"),
        ("reboot", "system reboot (would interrupt session)"),
        ("shutdown", "system shutdown (would interrupt session)"),
        ("rm ", "file deletion (data loss risk)"),
        ("rm\t", "file deletion (data loss risk)"),
        ("mv ", "file move/rename (could overwrite data)"),
        ("truncate", "file truncation (destructive)"),
        ("git push --force", "force git push (overwrites history)"),
        ("git push -f", "force git push (overwrites history)"),
        (" | bash", "pipe to bash (code injection risk)"),
        (" | sh", "pipe to shell (code injection risk)"),
    ];
    assert(blocked@.map_values(|p: (&str, &str)| (p.0@, p.1@)) =~= blocked_rules());
    let mut i: usize = 0;
    while i < blocked.len()
        invariant
            i <= blocked@.len(),
            blocked@.map_values(|p: (&str, &str)| (p.0@, p.1@)) == blocked_rules(),
            cmd_lower@ == lowercase(command@),
            first_blocked(cmd_lower@, 0) == first_blocked(cmd_lower@, i as int),
        decreases blocked@.len() - i,
    {
        let (pattern, reason) = blocked[i];
        assert((pattern@, reason@) == blocked_rules()[i as int]);
        if is_command_match(cmd_lower.as_str(), pattern) {
            let mut e = String::new();
            push_str(&mut e, "Command blocked for safety: ");
            push_str(&mut e, reason);
            return Err(e);
        }
        i += 1;
    }
    Ok(())
}

// ---------------------------------------------------------------------------
// Running a tool call
// ---------------------------------------------------------------------------

/// What running a tool call takes.
pub enum ToolRequest {
    /// Read the file at `path` from line `offset + 1` on.
    Read { path: String, offset: usize },
    /// List the paths that a glob pattern matches.
    Glob { pattern: String },
    /// Search the files that `files` matches for the lines that `matcher`
    /// (compiled from `pattern`) matches.
    Grep { matcher: LinePattern, pattern: String, files: String },
    /// Run a shell command that passed the safety filter.
    Bash { command: String },
    /// Nothing to run: the summary and the result are known.
    Answer(String, String),
}

/// What a tool request asks for, with texts as character sequences.
pub enum RequestView {
    Read(Seq<char>, usize),
    Glob(Seq<char>),
    Grep(Seq<char>, Seq<char>),
    Bash(Seq<char>),
    Answer(Seq<char>, Seq<char>),
}

impl View for ToolRequest {
    type V = RequestView;

    open spec fn view(&self) -> RequestView {
        match self {
            ToolRequest::Read { path, offset } => RequestView::Read(path@, *offset),
            ToolRequest::Glob { pattern } => RequestView::Glob(pattern@),
            ToolRequest::Grep { pattern, files, .. } => RequestView::Grep(pattern@, files@),
            ToolRequest::Bash { command } => RequestView::Bash(command@),
            ToolRequest::Answer(s, r) => RequestView::Answer(s@, r@),
        }
    }
}

/// The line a read starts after: the `offset` argument less one (a missing
/// or non-integer one counts as 1), never below zero.
pub open spec fn read_offset(args: JsonObject) -> usize {
    match opt_u64(args.get_spec("offset"@)) {
        Some(v) => if (v as usize) >= 1 {
            ((v as usize) - 1) as usize
        } else {
            0
        },
        None => 0,
    }
}

/// What a tool call asks for: the tool's own work when its arguments are
/// there (and, for a search, the pattern compiles; for a command, it passes
/// the safety filter), else the error to report.
pub open spec fn tool_plan(name: Seq<char>, args: JsonObject) -> RequestView {
    if name == "Read"@ {
        match opt_str(args.get_spec("filePath"@)) {
            Some(p) => RequestView::Read(p, read_offset(args)),
            None => RequestView::Answer(
                "Error: 'filePath' parameter is required and must be a string"@,
                "Error: 'filePath' parameter is required and must be a string"@,
            ),
        }
    } else if name == "Glob"@ {
        match opt_str(args.get_spec("pattern"@)) {
            Some(p) => RequestView::Glob(p),
            None => RequestView::Answer("Error: 'pattern' parameter is required"@, Seq::empty()),
        }
    } else if name == "Grep"@ {
        match opt_str(args.get_spec("pattern"@)) {
            None => RequestView::Answer("Error: 'pattern' parameter is required"@, Seq::empty()),
            Some(p) => match opt_str(args.get_spec("files"@)) {
                None => RequestView::Answer("Error: 'files' parameter is required"@, Seq::empty()),
                Some(f) => match regex_compile_error(p) {
                    Some(msg) => RequestView::Answer("Invalid regex pattern: "@ + msg, Seq::empty()),
                    None => RequestView::Grep(p, f),
                },
            },
        }
    } else if name == "Bash"@ {
        match opt_str(args.get_spec("command"@)) {
            None => RequestView::Answer(
                "Error: 'command' parameter is required"@,
                "Error: 'command' parameter is required"@,
            ),
            Some(c) => match bash_verdict(c) {
                Err(reason) => RequestView::Answer(reason, reason),
                Ok(()) => RequestView::Bash(c),
            },
        }
    } else {
        RequestView::Answer("Unknown tool: "@ + name, "Unknown tool: "@ + name)
    }
}

/// The text of a string argument, if it is one, written out.
pub open spec fn text_arg(args: JsonObject, key: Seq<char>) -> Option<Seq<char>> {
    match args.get_spec(key) {
        Some(crate::json::JsonValue::String(s)) => Some(s@),
        _ => None,
    }
}

/// What each tool call asks for. `Read` reads its `filePath` from the line
/// after `offset - 1` (from the first line when `offset` is missing, not a
/// non-negative integer, or 0). `Glob` lists its `pattern`. `Grep` searches
/// the files of `files` for its `pattern`, when that compiles. `Bash` runs
/// its `command` as given when the safety filter lets it through and
/// otherwise answers with the filter's reason. A missing argument is
/// answered with an error naming it, and an unknown tool with
/// `Unknown tool: ` and its name.
pub proof fn law_tool_requests(name: Seq<char>, args: JsonObject)
    ensures
        text_arg(args, "filePath"@) matches Some(p) ==> match args.get_spec("offset"@) {
            Some(crate::json::JsonValue::Number(crate::json::JsonNumber::PosInt(v))) => (v == 0
                ==> tool_plan("Read"@, args) == RequestView::Read(p, 0)) && (1 <= v <= usize::MAX
                ==> tool_plan("Read"@, args) == RequestView::Read(p, (v - 1) as usize)),
            _ => tool_plan("Read"@, args) == RequestView::Read(p, 0),
        },
        text_arg(args, "filePath"@) is None ==> tool_plan("Read"@, args) is Answer,
        text_arg(args, "pattern"@) matches Some(p) ==> tool_plan("Glob"@, args) == RequestView::Glob(p),
        text_arg(args, "pattern"@) is None ==> tool_plan("Glob"@, args) == RequestView::Answer(
            "Error: 'pattern' parameter is required"@,
            Seq::empty(),
        ),
        text_arg(args, "pattern"@) matches Some(p) ==> (text_arg(args, "files"@) matches Some(f) ==> (
        regex_compile_error(p) is None ==> tool_plan("Grep"@, args) == RequestView::Grep(p, f))),
        text_arg(args, "pattern"@) is None ==> tool_plan("Grep"@, args) == RequestView::Answer(
            "Error: 'pattern' parameter is required"@,
            Seq::empty(),
        ),
        text_arg(args, "pattern"@) is Some && text_arg(args, "files"@) is None ==> tool_plan(
            "Grep"@,
            args,
        ) == RequestView::Answer("Error: 'files' parameter is required"@, Seq::empty()),
        text_arg(args, "command"@) matches Some(c) ==> (bash_verdict(c) is Ok ==> tool_plan(
            "Bash"@,
            args,
        ) == RequestView::Bash(c)),
        text_arg(args, "command"@) matches Some(c) ==> (bash_verdict(c) matches Err(r) ==> tool_plan(
            "Bash"@,
            args,
        ) == RequestView::Answer(r, r)),
        text_arg(args, "command"@) is None ==> tool_plan("Bash"@, args) is Answer,
        name != "Read"@ && name != "Glob"@ && name != "Grep"@ && name != "Bash"@ ==> tool_plan(
            name,
            args,
        ) == RequestView::Answer("Unknown tool: "@ + name, "Unknown tool: "@ + name),
{
    reveal_strlit("Read");
    reveal_strlit("Glob");
    reveal_strlit("Grep");
    reveal_strlit("Bash");
    assert("Glob"@ != "Read"@) by {
        assert("Glob"@[0] != "Read"@[0]);
    }
    assert("Grep"@ != "Read"@) by {
        assert("Grep"@[0] != "Read"@[0]);
    }
    assert("Grep"@ != "Glob"@) by {
        assert("Grep"@[1] != "Glob"@[1]);
    }
    assert("Bash"@ != "Read"@) by {
        assert("Bash"@[0] != "Read"@[0]);
    }
    assert("Bash"@ != "Glob"@) by {
        assert("Bash"@[0] != "Glob"@[0]);
    }
    assert("Bash"@ != "Grep"@) by {
        assert("Bash"@[0] != "Grep"@[0]);
    }
}

/// The text of argument `key`, if it is a string.
fn arg_str(args: &JsonObject, key: &str) -> (r: Option<String>)
    ensures
        match r {
            Some(s) => opt_str(args.get_spec(key@)) == Some(s@),
            None => opt_str(args.get_spec(key@)) is None,
        },
{
    match args.get(key) {
        Some(v) => match v.as_str() {
            Some(s) => Some(s.to_owned()),
            None => None,
        },
        None => None,
    }
}

/// Two copies of a text: the summary and the result of an answer.
fn answer(text: &str) -> (r: ToolRequest)
    ensures
        r@ == RequestView::Answer(text@, text@),
{
    ToolRequest::Answer(text.to_owned(), text.to_owned())
}

/// A summary with an empty result.
fn summary_only(text: String) -> (r: ToolRequest)
    ensures
        r@ == RequestView::Answer(text@, Seq::<char>::empty()),
{
    ToolRequest::Answer(text, String::new())
}

/// Decides what running a tool call takes (see `tool_plan`).
pub fn plan_tool(tool: &ToolCall) -> (r: ToolRequest)
    ensures
        r@ == tool_plan(tool.name@, tool.args),
        r matches ToolRequest::Grep { matcher, pattern, .. } ==> matcher.source() == pattern@,
        r matches ToolRequest::Read { offset, .. } ==> offset < usize::MAX,
{
    let name = tool.name.as_str();
    let args = &tool.args;
    if crate::text::str_eq(name, "Read") {
        match arg_str(args, "filePath") {
            Some(path) => {
                let offset: usize = match args.get("offset") {
                    Some(v) => match v.as_u64() {
                        Some(n) => n as usize,
                        None => 1,
                    },
                    None => 1,
                };
                let offset = offset.saturating_sub(1);
                ToolRequest::Read { path, offset }
            },
            None => answer("Error: 'filePath' parameter is required and must be a string"),
        }
    } else if crate::text::str_eq(name, "Glob") {
        match arg_str(args, "pattern") {
            Some(pattern) => ToolRequest::Glob { pattern },
            None => summary_only("Error: 'pattern' parameter is required".to_owned()),
        }
    } else if crate::text::str_eq(name, "Grep") {
        match arg_str(args, "pattern") {
            None => summary_only("Error: 'pattern' parameter is required".to_owned()),
            Some(pattern) => match arg_str(args, "files") {
                None => summary_only("Error: 'files' parameter is required".to_owned()),
                Some(files) => match grep_pattern(pattern.as_str()) {
                    Ok(matcher) => ToolRequest::Grep { matcher, pattern, files },
                    Err(e) => summary_only(e),
                },
            },
        }
    } else if crate::text::str_eq(name, "Bash") {
        match arg_str(args, "command") {
            None => answer("Error: 'command' parameter is required"),
            Some(command) => match validate_bash_command(command.as_str()) {
                Ok(()) => ToolRequest::Bash { command },
                Err(reason) => {
                    let copy = reason.clone();
                    ToolRequest::Answer(reason, copy)
                },
            },
        }
    } else {
        let mut e = String::new();
        push_str(&mut e, "Unknown tool: ");
        push_str(&mut e, name);
        let copy = e.clone();
        ToolRequest::Answer(e, copy)
    }
}

/// The path without its trailing separators and trailing `.` components,
/// which `std::path::Path` normalizes away (a `.` is kept only at the
/// start of a path, where it names the current directory, which has no
/// file name either).
pub open spec fn trim_path_end(p: Seq<char>) -> Seq<char>
    decreases p.len(),
{
    if p.len() > 0 && p.last() == '/' {
        trim_path_end(p.drop_last())
    } else if p == seq!['.'] {
        Seq::empty()
    } else if p.len() >= 2 && p.last() == '.' && p[p.len() - 2] == '/' {
        trim_path_end(p.drop_last())
    } else {
        p
    }
}

/// The text after the last `/` of `p` (all of `p` when it has none).
pub open spec fn after_last_slash(p: Seq<char>) -> Seq<char>
    decreases p.len(),
{
    if p.len() == 0 || p.last() == '/' {
        Seq::empty()
    } else {
        after_last_slash(p.drop_last()).push(p.last())
    }
}

/// The file name of a path: its final component, or nothing when the path
/// ends in `..`, is a root, is the current directory or is empty.
pub open spec fn file_name_of(path: Seq<char>) -> Option<Seq<char>> {
    let last = after_last_slash(trim_path_end(path));
    if last.len() == 0 || last == seq!['.', '.'] {
        None
    } else {
        Some(last)
    }
}

/// `std::path::Path::file_name` on a path given as text: the final
/// component of the path after separators are collapsed and `.`
/// components other than a leading one are dropped; nothing when that
/// component is `..`, a root or the current directory.
#[verifier::external_body]
fn path_file_name(path: &str) -> (r: Option<String>)
    ensures
        match r {
            Some(n) => file_name_of(path@) == Some(n@),
            None => file_name_of(path@) is None,
        },
{
    std::path::Path::new(path).file_name().and_then(|n| n.to_str()).map(|n| n.to_string())
}

/// The name a read is reported under: the path's file name, or the path
/// itself when it has none.
pub fn display_name(path: &str) -> (r: String)
    ensures
        r@ == match file_name_of(path@) {
            Some(n) => n,
            None => path@,
        },
{
    match path_file_name(path) {
        Some(n) => n,
        None => path.to_owned(),
    }
}

/// A cut line is at most `MAX_LINE_WIDTH` bytes of the line and the three
/// bytes of `...`.
pub proof fn law_cut_line_width(line: Seq<char>)
    requires
        truncatable(line),
    ensures
        byte_len(truncated(line)) <= MAX_LINE_WIDTH + 3,
{
    if byte_len(line) > MAX_LINE_WIDTH {
        let k = boundary_index(line, MAX_LINE_WIDTH as int);
        crate::text::lemma_byte_len_concat(line.take(k), seq!['.', '.', '.']);
        reveal_with_fuel(byte_len, 4);
        assert(seq!['.', '.', '.'].drop_first() =~= seq!['.', '.']);
        assert(seq!['.', '.'].drop_first() =~= seq!['.']);
        assert(seq!['.'].drop_first() =~= Seq::<char>::empty());
    }
}

/// A blocked rule that matches gives a refusal from that rule or an
/// earlier one.
proof fn lemma_first_blocked(command: Seq<char>, from: int, i: int)
    requires
        0 <= from <= i < blocked_rules().len(),
        command_match(command, blocked_rules()[i].0),
    ensures
        first_blocked(command, from) matches Some(j) && from <= j <= i,
    decreases i - from,
{
    if !command_match(command, blocked_rules()[from].0) {
        lemma_first_blocked(command, from + 1, i);
    }
}

/// A command in which a blocked pattern appears as a command (at its start
/// or right after a shell operator), in any letter case, is refused.
pub proof fn law_blocked_pattern_refused(command: Seq<char>, i: int)
    requires
        0 <= i < blocked_rules().len(),
        command_match(lowercase(command), blocked_rules()[i].0),
    ensures
        bash_verdict(command) is Err,
{
    lemma_first_blocked(lowercase(command), 0, i);
}

} // verus!
