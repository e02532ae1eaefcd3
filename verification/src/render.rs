//! Streaming markdown-to-ANSI renderer.
//!
//! Tokens arrive one at a time (as an LLM streams them). The renderer
//! strips markdown syntax (headings, emphasis, code spans, fences,
//! blockquotes, list bullets), colours the text with ANSI escape codes and
//! wraps lines at a fixed width. What it produces is collected in an
//! output buffer that the caller drains with `take_output`.
//!
//! The whole behaviour is specified over `RenderState`, the abstract view
//! of a renderer: `push_spec`, `flush_spec` and the functions they use.
use vstd::prelude::*;
use crate::text::{
    alphanumeric, first_nl, lemma_first_nl, lemma_first_nl_unique, chars_of, push_chars, push_str, slice_of, trim, trim_chars, trim_start,
    trim_start_chars,
};

verus! {

/// Kind of streamed text: the answer itself or the model's reasoning.
#[derive(Clone, Copy, PartialEq, Eq, Structural)]
pub enum ContentType {
    Normal,
    Thinking,
}

#[derive(Clone, Copy, PartialEq, Eq, Structural)]
enum Mode {
    Normal,
    CodeBlock,
}

/// Inline formatting in effect.
#[derive(Clone, Copy, PartialEq, Eq, Structural)]
pub struct Flags {
    pub bold: bool,
    pub italic: bool,
    pub code_span: bool,
    pub strikethrough: bool,
}

/// A run of text with one inline formatting (abstract view).
pub struct Seg {
    pub text: Seq<char>,
    pub flags: Flags,
}

/// Abstract state of a renderer.
pub struct RenderState {
    /// Inside a fenced code block.
    pub code_block: bool,
    /// Display length of what the current output line holds.
    pub line_len: int,
    /// Wrapping width.
    pub width: int,
    /// No text of the current line has been taken as line content yet.
    pub at_line_start: bool,
    /// Heading level of the current line (0: none).
    pub heading: int,
    /// Inline formatting carried across tokens.
    pub flags: Flags,
    /// The current line is a blockquote.
    pub blockquote: bool,
    /// `#` characters held back until it is known whether they open a heading.
    pub marker: Seq<char>,
    /// Everything written so far.
    pub out: Seq<char>,
}

/// No inline formatting.
pub open spec fn plain_flags() -> Flags {
    Flags { bold: false, italic: false, code_span: false, strikethrough: false }
}

/// State of a fresh renderer of the given width.
pub open spec fn initial_state(width: int) -> RenderState {
    RenderState {
        code_block: false,
        line_len: 0,
        width,
        at_line_start: true,
        heading: 0,
        flags: plain_flags(),
        blockquote: false,
        marker: Seq::empty(),
        out: Seq::empty(),
    }
}

// ---------------------------------------------------------------------------
// Inline markdown: `***`, `**`/`__`, `*`/`_`, `` ` ``, `~~`
// ---------------------------------------------------------------------------

/// Length of the inline delimiter at the front of `s` (0: none), given the
/// formatting in effect. Inside a code span only a backtick is special;
/// longer delimiters win over shorter ones.
pub open spec fn delim_len(f: Flags, s: Seq<char>) -> int {
    if s.len() == 0 {
        0
    } else if f.code_span {
        if s[0] == '`' {
            1
        } else {
            0
        }
    } else if s.len() >= 3 && s[0] == '*' && s[1] == '*' && s[2] == '*' {
        3
    } else if s.len() >= 2 && ((s[0] == '*' && s[1] == '*') || (s[0] == '_' && s[1] == '_')) {
        2
    } else if s[0] == '*' || s[0] == '_' {
        1
    } else if s[0] == '`' {
        1
    } else if s.len() >= 2 && s[0] == '~' && s[1] == '~' {
        2
    } else {
        0
    }
}

/// Formatting after the delimiter at the front of `s`.
pub open spec fn toggle(f: Flags, s: Seq<char>) -> Flags {
    if f.code_span {
        Flags { code_span: false, ..f }
    } else if delim_len(f, s) == 3 {
        Flags { bold: !f.bold, italic: !f.italic, ..f }
    } else if delim_len(f, s) == 2 && s[0] != '~' {
        Flags { bold: !f.bold, ..f }
    } else if delim_len(f, s) == 1 && s[0] != '`' {
        Flags { italic: !f.italic, ..f }
    } else if delim_len(f, s) == 1 {
        Flags { code_span: !f.code_span, ..f }
    } else {
        Flags { strikethrough: !f.strikethrough, ..f }
    }
}

/// The pending run `cur`, as a segment list (empty runs are dropped).
pub open spec fn emit(cur: Seq<char>, f: Flags) -> Seq<Seg> {
    if cur.len() > 0 {
        seq![Seg { text: cur, flags: f }]
    } else {
        Seq::empty()
    }
}

/// Splits `s` into formatted segments, starting with formatting `f` and a
/// pending run `cur`; also gives the formatting in effect at the end.
pub open spec fn inline_rec(f: Flags, s: Seq<char>, cur: Seq<char>) -> (Seq<Seg>, Flags)
    decreases s.len(),
{
    if s.len() == 0 {
        (emit(cur, f), f)
    } else if delim_len(f, s) > 0 {
        let r = inline_rec(toggle(f, s), s.skip(delim_len(f, s)), Seq::empty());
        (emit(cur, f) + r.0, r.1)
    } else {
        inline_rec(f, s.drop_first(), cur.push(s[0]))
    }
}

/// Segments of `s` rendered from formatting `f`.
pub open spec fn inline_segments(f: Flags, s: Seq<char>) -> Seq<Seg> {
    inline_rec(f, s, Seq::empty()).0
}

/// Formatting after rendering `s` from formatting `f`.
pub open spec fn inline_flags(f: Flags, s: Seq<char>) -> Flags {
    inline_rec(f, s, Seq::empty()).1
}

/// The characters of `s` that are text rather than delimiters.
pub open spec fn visible(f: Flags, s: Seq<char>) -> Seq<char>
    decreases s.len(),
{
    if s.len() == 0 {
        Seq::empty()
    } else if delim_len(f, s) > 0 {
        visible(toggle(f, s), s.skip(delim_len(f, s)))
    } else {
        seq![s[0]] + visible(f, s.drop_first())
    }
}

/// Concatenated texts of segments.
pub open spec fn texts(segs: Seq<Seg>) -> Seq<char>
    decreases segs.len(),
{
    if segs.len() == 0 {
        Seq::empty()
    } else {
        texts(segs.drop_last()) + segs.last().text
    }
}

// ---------------------------------------------------------------------------
// Display length
// ---------------------------------------------------------------------------

/// Number of characters of `s` outside ANSI escape sequences (an escape
/// sequence runs from ESC up to and including the next `m`).
pub open spec fn dl_rec(s: Seq<char>, in_ansi: bool) -> int
    decreases s.len(),
{
    if s.len() == 0 {
        0
    } else if s[0] == '\x1b' {
        dl_rec(s.drop_first(), true)
    } else if in_ansi {
        dl_rec(s.drop_first(), s[0] != 'm')
    } else {
        1 + dl_rec(s.drop_first(), false)
    }
}

/// Display length of a text.
pub open spec fn display_len(s: Seq<char>) -> int {
    dl_rec(s, false)
}

/// Total display length of segments.
pub open spec fn sum_dl(segs: Seq<Seg>) -> int
    decreases segs.len(),
{
    if segs.len() == 0 {
        0
    } else {
        sum_dl(segs.drop_last()) + display_len(segs.last().text)
    }
}

// ---------------------------------------------------------------------------
// Printing
// ---------------------------------------------------------------------------

/// SGR parameters for inline formatting: bold `1`, italic `3`,
/// strikethrough `9`, joined by `;`.
pub open spec fn style_params(f: Flags) -> Seq<char> {
    let a = if f.bold {
        seq!['1']
    } else {
        Seq::empty()
    };
    let b = if f.italic {
        if a.len() > 0 {
            a + seq![';', '3']
        } else {
            seq!['3']
        }
    } else {
        a
    };
    if f.strikethrough {
        if b.len() > 0 {
            b + seq![';', '9']
        } else {
            seq!['9']
        }
    } else {
        b
    }
}

/// Escape code that opens a segment: code blocks yellow, headings by level
/// (bold yellow, bold cyan, bold magenta), reasoning dark gray italic,
/// blockquotes dark gray, code spans yellow, otherwise the inline styles.
pub open spec fn start_code(st: RenderState, seg: Seg, ct: ContentType) -> Seq<char> {
    if st.code_block {
        "\x1b[33m"@
    } else if st.heading == 1 {
        "\x1b[1;33m"@
    } else if st.heading == 2 {
        "\x1b[1;36m"@
    } else if st.heading == 3 {
        "\x1b[1;35m"@
    } else if ct is Thinking {
        "\x1b[90;3m"@
    } else if st.blockquote {
        "\x1b[90m"@
    } else if seg.flags.code_span {
        "\x1b[33m"@
    } else if style_params(seg.flags).len() > 0 {
        "\x1b["@ + style_params(seg.flags) + "m"@
    } else {
        Seq::empty()
    }
}

/// What printing one segment writes: the opening code, the text, and a
/// reset when a code was opened.
pub open spec fn seg_out(st: RenderState, seg: Seg, ct: ContentType) -> Seq<char> {
    let code = start_code(st, seg, ct);
    code + seg.text + (if code.len() > 0 {
        "\x1b[0m"@
    } else {
        Seq::empty()
    })
}

/// What printing segments writes, in order.
pub open spec fn segs_out(st: RenderState, segs: Seq<Seg>, ct: ContentType) -> Seq<char>
    decreases segs.len(),
{
    if segs.len() == 0 {
        Seq::empty()
    } else {
        segs_out(st, segs.drop_last(), ct) + seg_out(st, segs.last(), ct)
    }
}

/// The state after printing segments.
pub open spec fn print_all(st: RenderState, segs: Seq<Seg>, ct: ContentType) -> RenderState {
    RenderState { out: st.out + segs_out(st, segs, ct), ..st }
}

/// The state after writing a line break.
pub open spec fn write_nl(st: RenderState) -> RenderState {
    RenderState { out: st.out.push('\n'), ..st }
}

// ---------------------------------------------------------------------------
// Line structure
// ---------------------------------------------------------------------------

/// Characters allowed in a code-fence language tag.
pub open spec fn is_lang_char(c: char) -> bool {
    alphanumeric(c) || c == '_' || c == '-'
}

/// Every character is a language-tag character.
pub open spec fn all_lang(s: Seq<char>) -> bool {
    forall|i: int| 0 <= i < s.len() ==> is_lang_char(#[trigger] s[i])
}

/// The text opens or closes a code fence: after leading whitespace it
/// starts with three backticks, followed by nothing but an optional
/// language tag.
pub open spec fn is_fence(part: Seq<char>) -> bool {
    let t = trim_start(part);
    t.len() >= 3 && t[0] == '`' && t[1] == '`' && t[2] == '`' && (trim(t.skip(3)).len() == 0
        || all_lang(trim(t.skip(3))))
}

/// Number of leading `#` characters.
pub open spec fn hash_count(s: Seq<char>) -> int
    decreases s.len(),
{
    if s.len() > 0 && s[0] == '#' {
        1 + hash_count(s.drop_first())
    } else {
        0
    }
}

/// Heading detection at the start of a line. `#`s that arrive alone are
/// held back in `marker`; `None` means the part was absorbed that way.
pub open spec fn heading_spec(st: RenderState, part: Seq<char>) -> (RenderState, Option<Seq<char>>) {
    if !(part.len() > 0 && part[0] == '#') && st.marker.len() == 0 {
        (st, Some(part))
    } else {
        let combined = st.marker + part;
        if combined.len() > 0 && combined[0] == '#' {
            let hc = hash_count(combined);
            if hc <= 3 && hc < combined.len() {
                if combined[hc] == ' ' {
                    let skip = if hc + 1 >= st.marker.len() {
                        hc + 1 - st.marker.len()
                    } else {
                        0
                    };
                    (
                        RenderState {
                            heading: hc,
                            at_line_start: false,
                            marker: Seq::empty(),
                            ..st
                        },
                        Some(part.skip(skip)),
                    )
                } else {
                    (st, Some(part))
                }
            } else if hc == combined.len() {
                (RenderState { marker: combined, ..st }, None)
            } else {
                (st, Some(part))
            }
        } else {
            (RenderState { marker: Seq::empty(), ..st }, Some(part))
        }
    }
}

/// The `• ` segment that stands for a list marker.
pub open spec fn bullet_seg() -> Seg {
    Seg { text: seq!['•', ' '], flags: plain_flags() }
}

/// Line-start syntax: code fences, headings, blockquotes (`> `) and list
/// items (`- `, `* `). Gives the state and what is left of the part as
/// text (`None`: nothing is left to print).
pub open spec fn line_start_spec(st: RenderState, part: Seq<char>, ct: ContentType) -> (
    RenderState,
    Option<Seq<char>>,
) {
    if !st.at_line_start {
        (st, Some(part))
    } else if is_fence(part) {
        (RenderState { code_block: !st.code_block, at_line_start: false, ..st }, None)
    } else {
        let h = heading_spec(st, part);
        match h.1 {
            None => (h.0, None),
            Some(p1) => {
                let q = p1.len() >= 2 && p1[0] == '>' && p1[1] == ' ';
                let st2 = if q {
                    RenderState { blockquote: true, at_line_start: false, ..h.0 }
                } else {
                    h.0
                };
                let p2 = if q {
                    p1.skip(2)
                } else {
                    p1
                };
                if p2.len() >= 2 && (p2[0] == '-' || p2[0] == '*') && p2[1] == ' ' && st2.heading
                    == 0 && !st2.blockquote {
                    let st3 = print_all(st2, seq![bullet_seg()], ct);
                    (
                        RenderState { line_len: st3.line_len + 2, at_line_start: false, ..st3 },
                        Some(p2.skip(2)),
                    )
                } else {
                    (st2, Some(p2))
                }
            },
        }
    }
}

/// Characters that trail a word and are kept on its line when wrapping.
pub open spec fn is_punct(c: char) -> bool {
    c == '.' || c == ',' || c == ';' || c == ':' || c == '!' || c == '?' || c == ')' || c == ']'
        || c == '}' || c == '"' || c == '\'' || c == '>' || c == '-'
}

/// After leading whitespace, the text is non-empty trailing punctuation.
pub open spec fn is_trailing_punct(s: Seq<char>) -> bool {
    let t = trim_start(s);
    t.len() > 0 && forall|i: int| 0 <= i < t.len() ==> is_punct(#[trigger] t[i])
}

/// A token that starts with a space and does not fit: the line ends and
/// what follows the leading whitespace starts the next line.
pub open spec fn wrap_space_spec(st1: RenderState, processed: Seq<char>, ct: ContentType) -> RenderState {
    let st2 = RenderState { line_len: 0, at_line_start: false, ..write_nl(st1) };
    let rem = trim_start(processed);
    if rem.len() > 0 {
        let rsegs = inline_segments(st2.flags, rem);
        let st3 = RenderState { flags: inline_flags(st2.flags, rem), ..st2 };
        RenderState { line_len: sum_dl(rsegs), ..print_all(st3, rsegs, ct) }
    } else {
        st2
    }
}

/// Prints line content, wrapping first when it does not fit: a token that
/// starts with a space wraps and drops its leading whitespace; trailing
/// punctuation is never wrapped.
pub open spec fn place_spec(st: RenderState, processed: Seq<char>, ct: ContentType) -> RenderState {
    let segs = inline_segments(st.flags, processed);
    let st1 = RenderState { flags: inline_flags(st.flags, processed), ..st };
    let total = sum_dl(segs);
    if st.line_len == 0 {
        RenderState { line_len: total, ..print_all(st1, segs, ct) }
    } else if st.line_len + total <= st.width {
        RenderState { line_len: st.line_len + total, ..print_all(st1, segs, ct) }
    } else if processed[0] == ' ' {
        wrap_space_spec(st1, processed, ct)
    } else if is_trailing_punct(processed) {
        RenderState { line_len: st.line_len + total, ..print_all(st1, segs, ct) }
    } else {
        RenderState { line_len: total, at_line_start: false, ..print_all(write_nl(st1), segs, ct) }
    }
}

/// Handles one newline-free part of a token.
pub open spec fn part_spec(st: RenderState, part: Seq<char>, ct: ContentType) -> RenderState {
    if part.len() == 0 {
        st
    } else if st.code_block && !st.at_line_start && trim(part).len() > 0 && all_lang(trim(part)) {
        // a language tag that arrived as a token of its own
        st
    } else {
        let r = line_start_spec(st, part, ct);
        match r.1 {
            None => r.0,
            Some(p) => if p.len() > 0 {
                place_spec(r.0, p, ct)
            } else {
                r.0
            },
        }
    }
}

/// Handles a line break: held-back `#`s are printed as text, the line ends
/// (a heading line is followed by an empty line), and the line-level state
/// is reset.
pub open spec fn newline_spec(st: RenderState, ct: ContentType) -> RenderState {
    let st1 = if st.marker.len() > 0 {
        let segs = inline_segments(st.flags, st.marker);
        let sa = RenderState { flags: inline_flags(st.flags, st.marker), ..st };
        RenderState { marker: Seq::empty(), ..print_all(sa, segs, ct) }
    } else {
        st
    };
    let st2 = write_nl(st1);
    let st3 = if st2.heading > 0 {
        RenderState { heading: 0, ..write_nl(st2) }
    } else {
        RenderState { heading: 0, ..st2 }
    };
    RenderState { line_len: 0, at_line_start: true, blockquote: false, ..st3 }
}

/// Handles the newline-separated parts of `s`; `first` tells whether the
/// part before the first line break is the token's first part (no line
/// break precedes it).
pub open spec fn push_rec(st: RenderState, s: Seq<char>, ct: ContentType, first: bool) -> RenderState
    decreases s.len(),
{
    let st0 = if first {
        st
    } else {
        newline_spec(st, ct)
    };
    let k = first_nl(s);
    let st1 = part_spec(st0, s.take(k), ct);
    if k >= s.len() {
        st1
    } else {
        proof {
            lemma_first_nl(s);
        }
        push_rec(st1, s.skip(k + 1), ct, false)
    }
}

/// The state after pushing a token.
pub open spec fn push_spec(st: RenderState, token: Seq<char>, ct: ContentType) -> RenderState {
    push_rec(st, token, ct, true)
}

/// The state after flushing: held-back `#`s are printed plainly and an
/// unfinished line is ended.
pub open spec fn flush_spec(st: RenderState) -> RenderState {
    let st1 = if st.marker.len() > 0 {
        RenderState {
            marker: Seq::empty(),
            ..print_all(st, seq![Seg { text: st.marker, flags: plain_flags() }], ContentType::Normal)
        }
    } else {
        st
    };
    if st1.line_len > 0 {
        write_nl(st1)
    } else {
        st1
    }
}

// ---------------------------------------------------------------------------
// Facts about the specification
// ---------------------------------------------------------------------------

/// `texts` of a concatenation.
pub proof fn lemma_texts_concat(a: Seq<Seg>, b: Seq<Seg>)
    ensures
        texts(a + b) == texts(a) + texts(b),
    decreases b.len(),
{
    if b.len() == 0 {
        assert(a + b =~= a);
        assert(texts(b) =~= Seq::<char>::empty());
        assert(texts(a) + texts(b) =~= texts(a));
    } else {
        assert((a + b).drop_last() =~= a + b.drop_last());
        lemma_texts_concat(a, b.drop_last());
        assert(texts(a + b) =~= texts(a) + texts(b));
    }
}

/// `sum_dl` of a concatenation.
pub proof fn lemma_sum_dl_concat(a: Seq<Seg>, b: Seq<Seg>)
    ensures
        sum_dl(a + b) == sum_dl(a) + sum_dl(b),
    decreases b.len(),
{
    if b.len() == 0 {
        assert(a + b =~= a);
    } else {
        assert((a + b).drop_last() =~= a + b.drop_last());
        lemma_sum_dl_concat(a, b.drop_last());
    }
}

/// `segs_out` of a concatenation.
pub proof fn lemma_segs_out_concat(st: RenderState, a: Seq<Seg>, b: Seq<Seg>, ct: ContentType)
    ensures
        segs_out(st, a + b, ct) == segs_out(st, a, ct) + segs_out(st, b, ct),
    decreases b.len(),
{
    if b.len() == 0 {
        assert(a + b =~= a);
        assert(segs_out(st, a, ct) + segs_out(st, b, ct) =~= segs_out(st, a, ct));
    } else {
        assert((a + b).drop_last() =~= a + b.drop_last());
        lemma_segs_out_concat(st, a, b.drop_last(), ct);
        assert(segs_out(st, a + b, ct) =~= segs_out(st, a, ct) + segs_out(st, b, ct));
    }
}

/// Display length lies between 0 and the length.
pub proof fn lemma_dl_bounds(s: Seq<char>, in_ansi: bool)
    ensures
        0 <= dl_rec(s, in_ansi) <= s.len(),
    decreases s.len(),
{
    if s.len() > 0 {
        lemma_dl_bounds(s.drop_first(), true);
        lemma_dl_bounds(s.drop_first(), false);
        lemma_dl_bounds(s.drop_first(), s[0] != 'm');
    }
}

/// Total display length lies between 0 and the length of the texts.
pub proof fn lemma_sum_dl_bounds(segs: Seq<Seg>)
    ensures
        0 <= sum_dl(segs) <= texts(segs).len(),
    decreases segs.len(),
{
    if segs.len() > 0 {
        lemma_sum_dl_bounds(segs.drop_last());
        lemma_dl_bounds(segs.last().text, false);
    }
}

/// Total display length of a prefix is at most the whole.
pub proof fn lemma_sum_dl_prefix(segs: Seq<Seg>, j: int)
    requires
        0 <= j <= segs.len(),
    ensures
        0 <= sum_dl(segs.take(j)) <= sum_dl(segs),
    decreases segs.len(),
{
    if j == segs.len() {
        assert(segs.take(j) =~= segs);
        lemma_sum_dl_bounds(segs);
    } else {
        assert(segs.take(j) =~= segs.drop_last().take(j));
        lemma_sum_dl_prefix(segs.drop_last(), j);
        lemma_dl_bounds(segs.last().text, false);
    }
}

/// Inline rendering keeps exactly the non-delimiter characters, in order,
/// and produces no empty segment.
pub proof fn lemma_inline_texts(f: Flags, s: Seq<char>, cur: Seq<char>)
    ensures
        texts(inline_rec(f, s, cur).0) == cur + visible(f, s),
        forall|j: int|
            0 <= j < inline_rec(f, s, cur).0.len() ==> #[trigger] inline_rec(f, s, cur).0[j].text.len()
                > 0,
        visible(f, s).len() <= s.len(),
    decreases s.len(),
{
    if s.len() == 0 {
        assert(texts(emit(cur, f)) =~= cur) by {
            reveal_with_fuel(texts, 2);
            if cur.len() > 0 {
                assert(seq![Seg { text: cur, flags: f }].drop_last() =~= Seq::<Seg>::empty());
            }
        }
        assert(cur + visible(f, s) =~= cur);
    } else if delim_len(f, s) > 0 {
        let d = delim_len(f, s);
        let r = inline_rec(toggle(f, s), s.skip(d), Seq::empty());
        lemma_inline_texts(toggle(f, s), s.skip(d), Seq::empty());
        lemma_texts_concat(emit(cur, f), r.0);
        assert(texts(emit(cur, f)) =~= cur) by {
            reveal_with_fuel(texts, 2);
            if cur.len() > 0 {
                assert(seq![Seg { text: cur, flags: f }].drop_last() =~= Seq::<Seg>::empty());
            }
        }
        assert(Seq::<char>::empty() + visible(toggle(f, s), s.skip(d)) =~= visible(toggle(f, s), s.skip(d)));
        let all = emit(cur, f) + r.0;
        assert forall|j: int| 0 <= j < all.len() implies #[trigger] all[j].text.len() > 0 by {
            if j >= emit(cur, f).len() {
                assert(all[j] == r.0[j - emit(cur, f).len()]);
            }
        }
    } else {
        lemma_inline_texts(f, s.drop_first(), cur.push(s[0]));
        assert(cur.push(s[0]) + visible(f, s.drop_first()) =~= cur + (seq![s[0]] + visible(
            f,
            s.drop_first(),
        )));
    }
}

/// Total display length of inline segments is at most the text's length.
pub proof fn lemma_inline_len(f: Flags, s: Seq<char>)
    ensures
        0 <= sum_dl(inline_segments(f, s)) <= s.len(),
{
    lemma_inline_texts(f, s, Seq::empty());
    lemma_sum_dl_bounds(inline_segments(f, s));
    assert(Seq::<char>::empty() + visible(f, s) =~= visible(f, s));
}

/// `hash_count` counts exactly the leading `#`s.
pub proof fn lemma_hash_count(s: Seq<char>, k: int)
    requires
        0 <= k <= s.len(),
        forall|j: int| 0 <= j < k ==> #[trigger] s[j] == '#',
        k < s.len() ==> s[k] != '#',
    ensures
        hash_count(s) == k,
    decreases s.len(),
{
    if k > 0 {
        assert forall|j: int| 0 <= j < k - 1 implies #[trigger] s.drop_first()[j] == '#' by {
            assert(s.drop_first()[j] == s[j + 1]);
        }
        if k - 1 < s.len() - 1 {
            assert(s.drop_first()[k - 1] == s[k]);
        }
        lemma_hash_count(s.drop_first(), k - 1);
    }
}

// ---------------------------------------------------------------------------
// Laws
// ---------------------------------------------------------------------------

/// The text holds no line break.
pub open spec fn no_nl(s: Seq<char>) -> bool {
    forall|i: int| 0 <= i < s.len() ==> s[i] != '\n'
}

/// Inline rendering strips the emphasis and code-span delimiters and keeps
/// every other character, in order; no segment is empty.
pub proof fn law_inline_keeps_text(f: Flags, s: Seq<char>)
    ensures
        texts(inline_segments(f, s)) == visible(f, s),
        forall|j: int|
            0 <= j < inline_segments(f, s).len() ==> #[trigger] inline_segments(f, s)[j].text.len()
                > 0,
        visible(f, s).len() <= s.len(),
{
    lemma_inline_texts(f, s, Seq::empty());
    assert(Seq::<char>::empty() + visible(f, s) =~= visible(f, s));
}

/// Text without delimiters (no backtick, and outside a code span no `*`,
/// no `_` and no `~~`) is rendered unchanged, as one segment in the current
/// formatting, which it leaves as it was; inside a code span only a
/// backtick is a delimiter, so everything else stays literal.
pub proof fn law_plain_text_kept(f: Flags, s: Seq<char>)
    requires
        forall|i: int|
            0 <= i < s.len() ==> #[trigger] s[i] != '`' && (f.code_span || (s[i] != '*' && s[i]
                != '_' && !(s[i] == '~' && i + 1 < s.len() && s[i + 1] == '~'))),
    ensures
        visible(f, s) == s,
        inline_segments(f, s) == emit(s, f),
        inline_flags(f, s) == f,
    decreases s.len(),
{
    lemma_plain_inline(f, s, Seq::empty());
    assert(Seq::<char>::empty() + s =~= s);
    if s.len() > 0 {
        assert(delim_len(f, s) == 0);
        assert forall|i: int| 0 <= i < s.drop_first().len() implies #[trigger] s.drop_first()[i]
            != '`' && (f.code_span || (s.drop_first()[i] != '*' && s.drop_first()[i] != '_'
            && !(s.drop_first()[i] == '~' && i + 1 < s.drop_first().len() && s.drop_first()[i
            + 1] == '~'))) by {
            assert(s.drop_first()[i] == s[i + 1]);
            if i + 1 < s.drop_first().len() {
                assert(s.drop_first()[i + 1] == s[i + 2]);
            }
        }
        law_plain_text_kept(f, s.drop_first());
        assert(seq![s[0]] + s.drop_first() =~= s);
    }
}

/// A delimiter at the front is dropped and the rest is rendered from the
/// formatting it leaves.
proof fn lemma_delim_front(f: Flags, s: Seq<char>)
    requires
        delim_len(f, s) > 0,
    ensures
        inline_segments(f, s) == inline_segments(toggle(f, s), s.skip(delim_len(f, s))),
        inline_flags(f, s) == inline_flags(toggle(f, s), s.skip(delim_len(f, s))),
        visible(f, s) == visible(toggle(f, s), s.skip(delim_len(f, s))),
{
    let r = inline_rec(toggle(f, s), s.skip(delim_len(f, s)), Seq::empty());
    assert(emit(Seq::<char>::empty(), f) + r.0 =~= r.0);
}

/// The formatting left at the end does not depend on the pending run.
proof fn lemma_flags_any_run(f: Flags, s: Seq<char>, cur: Seq<char>)
    ensures
        inline_rec(f, s, cur).1 == inline_rec(f, s, Seq::empty()).1,
    decreases s.len(),
{
    if s.len() > 0 && delim_len(f, s) == 0 {
        lemma_flags_any_run(f, s.drop_first(), cur.push(s[0]));
        lemma_flags_any_run(f, s.drop_first(), seq![s[0]]);
        lemma_flags_any_run(f, s.drop_first(), Seq::empty());
        assert(Seq::<char>::empty().push(s[0]) =~= seq![s[0]]);
    }
}

/// Outside a code span, `~~` is not shown and turns strikethrough on or
/// off for what follows.
pub proof fn law_strikethrough_delimiter(f: Flags, rest: Seq<char>)
    requires
        !f.code_span,
    ensures
        visible(f, seq!['~', '~'] + rest) == visible(
            Flags { strikethrough: !f.strikethrough, ..f },
            rest,
        ),
        inline_segments(f, seq!['~', '~'] + rest) == inline_segments(
            Flags { strikethrough: !f.strikethrough, ..f },
            rest,
        ),
        inline_flags(f, seq!['~', '~'] + rest) == inline_flags(
            Flags { strikethrough: !f.strikethrough, ..f },
            rest,
        ),
{
    let s = seq!['~', '~'] + rest;
    assert(s[0] == '~' && s[1] == '~');
    assert(s.skip(2) =~= rest);
    lemma_delim_front(f, s);
}

/// Rendering `s` from `f` is rendering `rest` from `g`: the same segments,
/// the same formatting after, the same visible text.
pub open spec fn renders_as(f: Flags, s: Seq<char>, g: Flags, rest: Seq<char>) -> bool {
    &&& inline_segments(f, s) == inline_segments(g, rest)
    &&& inline_flags(f, s) == inline_flags(g, rest)
    &&& visible(f, s) == visible(g, rest)
}

/// Outside a code span, each emphasis delimiter is dropped and toggles its
/// formatting for what follows: `***` bold and italic, `**` and `__` bold,
/// a lone `*` or `_` italic, and a backtick opens a code span.
pub proof fn law_emphasis_delimiters(f: Flags, rest: Seq<char>)
    requires
        !f.code_span,
    ensures
        renders_as(f, seq!['*', '*', '*'] + rest, Flags { bold: !f.bold, italic: !f.italic, ..f }, rest),
        rest.len() == 0 || rest[0] != '*' ==> renders_as(
            f,
            seq!['*', '*'] + rest,
            Flags { bold: !f.bold, ..f },
            rest,
        ),
        renders_as(f, seq!['_', '_'] + rest, Flags { bold: !f.bold, ..f }, rest),
        rest.len() == 0 || rest[0] != '*' ==> renders_as(
            f,
            seq!['*'] + rest,
            Flags { italic: !f.italic, ..f },
            rest,
        ),
        rest.len() == 0 || rest[0] != '_' ==> renders_as(
            f,
            seq!['_'] + rest,
            Flags { italic: !f.italic, ..f },
            rest,
        ),
        renders_as(f, seq!['`'] + rest, Flags { code_span: true, ..f }, rest),
{
    let s3 = seq!['*', '*', '*'] + rest;
    assert(s3[0] == '*' && s3[1] == '*' && s3[2] == '*');
    assert(s3.skip(3) =~= rest);
    lemma_delim_front(f, s3);
    let s2 = seq!['*', '*'] + rest;
    assert(s2[0] == '*' && s2[1] == '*');
    assert(s2.skip(2) =~= rest);
    if rest.len() == 0 || rest[0] != '*' {
        assert(!(s2.len() >= 3 && s2[2] == '*'));
        lemma_delim_front(f, s2);
    }
    let u2 = seq!['_', '_'] + rest;
    assert(u2[0] == '_' && u2[1] == '_');
    assert(u2.skip(2) =~= rest);
    lemma_delim_front(f, u2);
    let s1 = seq!['*'] + rest;
    assert(s1[0] == '*');
    assert(s1.skip(1) =~= rest);
    if rest.len() == 0 || rest[0] != '*' {
        assert(s1.len() < 2 || s1[1] != '*');
        lemma_delim_front(f, s1);
    }
    let u1 = seq!['_'] + rest;
    assert(u1[0] == '_');
    assert(u1.skip(1) =~= rest);
    if rest.len() == 0 || rest[0] != '_' {
        assert(u1.len() < 2 || u1[1] != '_');
        lemma_delim_front(f, u1);
    }
    let b1 = seq!['`'] + rest;
    assert(b1[0] == '`');
    assert(b1.skip(1) =~= rest);
    lemma_delim_front(f, b1);
}

/// Inside a code span only a backtick is a delimiter: it closes the span;
/// any other character is shown as it is and changes no formatting.
pub proof fn law_code_span_literal(f: Flags, c: char, rest: Seq<char>)
    requires
        f.code_span,
    ensures
        renders_as(f, seq!['`'] + rest, Flags { code_span: false, ..f }, rest),
        c != '`' ==> visible(f, seq![c] + rest) == seq![c] + visible(f, rest),
        c != '`' ==> inline_flags(f, seq![c] + rest) == inline_flags(f, rest),
{
    let b1 = seq!['`'] + rest;
    assert(b1[0] == '`');
    assert(b1.skip(1) =~= rest);
    lemma_delim_front(f, b1);
    let s = seq![c] + rest;
    assert(s[0] == c);
    assert(s.drop_first() =~= rest);
    if c != '`' {
        lemma_flags_any_run(f, rest, seq![c]);
        assert(Seq::<char>::empty().push(c) =~= seq![c]);
    }
}

/// Outside a code span a character that is no delimiter (not `*`, `_` or a
/// backtick, and not a `~` followed by another) is shown as it is and
/// changes no formatting.
pub proof fn law_plain_char_shown(f: Flags, c: char, rest: Seq<char>)
    requires
        !f.code_span,
        c != '*' && c != '_' && c != '`',
        c == '~' ==> rest.len() == 0 || rest[0] != '~',
    ensures
        visible(f, seq![c] + rest) == seq![c] + visible(f, rest),
        inline_flags(f, seq![c] + rest) == inline_flags(f, rest),
{
    let s = seq![c] + rest;
    assert(s[0] == c);
    assert(s.len() >= 2 ==> s[1] == rest[0]);
    assert(delim_len(f, s) == 0);
    assert(s.drop_first() =~= rest);
    lemma_flags_any_run(f, rest, seq![c]);
    assert(Seq::<char>::empty().push(c) =~= seq![c]);
}

/// Outside a code span, text between two `~~` that holds no delimiter is
/// shown struck through, as one segment, and the formatting after it is
/// what it was before.
pub proof fn law_struck_text(f: Flags, t: Seq<char>)
    requires
        !f.code_span,
        t.len() > 0,
        forall|i: int|
            0 <= i < t.len() ==> #[trigger] t[i] != '`' && t[i] != '*' && t[i] != '_' && t[i]
                != '~',
    ensures
        visible(f, seq!['~', '~'] + t + seq!['~', '~']) == t,
        inline_segments(f, seq!['~', '~'] + t + seq!['~', '~']) == seq![
            Seg { text: t, flags: Flags { strikethrough: !f.strikethrough, ..f } },
        ],
        inline_flags(f, seq!['~', '~'] + t + seq!['~', '~']) == f,
{
    let g = Flags { strikethrough: !f.strikethrough, ..f };
    let tail = t + seq!['~', '~'];
    assert(seq!['~', '~'] + t + seq!['~', '~'] =~= seq!['~', '~'] + tail);
    law_strikethrough_delimiter(f, tail);
    // `t` is plain text, then `~~` closes.
    lemma_plain_prefix(g, t, seq!['~', '~'], Seq::empty());
    law_strikethrough_delimiter(g, Seq::empty());
    assert(seq!['~', '~'] + Seq::<char>::empty() =~= seq!['~', '~']);
    assert(Flags { strikethrough: !g.strikethrough, ..g } == f);
    assert(Seq::<char>::empty() + t =~= t);
    assert(visible(f, Seq::<char>::empty()) == Seq::<char>::empty());
    lemma_plain_visible(g, t, seq!['~', '~']);
    assert(t + Seq::<char>::empty() =~= t);
}

/// Plain text before `rest` (which starts with a delimiter or is empty)
/// joins the pending run, which is then emitted.
proof fn lemma_plain_prefix(f: Flags, t: Seq<char>, rest: Seq<char>, cur: Seq<char>)
    requires
        !f.code_span,
        forall|i: int|
            0 <= i < t.len() ==> #[trigger] t[i] != '`' && t[i] != '*' && t[i] != '_' && t[i]
                != '~',
        rest.len() == 0 || delim_len(f, rest) > 0,
    ensures
        inline_rec(f, t + rest, cur) == ({
            let r = inline_rec(f, rest, Seq::empty());
            if rest.len() == 0 {
                (emit(cur + t, f), f)
            } else {
                let q = inline_rec(toggle(f, rest), rest.skip(delim_len(f, rest)), Seq::empty());
                (emit(cur + t, f) + q.0, q.1)
            }
        }),
    decreases t.len(),
{
    if t.len() == 0 {
        assert(t + rest =~= rest);
        assert(cur + t =~= cur);
    } else {
        let s = t + rest;
        assert(s[0] == t[0]);
        assert(delim_len(f, s) == 0);
        assert(s.drop_first() =~= t.drop_first() + rest);
        lemma_plain_prefix(f, t.drop_first(), rest, cur.push(t[0]));
        assert(cur.push(t[0]) + t.drop_first() =~= cur + t);
    }
}

/// The visible text of plain text before `rest` is that text, then what
/// `rest` shows.
proof fn lemma_plain_visible(f: Flags, t: Seq<char>, rest: Seq<char>)
    requires
        !f.code_span,
        forall|i: int|
            0 <= i < t.len() ==> #[trigger] t[i] != '`' && t[i] != '*' && t[i] != '_' && t[i]
                != '~',
        rest.len() == 0 || delim_len(f, rest) > 0,
    ensures
        visible(f, t + rest) == t + visible(f, rest),
    decreases t.len(),
{
    if t.len() == 0 {
        assert(t + rest =~= rest);
        assert(t + visible(f, rest) =~= visible(f, rest));
    } else {
        let s = t + rest;
        assert(s[0] == t[0]);
        assert(delim_len(f, s) == 0);
        assert(s.drop_first() =~= t.drop_first() + rest);
        lemma_plain_visible(f, t.drop_first(), rest);
        assert(seq![t[0]] + (t.drop_first() + visible(f, rest)) =~= t + visible(f, rest));
    }
}

/// Leading whitespace before a character that is not whitespace is
/// counted exactly.
proof fn lemma_lead_ws_prefix(ws: Seq<char>, x: Seq<char>)
    requires
        forall|i: int| 0 <= i < ws.len() ==> crate::text::is_ws(#[trigger] ws[i]),
        x.len() > 0,
        !crate::text::is_ws(x[0]),
    ensures
        crate::text::lead_ws(ws + x) == ws.len(),
        trim_start(ws + x) == x,
    decreases ws.len(),
{
    if ws.len() == 0 {
        assert(ws + x =~= x);
    } else {
        assert((ws + x)[0] == ws[0]);
        assert((ws + x).drop_first() =~= ws.drop_first() + x);
        assert forall|i: int| 0 <= i < ws.drop_first().len() implies crate::text::is_ws(
            #[trigger] ws.drop_first()[i],
        ) by {
            assert(ws.drop_first()[i] == ws[i + 1]);
        }
        lemma_lead_ws_prefix(ws.drop_first(), x);
        assert((ws + x).skip(ws.len() as int) =~= x);
    }
}

/// A line part made of leading whitespace, three backticks and a language
/// tag of letters, digits, `_` and `-` (or none) is a code fence, however
/// far it is indented; at the start of a line it opens or closes the code
/// block and leaves nothing to print.
pub proof fn law_indented_fence(st: RenderState, ws: Seq<char>, lang: Seq<char>, ct: ContentType)
    requires
        forall|i: int| 0 <= i < ws.len() ==> crate::text::is_ws(#[trigger] ws[i]),
        all_lang(lang),
    ensures
        is_fence(ws + seq!['`', '`', '`'] + lang),
        st.at_line_start ==> line_start_spec(st, ws + seq!['`', '`', '`'] + lang, ct) == (
            RenderState { code_block: !st.code_block, at_line_start: false, ..st },
            None::<Seq<char>>,
        ),
{
    let x = seq!['`', '`', '`'] + lang;
    assert(x[0] == '`' && x[1] == '`' && x[2] == '`');
    assert(ws + seq!['`', '`', '`'] + lang =~= ws + x);
    lemma_lead_ws_prefix(ws, x);
    assert(x.skip(3) =~= lang);
    let a = crate::text::lead_ws(lang) as int;
    crate::text::lemma_lead_ws_bound(lang);
    let u = lang.skip(a);
    assert(trim_start(lang) == u);
    crate::text::lemma_trail_ws_bound(u);
    let t = u.take(u.len() - crate::text::trail_ws(u));
    assert(trim(lang) == t);
    assert forall|i: int| 0 <= i < t.len() implies is_lang_char(#[trigger] t[i]) by {
        assert(t[i] == u[i]);
        assert(u[i] == lang[a + i]);
    }
}

/// At the start of a plain line (no heading, no quote, no held `#`), a
/// part that starts with `* ` is a list item exactly as one that starts
/// with `- `: the bullet `• ` is printed, the line counts its two columns,
/// and the rest of the part is the item's text.
pub proof fn law_list_item_markers(st: RenderState, rest: Seq<char>, ct: ContentType)
    requires
        st.at_line_start,
        st.heading == 0,
        !st.blockquote,
        st.marker.len() == 0,
    ensures
        line_start_spec(st, seq!['*', ' '] + rest, ct) == line_start_spec(st, seq!['-', ' '] + rest, ct),
        line_start_spec(st, seq!['-', ' '] + rest, ct) == ({
            let printed = print_all(
                st,
                seq![Seg { text: seq!['•', ' '], flags: plain_flags() }],
                ct,
            );
            (RenderState { line_len: st.line_len + 2, at_line_start: false, ..printed }, Some(rest))
        }),
{
    let a = seq!['*', ' '] + rest;
    let b = seq!['-', ' '] + rest;
    assert(a[0] == '*' && a[1] == ' ');
    assert(b[0] == '-' && b[1] == ' ');
    assert(trim_start(a) == a);
    assert(trim_start(b) == b);
    assert(!is_fence(a));
    assert(!is_fence(b));
    assert(a.skip(2) =~= rest);
    assert(b.skip(2) =~= rest);
}

/// At the start of a line (no `#` held back), one to three `#` and a space
/// make a heading of that level: the marks are not printed and the rest of
/// the part is the heading's text (unless it starts a quote). Four or more
/// `#` are no heading: the part is text.
pub proof fn law_heading_marks(st: RenderState, k: int, rest: Seq<char>, ct: ContentType)
    requires
        st.at_line_start,
        st.marker.len() == 0,
        1 <= k,
    ensures
        k <= 3 && !(rest.len() >= 2 && rest[0] == '>' && rest[1] == ' ') ==> line_start_spec(
            st,
            Seq::new(k as nat, |i: int| '#') + seq![' '] + rest,
            ct,
        ) == (RenderState { heading: k, at_line_start: false, ..st }, Some(rest)),
        k > 3 && !st.blockquote && st.heading == 0 ==> line_start_spec(
            st,
            Seq::new(k as nat, |i: int| '#') + seq![' '] + rest,
            ct,
        ) == (st, Some(Seq::new(k as nat, |i: int| '#') + seq![' '] + rest)),
{
    let h = Seq::new(k as nat, |i: int| '#');
    let part = h + seq![' '] + rest;
    assert(part[0] == '#');
    assert(part[k] == ' ');
    assert(trim_start(part) == part);
    assert(!is_fence(part));
    assert(st.marker + part =~= part);
    lemma_hash_count(part, k);
    assert(part.skip(k + 1) =~= rest);
    assert(st.marker =~= Seq::<char>::empty());
    assert(RenderState { heading: k, at_line_start: false, marker: Seq::empty(), ..st } == RenderState {
        heading: k,
        at_line_start: false,
        ..st
    });
}

/// At the start of a line, `> ` makes the line a quote: the mark is not
/// printed and the rest of the part is the quote's text.
pub proof fn law_quote_mark(st: RenderState, rest: Seq<char>, ct: ContentType)
    requires
        st.at_line_start,
        st.marker.len() == 0,
    ensures
        line_start_spec(st, seq!['>', ' '] + rest, ct) == (
            RenderState { blockquote: true, at_line_start: false, ..st },
            Some(rest),
        ),
{
    let part = seq!['>', ' '] + rest;
    assert(part[0] == '>' && part[1] == ' ');
    assert(trim_start(part) == part);
    assert(!is_fence(part));
    assert(part.skip(2) =~= rest);
}

/// How a segment is printed. In a code block: yellow, whatever its
/// formatting. On a heading line: bold yellow, bold cyan or bold magenta by
/// level. Reasoning text: dark gray italic; a quote: dark gray. Otherwise by
/// its own formatting: a code span yellow; bold, italic and strikethrough
/// as SGR `1`, `3` and `9` joined by `;`; plain text bare. A colour is
/// always reset after the text.
pub proof fn law_segment_styles(st: RenderState, t: Seq<char>, f: Flags, ct: ContentType)
    ensures
        st.code_block ==> seg_out(st, Seg { text: t, flags: f }, ct) == "\x1b[33m"@ + t + "\x1b[0m"@,
        !st.code_block && st.heading == 1 ==> seg_out(st, Seg { text: t, flags: f }, ct) == "\x1b[1;33m"@
            + t + "\x1b[0m"@,
        !st.code_block && st.heading == 2 ==> seg_out(st, Seg { text: t, flags: f }, ct) == "\x1b[1;36m"@
            + t + "\x1b[0m"@,
        !st.code_block && st.heading == 3 ==> seg_out(st, Seg { text: t, flags: f }, ct) == "\x1b[1;35m"@
            + t + "\x1b[0m"@,
        !st.code_block && st.heading == 0 && ct is Thinking ==> seg_out(st, Seg { text: t, flags: f }, ct)
            == "\x1b[90;3m"@ + t + "\x1b[0m"@,
        !st.code_block && st.heading == 0 && ct is Normal && st.blockquote ==> seg_out(
            st,
            Seg { text: t, flags: f },
            ct,
        ) == "\x1b[90m"@ + t + "\x1b[0m"@,
        !st.code_block && st.heading == 0 && ct is Normal && !st.blockquote ==> {
            &&& f.code_span ==> seg_out(st, Seg { text: t, flags: f }, ct) == "\x1b[33m"@ + t
                + "\x1b[0m"@
            &&& f == plain_flags() ==> seg_out(st, Seg { text: t, flags: f }, ct) == t
            &&& !f.code_span && f.bold && !f.italic && !f.strikethrough ==> seg_out(
                st,
                Seg { text: t, flags: f },
                ct,
            ) == "\x1b[1m"@ + t + "\x1b[0m"@
            &&& !f.code_span && !f.bold && f.italic && !f.strikethrough ==> seg_out(
                st,
                Seg { text: t, flags: f },
                ct,
            ) == "\x1b[3m"@ + t + "\x1b[0m"@
            &&& !f.code_span && !f.bold && !f.italic && f.strikethrough ==> seg_out(
                st,
                Seg { text: t, flags: f },
                ct,
            ) == "\x1b[9m"@ + t + "\x1b[0m"@
            &&& !f.code_span && f.bold && f.italic && f.strikethrough ==> seg_out(
                st,
                Seg { text: t, flags: f },
                ct,
            ) == "\x1b[1;3;9m"@ + t + "\x1b[0m"@
        },
{
    reveal_strlit("\x1b[33m");
    reveal_strlit("\x1b[1;33m");
    reveal_strlit("\x1b[1;36m");
    reveal_strlit("\x1b[1;35m");
    reveal_strlit("\x1b[90;3m");
    reveal_strlit("\x1b[90m");
    reveal_strlit("\x1b[1m");
    reveal_strlit("\x1b[3m");
    reveal_strlit("\x1b[9m");
    reveal_strlit("\x1b[1;3;9m");
    reveal_strlit("\x1b[");
    reveal_strlit("m");
    let seg = Seg { text: t, flags: f };
    if !f.code_span && f.bold && !f.italic && !f.strikethrough {
        assert(style_params(f) =~= seq!['1']);
        assert("\x1b["@ + seq!['1'] + "m"@ =~= "\x1b[1m"@);
    }
    if !f.code_span && !f.bold && f.italic && !f.strikethrough {
        assert(style_params(f) =~= seq!['3']);
        assert("\x1b["@ + seq!['3'] + "m"@ =~= "\x1b[3m"@);
    }
    if !f.code_span && !f.bold && !f.italic && f.strikethrough {
        assert(style_params(f) =~= seq!['9']);
        assert("\x1b["@ + seq!['9'] + "m"@ =~= "\x1b[9m"@);
    }
    if !f.code_span && f.bold && f.italic && f.strikethrough {
        assert(style_params(f) =~= seq!['1', ';', '3', ';', '9']);
        assert("\x1b["@ + seq!['1', ';', '3', ';', '9'] + "m"@ =~= "\x1b[1;3;9m"@);
    }
    if f == plain_flags() {
        assert(style_params(f) =~= Seq::<char>::empty());
        assert(Seq::<char>::empty() + t + Seq::<char>::empty() =~= t);
    }
}

/// A line break (with no `#` held back) writes one line break, and a
/// second one after a heading line; the next line starts fresh: no
/// heading, no quote, nothing on it yet. The code block and the inline
/// formatting carry on.
pub proof fn law_line_break_output(st: RenderState, ct: ContentType)
    requires
        st.marker.len() == 0,
    ensures
        newline_spec(st, ct).out == st.out + if st.heading > 0 {
            seq!['\n', '\n']
        } else {
            seq!['\n']
        },
        newline_spec(st, ct).line_len == 0,
        newline_spec(st, ct).at_line_start,
        newline_spec(st, ct).heading == 0,
        !newline_spec(st, ct).blockquote,
        newline_spec(st, ct).code_block == st.code_block,
        newline_spec(st, ct).flags == st.flags,
        newline_spec(st, ct).width == st.width,
{
    assert(st.out.push('\n').push('\n') =~= st.out + seq!['\n', '\n']);
    assert(st.out.push('\n') =~= st.out + seq!['\n']);
}

/// Plain text joins the pending run and changes no formatting.
proof fn lemma_plain_inline(f: Flags, s: Seq<char>, cur: Seq<char>)
    requires
        forall|i: int|
            0 <= i < s.len() ==> #[trigger] s[i] != '`' && (f.code_span || (s[i] != '*' && s[i]
                != '_' && !(s[i] == '~' && i + 1 < s.len() && s[i + 1] == '~'))),
    ensures
        inline_rec(f, s, cur) == (emit(cur + s, f), f),
    decreases s.len(),
{
    if s.len() == 0 {
        assert(cur + s =~= cur);
    } else {
        assert(delim_len(f, s) == 0);
        assert forall|i: int| 0 <= i < s.drop_first().len() implies #[trigger] s.drop_first()[i]
            != '`' && (f.code_span || (s.drop_first()[i] != '*' && s.drop_first()[i] != '_'
            && !(s.drop_first()[i] == '~' && i + 1 < s.drop_first().len() && s.drop_first()[i
            + 1] == '~'))) by {
            assert(s.drop_first()[i] == s[i + 1]);
            if i + 1 < s.drop_first().len() {
                assert(s.drop_first()[i + 1] == s[i + 2]);
            }
        }
        lemma_plain_inline(f, s.drop_first(), cur.push(s[0]));
        assert(cur.push(s[0]) + s.drop_first() =~= cur + s);
    }
}

/// Text without escape characters has its length as display length.
pub proof fn law_display_len_plain(s: Seq<char>)
    requires
        forall|i: int| 0 <= i < s.len() ==> s[i] != '\x1b',
    ensures
        display_len(s) == s.len(),
    decreases s.len(),
{
    if s.len() > 0 {
        assert forall|i: int| 0 <= i < s.drop_first().len() implies s.drop_first()[i] != '\x1b' by {
            assert(s.drop_first()[i] == s[i + 1]);
        }
        law_display_len_plain(s.drop_first());
    }
}

proof fn lemma_no_nl_concat(a: Seq<char>, b: Seq<char>)
    ensures
        no_nl(a + b) == (no_nl(a) && no_nl(b)),
{
    if no_nl(a) && no_nl(b) {
        assert forall|i: int| 0 <= i < (a + b).len() implies (a + b)[i] != '\n' by {
            if i >= a.len() {
                assert((a + b)[i] == b[i - a.len()]);
            }
        }
    }
    if no_nl(a + b) {
        assert forall|i: int| 0 <= i < a.len() implies a[i] != '\n' by {
            assert((a + b)[i] == a[i]);
        }
        assert forall|i: int| 0 <= i < b.len() implies b[i] != '\n' by {
            assert((a + b)[i + a.len()] == b[i]);
        }
    }
}

proof fn lemma_visible_no_nl(f: Flags, s: Seq<char>)
    requires
        no_nl(s),
    ensures
        no_nl(visible(f, s)),
    decreases s.len(),
{
    if s.len() > 0 {
        if delim_len(f, s) > 0 {
            let d = delim_len(f, s);
            assert(no_nl(s.skip(d))) by {
                assert forall|i: int| 0 <= i < s.skip(d).len() implies s.skip(d)[i] != '\n' by {
                    assert(s.skip(d)[i] == s[i + d]);
                }
            }
            lemma_visible_no_nl(toggle(f, s), s.skip(d));
        } else {
            assert(no_nl(s.drop_first())) by {
                assert forall|i: int| 0 <= i < s.drop_first().len() implies s.drop_first()[i]
                    != '\n' by {
                    assert(s.drop_first()[i] == s[i + 1]);
                }
            }
            lemma_visible_no_nl(f, s.drop_first());
            lemma_no_nl_concat(seq![s[0]], visible(f, s.drop_first()));
        }
    }
}

proof fn lemma_codes_no_nl(st: RenderState, seg: Seg, ct: ContentType)
    ensures
        no_nl(start_code(st, seg, ct)),
        no_nl("\x1b[0m"@),
{
    reveal_strlit("\x1b[33m");
    reveal_strlit("\x1b[1;33m");
    reveal_strlit("\x1b[1;36m");
    reveal_strlit("\x1b[1;35m");
    reveal_strlit("\x1b[90;3m");
    reveal_strlit("\x1b[90m");
    reveal_strlit("\x1b[");
    reveal_strlit("m");
    reveal_strlit("\x1b[0m");
    let p = style_params(seg.flags);
    assert(no_nl(p));
    lemma_no_nl_concat("\x1b["@, p);
    lemma_no_nl_concat("\x1b["@ + p, "m"@);
}

proof fn lemma_segs_out_no_nl(st: RenderState, segs: Seq<Seg>, ct: ContentType)
    requires
        no_nl(texts(segs)),
    ensures
        no_nl(segs_out(st, segs, ct)),
    decreases segs.len(),
{
    if segs.len() > 0 {
        let last = segs.last();
        lemma_no_nl_concat(texts(segs.drop_last()), last.text);
        lemma_segs_out_no_nl(st, segs.drop_last(), ct);
        lemma_codes_no_nl(st, last, ct);
        let code = start_code(st, last, ct);
        lemma_no_nl_concat(code, last.text);
        let tail = if code.len() > 0 {
            "\x1b[0m"@
        } else {
            Seq::<char>::empty()
        };
        lemma_no_nl_concat(code + last.text, tail);
        lemma_no_nl_concat(segs_out(st, segs.drop_last(), ct), seg_out(st, last, ct));
    }
}

/// Printing the inline segments of line-break-free text writes no line break.
proof fn lemma_print_inline_no_nl(st: RenderState, f: Flags, s: Seq<char>, ct: ContentType)
    requires
        no_nl(s),
    ensures
        no_nl(segs_out(st, inline_segments(f, s), ct)),
{
    law_inline_keeps_text(f, s);
    lemma_visible_no_nl(f, s);
    lemma_segs_out_no_nl(st, inline_segments(f, s), ct);
}

/// A token without line breaks is handled as a single part.
pub proof fn lemma_push_single_part(st: RenderState, token: Seq<char>, ct: ContentType)
    requires
        no_nl(token),
    ensures
        push_spec(st, token, ct) == part_spec(st, token, ct),
{
    lemma_first_nl_unique(token, token.len() as int);
    assert(token.take(token.len() as int) =~= token);
}

/// Trailing punctuation is never moved to a new line: pushing it onto a
/// line that already holds text writes no line break.
#[verifier::spinoff_prover]
pub proof fn law_trailing_punctuation_stays(st: RenderState, token: Seq<char>, ct: ContentType)
    requires
        state_wf(st),
        st.line_len > 0,
        no_nl(token),
        token.len() > 0,
        token[0] != ' ',
        is_trailing_punct(token),
    ensures
        push_spec(st, token, ct).out.len() >= st.out.len(),
        no_nl(push_spec(st, token, ct).out.skip(st.out.len() as int)),
{
    lemma_push_single_part(st, token, ct);
    let r = part_spec(st, token, ct);
    let t = trim_start(token);
    crate::text::lemma_lead_ws_bound(token);
    assert(forall|i: int| 0 <= i < t.len() ==> #[trigger] t[i] == token[i + crate::text::lead_ws(token)]);
    assert(t[0] != '`' && t[0] != '#' && t[0] != '*' && is_punct(t[0]));
    // a first character that is punctuation leaves nothing to trim
    if !crate::text::is_ws(token[0]) {
        crate::text::lemma_lead_ws_unique(token, 0);
        assert(t == token);
        if token.len() >= 2 {
            assert(is_punct(t[1]));
            assert(token[1] != ' ');
        }
    }
    assert(token[0] != '#');
    if st.code_block && !st.at_line_start && trim(token).len() > 0 && all_lang(trim(token)) {
        assert(r == st);
        assert(r.out.skip(st.out.len() as int) =~= Seq::<char>::empty());
    } else {
        let ls = line_start_spec(st, token, ct);
        if st.at_line_start {
            assert(!is_fence(token));
            if st.marker.len() > 0 {
                let combined = st.marker + token;
                assert forall|j: int| 0 <= j < st.marker.len() implies #[trigger] combined[j]
                    == '#' by {
                    assert(combined[j] == st.marker[j]);
                }
                assert(combined[st.marker.len() as int] == token[0]);
                lemma_hash_count(combined, st.marker.len() as int);
            }
            let h = heading_spec(st, token);
            assert(h.0.out == st.out && h.0.line_len == st.line_len && h.1 == Some(token)
                && h.0.blockquote == st.blockquote && h.0.code_block == st.code_block);
        }
        assert(ls.1 == Some(token));
        assert(ls.0.out == st.out && ls.0.line_len == st.line_len);
        let st0 = ls.0;
        let segs = inline_segments(st0.flags, token);
        let st1 = RenderState { flags: inline_flags(st0.flags, token), ..st0 };
        lemma_print_inline_no_nl(st1, st0.flags, token, ct);
        assert(r == place_spec(st0, token, ct));
        assert(r.out =~= st.out + segs_out(st1, segs, ct));
        assert(r.out.skip(st.out.len() as int) =~= segs_out(st1, segs, ct));
    }
}

/// A token no longer than the line width never makes a line overflow,
/// unless it is trailing punctuation (which stays on its line).
pub proof fn law_wrap_keeps_width(st: RenderState, token: Seq<char>, ct: ContentType)
    requires
        state_wf(st),
        !st.at_line_start,
        st.line_len <= st.width,
        no_nl(token),
        token.len() <= st.width,
        !is_trailing_punct(token),
    ensures
        push_spec(st, token, ct).line_len <= st.width,
{
    lemma_push_single_part(st, token, ct);
    if token.len() > 0 && !(st.code_block && !st.at_line_start && trim(token).len() > 0
        && all_lang(trim(token))) {
        lemma_inline_len(st.flags, token);
        let st1 = RenderState { flags: inline_flags(st.flags, token), ..st };
        if !(st.line_len == 0) && !(st.line_len + sum_dl(inline_segments(st.flags, token))
            <= st.width) && token[0] == ' ' {
            let rem = trim_start(token);
            crate::text::lemma_lead_ws_bound(token);
            lemma_inline_len(st1.flags, rem);
        }
    }
}

/// `first_nl` of a text that ends with a line break is before its end.
proof fn lemma_first_nl_before_end(s: Seq<char>)
    requires
        s.len() > 0,
        s.last() == '\n',
    ensures
        0 <= first_nl(s) < s.len(),
{
    lemma_first_nl(s);
}

proof fn lemma_push_rec_line_end(st: RenderState, s: Seq<char>, ct: ContentType, first: bool)
    requires
        s.len() > 0,
        s.last() == '\n',
    ensures
        push_rec(st, s, ct, first).line_len == 0,
        push_rec(st, s, ct, first).at_line_start,
        !push_rec(st, s, ct, first).blockquote,
        push_rec(st, s, ct, first).heading == 0,
        push_rec(st, s, ct, first).marker == Seq::<char>::empty(),
    decreases s.len(),
{
    lemma_first_nl_before_end(s);
    let k = first_nl(s);
    let st0 = if first {
        st
    } else {
        newline_spec(st, ct)
    };
    let st1 = part_spec(st0, s.take(k), ct);
    let rest = s.skip(k + 1);
    if rest.len() == 0 {
        assert(first_nl(rest) == 0);
        assert(rest.take(0) =~= Seq::<char>::empty());
        assert(push_rec(st1, rest, ct, false) == part_spec(newline_spec(st1, ct), rest.take(0), ct));
    } else {
        assert(rest[rest.len() - 1] == s[s.len() - 1]);
        lemma_push_rec_line_end(st1, rest, ct, false);
    }
}

/// Number of line feeds in a text.
pub open spec fn nl_count(s: Seq<char>) -> nat
    decreases s.len(),
{
    if s.len() == 0 {
        0
    } else {
        nl_count(s.drop_last()) + if s.last() == '\n' {
            1nat
        } else {
            0nat
        }
    }
}

proof fn lemma_nl_count_concat(a: Seq<char>, b: Seq<char>)
    ensures
        nl_count(a + b) == nl_count(a) + nl_count(b),
    decreases b.len(),
{
    if b.len() == 0 {
        assert(a + b =~= a);
    } else {
        assert((a + b).drop_last() =~= a + b.drop_last());
        lemma_nl_count_concat(a, b.drop_last());
    }
}

proof fn lemma_nl_count_one()
    ensures
        nl_count(seq!['\n']) == 1,
{
    assert(seq!['\n'].drop_last() =~= Seq::<char>::empty());
    reveal_with_fuel(nl_count, 2);
}

proof fn lemma_nl_count_none(s: Seq<char>)
    requires
        forall|j: int| 0 <= j < s.len() ==> s[j] != '\n',
    ensures
        nl_count(s) == 0,
    decreases s.len(),
{
    if s.len() > 0 {
        lemma_nl_count_none(s.drop_last());
    }
}

/// The output only grows: `b` is `a` with something written after it.
pub open spec fn written_after(a: Seq<char>, b: Seq<char>) -> bool {
    exists|x: Seq<char>| b == a + x
}

proof fn lemma_written_after_nl(a: Seq<char>, b: Seq<char>)
    requires
        written_after(a, b),
    ensures
        nl_count(b) >= nl_count(a),
{
    let x = choose|x: Seq<char>| b == a + x;
    lemma_nl_count_concat(a, x);
}

proof fn lemma_written_after_trans(a: Seq<char>, b: Seq<char>, c: Seq<char>)
    requires
        written_after(a, b),
        written_after(b, c),
    ensures
        written_after(a, c),
{
    let x = choose|x: Seq<char>| b == a + x;
    let y = choose|y: Seq<char>| c == b + y;
    assert(c =~= a + (x + y));
}

proof fn lemma_print_all_appends(st: RenderState, segs: Seq<Seg>, ct: ContentType)
    ensures
        written_after(st.out, print_all(st, segs, ct).out),
{
    assert(print_all(st, segs, ct).out == st.out + segs_out(st, segs, ct));
}

proof fn lemma_write_nl_appends(st: RenderState)
    ensures
        written_after(st.out, write_nl(st).out),
        nl_count(write_nl(st).out) == nl_count(st.out) + 1,
{
    assert(write_nl(st).out =~= st.out + seq!['\n']);
    lemma_nl_count_one();
    lemma_nl_count_concat(st.out, seq!['\n']);
}

proof fn lemma_line_start_appends(st: RenderState, part: Seq<char>, ct: ContentType)
    ensures
        written_after(st.out, line_start_spec(st, part, ct).0.out),
{
    assert(st.out == st.out + Seq::<char>::empty());
    if st.at_line_start && !is_fence(part) {
        let h = heading_spec(st, part);
        assert(h.0.out == st.out);
        if let Some(p1) = h.1 {
            let q = p1.len() >= 2 && p1[0] == '>' && p1[1] == ' ';
            let st2 = if q {
                RenderState { blockquote: true, at_line_start: false, ..h.0 }
            } else {
                h.0
            };
            lemma_print_all_appends(st2, seq![bullet_seg()], ct);
        }
    }
}

proof fn lemma_place_appends(st0: RenderState, p: Seq<char>, ct: ContentType)
    requires
        p.len() > 0,
    ensures
        written_after(st0.out, place_spec(st0, p, ct).out),
{
    let segs = inline_segments(st0.flags, p);
    let st1 = RenderState { flags: inline_flags(st0.flags, p), ..st0 };
    lemma_print_all_appends(st1, segs, ct);
    lemma_write_nl_appends(st1);
    lemma_print_all_appends(write_nl(st1), segs, ct);
    lemma_written_after_trans(st1.out, write_nl(st1).out, print_all(write_nl(st1), segs, ct).out);
    let st2 = RenderState { line_len: 0, at_line_start: false, ..write_nl(st1) };
    let rem = trim_start(p);
    let rsegs = inline_segments(st2.flags, rem);
    let st3 = RenderState { flags: inline_flags(st2.flags, rem), ..st2 };
    lemma_print_all_appends(st3, rsegs, ct);
    lemma_written_after_trans(st1.out, st3.out, print_all(st3, rsegs, ct).out);
}

proof fn lemma_part_appends(st: RenderState, part: Seq<char>, ct: ContentType)
    ensures
        written_after(st.out, part_spec(st, part, ct).out),
{
    assert(st.out == st.out + Seq::<char>::empty());
    if part.len() == 0 {
    } else if st.code_block && !st.at_line_start && trim(part).len() > 0 && all_lang(trim(part)) {
    } else {
        let r = line_start_spec(st, part, ct);
        lemma_line_start_appends(st, part, ct);
        if let Some(p) = r.1 {
            if p.len() > 0 {
                lemma_place_appends(r.0, p, ct);
                lemma_written_after_trans(st.out, r.0.out, place_spec(r.0, p, ct).out);
            }
        }
    }
}

proof fn lemma_newline_appends(st: RenderState, ct: ContentType)
    ensures
        written_after(st.out, newline_spec(st, ct).out),
        nl_count(newline_spec(st, ct).out) >= nl_count(st.out) + 1,
{
    assert(st.out == st.out + Seq::<char>::empty());
    let st1 = if st.marker.len() > 0 {
        let segs = inline_segments(st.flags, st.marker);
        let sa = RenderState { flags: inline_flags(st.flags, st.marker), ..st };
        lemma_print_all_appends(sa, segs, ct);
        RenderState { marker: Seq::empty(), ..print_all(sa, segs, ct) }
    } else {
        st
    };
    lemma_write_nl_appends(st1);
    let st2 = write_nl(st1);
    lemma_write_nl_appends(st2);
    lemma_written_after_trans(st.out, st1.out, st2.out);
    lemma_written_after_trans(st.out, st2.out, write_nl(st2).out);
    lemma_written_after_nl(st.out, st1.out);
}

#[verifier::spinoff_prover]
#[verifier::rlimit(60)]
proof fn lemma_push_rec_nl(st: RenderState, s: Seq<char>, ct: ContentType, first: bool)
    ensures
        written_after(st.out, push_rec(st, s, ct, first).out),
        nl_count(push_rec(st, s, ct, first).out) >= nl_count(st.out) + (if first {
            0nat
        } else {
            1nat
        }) + nl_count(s),
    decreases s.len(),
{
    assert(st.out == st.out + Seq::<char>::empty());
    let st0 = if first {
        st
    } else {
        newline_spec(st, ct)
    };
    if !first {
        lemma_newline_appends(st, ct);
    }
    lemma_first_nl(s);
    let k = first_nl(s);
    let st1 = part_spec(st0, s.take(k), ct);
    lemma_part_appends(st0, s.take(k), ct);
    lemma_written_after_trans(st.out, st0.out, st1.out);
    lemma_written_after_nl(st0.out, st1.out);
    lemma_nl_count_none(s.take(k));
    if k >= s.len() {
        assert(s.take(k) =~= s);
    } else {
        let rest = s.skip(k + 1);
        lemma_push_rec_nl(st1, rest, ct, false);
        lemma_written_after_trans(st.out, st1.out, push_rec(st1, rest, ct, false).out);
        assert(s =~= s.take(k) + seq!['\n'] + rest);
        lemma_nl_count_concat(s.take(k) + seq!['\n'], rest);
        lemma_nl_count_concat(s.take(k), seq!['\n']);
        lemma_nl_count_one();
    }
}

/// A token that ends with a line break leaves the renderer at the start of
/// a fresh line: no text on it, no heading, no blockquote, no held-back
/// `#`s, so that a flush right after writes nothing. The output only grows,
/// by at least as many line feeds as the token holds.
pub proof fn law_line_break_resets_line(st: RenderState, token: Seq<char>, ct: ContentType)
    requires
        token.len() > 0,
        token.last() == '\n',
    ensures
        push_spec(st, token, ct).line_len == 0,
        push_spec(st, token, ct).at_line_start,
        !push_spec(st, token, ct).blockquote,
        push_spec(st, token, ct).heading == 0,
        push_spec(st, token, ct).marker == Seq::<char>::empty(),
        flush_spec(push_spec(st, token, ct)) == push_spec(st, token, ct),
        written_after(st.out, push_spec(st, token, ct).out),
        nl_count(push_spec(st, token, ct).out) >= nl_count(st.out) + nl_count(token),
{
    lemma_push_rec_line_end(st, token, ct, true);
    lemma_push_rec_nl(st, token, ct, true);
}

/// Flushing releases held-back `#`s and ends an unfinished line; with
/// nothing held back and nothing on the line it writes nothing.
pub proof fn law_flush_ends_line(st: RenderState)
    ensures
        flush_spec(st).marker.len() == 0,
        st.line_len > 0 ==> flush_spec(st).out.last() == '\n',
        st.marker.len() == 0 && st.line_len == 0 ==> flush_spec(st) == st,
{
}

// ---------------------------------------------------------------------------
// Executable renderer
// ---------------------------------------------------------------------------

struct Segment {
    text: Vec<char>,
    flags: Flags,
}

impl Segment {
    spec fn view(&self) -> Seg {
        Seg { text: self.text@, flags: self.flags }
    }
}

spec fn seg_views(v: Seq<Segment>) -> Seq<Seg> {
    v.map_values(|s: Segment| s.view())
}

/// Renders streamed markdown into ANSI-coloured, wrapped text.
pub struct Renderer {
    mode: Mode,
    current_line_length: usize,
    width: usize,
    at_line_start: bool,
    heading_level: u8,
    bold: bool,
    italic: bool,
    code_span: bool,
    strikethrough: bool,
    blockquote: bool,
    marker_buf: Vec<char>,
    out: String,
}

impl View for Renderer {
    type V = RenderState;

    closed spec fn view(&self) -> RenderState {
        RenderState {
            code_block: self.mode == Mode::CodeBlock,
            line_len: self.current_line_length as int,
            width: self.width as int,
            at_line_start: self.at_line_start,
            heading: self.heading_level as int,
            flags: Flags {
                bold: self.bold,
                italic: self.italic,
                code_span: self.code_span,
                strikethrough: self.strikethrough,
            },
            blockquote: self.blockquote,
            marker: self.marker_buf@,
            out: self.out@,
        }
    }
}

/// The renderer invariant over its abstract state: held-back markers are
/// `#`s only, and the heading level is 0 to 3.
pub open spec fn state_wf(st: RenderState) -> bool {
    &&& forall|i: int| 0 <= i < st.marker.len() ==> #[trigger] st.marker[i] == '#'
    &&& 0 <= st.heading <= 3
    &&& 0 <= st.line_len
    &&& 0 <= st.width
}

impl Renderer {
    /// The renderer is well formed.
    pub closed spec fn wf(&self) -> bool {
        state_wf(self@) && self.heading_level <= 3
    }

    /// Display length of the current output line.
    pub closed spec fn line_length(&self) -> int {
        self.current_line_length as int
    }

    /// A renderer wrapping at `width` columns, with nothing written yet.
    pub fn new(width: usize) -> (r: Renderer)
        ensures
            r@ == initial_state(width as int),
            r.wf(),
            r.line_length() == 0,
    {
        let r = Renderer {
            mode: Mode::Normal,
            current_line_length: 0,
            width,
            at_line_start: true,
            heading_level: 0,
            bold: false,
            italic: false,
            code_span: false,
            strikethrough: false,
            blockquote: false,
            marker_buf: Vec::new(),
            out: String::new(),
        };
        assert(r@.marker =~= Seq::<char>::empty());
        r
    }

    /// Display length of the current output line.
    pub fn current_line_length(&self) -> (n: usize)
        ensures
            n == self.line_length(),
    {
        self.current_line_length
    }
}


impl Renderer {
    fn flags(&self) -> (f: Flags)
        ensures
            f == self@.flags,
    {
        Flags {
            bold: self.bold,
            italic: self.italic,
            code_span: self.code_span,
            strikethrough: self.strikethrough,
        }
    }

    /// Starts a fresh segment with the formatting in effect and gives back
    /// the one that was being filled.
    fn flush_segment(&self, current_segment: &mut Segment) -> (done: Segment)
        ensures
            done == *old(current_segment),
            final(current_segment).text@ == Seq::<char>::empty(),
            final(current_segment).flags == self@.flags,
    {
        let mut new_segment = Segment { text: Vec::new(), flags: self.flags() };
        core::mem::swap(current_segment, &mut new_segment);
        new_segment
    }

    /// Moves a non-empty pending segment to `segments` and starts a fresh one.
    fn close_segment(&self, segments: &mut Vec<Segment>, current_segment: &mut Segment)
        requires
            old(current_segment).flags == self@.flags,
        ensures
            seg_views(final(segments)@) == seg_views(old(segments)@) + emit(
                old(current_segment).text@,
                self@.flags,
            ),
            final(current_segment).text@ == Seq::<char>::empty(),
            final(current_segment).flags == self@.flags,
    {
        if current_segment.text.len() > 0 {
            let done = self.flush_segment(current_segment);
            segments.push(done);
            assert(seg_views(segments@) =~= seg_views(old(segments)@) + seq![done.view()]);
        } else {
            assert(old(current_segment).text@ =~= Seq::<char>::empty());
            assert(seg_views(segments@) =~= seg_views(old(segments)@) + Seq::<Seg>::empty());
        }
    }

    /// Splits `text` into formatted segments, toggling the formatting at
    /// each delimiter; the formatting carries over to the next call.
    #[verifier::rlimit(40)]
    fn render_inline(&mut self, text: &Vec<char>) -> (segments: Vec<Segment>)
        ensures
            seg_views(segments@) == inline_segments(old(self)@.flags, text@),
            final(self)@ == (RenderState {
                flags: inline_flags(old(self)@.flags, text@),
                ..old(self)@
            }),
            final(self).heading_level == old(self).heading_level,
    {
        let mut segments: Vec<Segment> = Vec::new();
        let mut current_segment = Segment { text: Vec::new(), flags: self.flags() };
        let ghost goal = inline_rec(self@.flags, text@, Seq::empty());
        let mut i: usize = 0;
        assert(text@.skip(0) =~= text@);
        assert(seg_views(segments@) =~= Seq::<Seg>::empty());
        assert(current_segment.text@ =~= Seq::<char>::empty());
        while i < text.len()
            invariant
                i <= text@.len(),
                current_segment.flags == self@.flags,
                self@ == (RenderState { flags: self@.flags, ..old(self)@ }),
                self.heading_level == old(self).heading_level,
                seg_views(segments@) + inline_rec(
                    self@.flags,
                    text@.skip(i as int),
                    current_segment.text@,
                ).0 == goal.0,
                inline_rec(self@.flags, text@.skip(i as int), current_segment.text@).1 == goal.1,
            decreases text@.len() - i,
        {
            let ghost s = text@.skip(i as int);
            let ghost f = self@.flags;
            let ghost cur = current_segment.text@;
            let ghost before = inline_rec(f, s, cur);
            let ghost old_views = seg_views(segments@);
            assert(s[0] == text@[i as int]);
            assert(s.len() >= 2 ==> s[1] == text@[i + 1]);
            assert(s.len() >= 3 ==> s[2] == text@[i + 2]);
            if self.code_span {
                // Inside a code span only a backtick is special
                if text[i] == '`' {
                    self.close_segment(&mut segments, &mut current_segment);
                    self.code_span = false;
                    current_segment.flags.code_span = self.code_span;
                    i += 1;
                    assert(s.skip(1) =~= text@.skip(i as int));
                } else {
                    current_segment.text.push(text[i]);
                    i += 1;
                    assert(s.drop_first() =~= text@.skip(i as int));
                }
            } else if text.len() - i >= 3 && text[i] == '*' && text[i + 1] == '*' && text[i + 2]
                == '*' {
                self.close_segment(&mut segments, &mut current_segment);
                self.bold = !self.bold;
                self.italic = !self.italic;
                current_segment.flags.bold = self.bold;
                current_segment.flags.italic = self.italic;
                i += 3;
                assert(s.skip(3) =~= text@.skip(i as int));
            } else if text.len() - i >= 2 && ((text[i] == '*' && text[i + 1] == '*') || (text[i]
                == '_' && text[i + 1] == '_')) {
                self.close_segment(&mut segments, &mut current_segment);
                self.bold = !self.bold;
                current_segment.flags.bold = self.bold;
                i += 2;
                assert(s.skip(2) =~= text@.skip(i as int));
            } else if text[i] == '*' || text[i] == '_' {
                self.close_segment(&mut segments, &mut current_segment);
                self.italic = !self.italic;
                current_segment.flags.italic = self.italic;
                i += 1;
                assert(s.skip(1) =~= text@.skip(i as int));
            } else if text[i] == '`' {
                self.close_segment(&mut segments, &mut current_segment);
                self.code_span = !self.code_span;
                current_segment.flags.code_span = self.code_span;
                i += 1;
                assert(s.skip(1) =~= text@.skip(i as int));
            } else if text.len() - i >= 2 && text[i] == '~' && text[i + 1] == '~' {
                self.close_segment(&mut segments, &mut current_segment);
                self.strikethrough = !self.strikethrough;
                current_segment.flags.strikethrough = self.strikethrough;
                i += 2;
                assert(s.skip(2) =~= text@.skip(i as int));
            } else {
                // Regular character
                current_segment.text.push(text[i]);
                i += 1;
                assert(s.drop_first() =~= text@.skip(i as int));
            }
            assert(old_views + before.0 == goal.0);
        }
        assert(text@.skip(i as int) =~= Seq::<char>::empty());
        let ghost cur = current_segment.text@;
        let ghost old_views = seg_views(segments@);
        if current_segment.text.len() > 0 {
            segments.push(current_segment);
            assert(seg_views(segments@) =~= old_views + emit(cur, self@.flags));
        } else {
            assert(seg_views(segments@) =~= old_views + emit(cur, self@.flags));
        }
        segments
    }
}

impl Renderer {
    /// Display length of `s`: characters outside ANSI escape sequences.
    fn display_len(&self, s: &Vec<char>) -> (n: usize)
        ensures
            n == display_len(s@),
    {
        let mut len: usize = 0;
        let mut in_ansi = false;
        let mut i: usize = 0;
        assert(s@.skip(0) =~= s@);
        while i < s.len()
            invariant
                i <= s@.len(),
                len <= i,
                display_len(s@) == len + dl_rec(s@.skip(i as int), in_ansi),
            decreases s@.len() - i,
        {
            let ch = s[i];
            assert(s@.skip(i as int).drop_first() =~= s@.skip(i + 1));
            assert(s@.skip(i as int)[0] == ch);
            if ch == '\x1b' {
                in_ansi = true;
            } else if in_ansi {
                if ch == 'm' {
                    in_ansi = false;
                }
            } else {
                len += 1;
            }
            i += 1;
        }
        len
    }

    /// Total display length of segments.
    fn total_display_len(&self, segments: &Vec<Segment>) -> (n: usize)
        requires
            sum_dl(seg_views(segments@)) <= usize::MAX,
        ensures
            n == sum_dl(seg_views(segments@)),
    {
        let mut total: usize = 0;
        let mut j: usize = 0;
        while j < segments.len()
            invariant
                j <= segments@.len(),
                sum_dl(seg_views(segments@)) <= usize::MAX,
                total == sum_dl(seg_views(segments@).take(j as int)),
            decreases segments@.len() - j,
        {
            let n = self.display_len(&segments[j].text);
            proof {
                let v = seg_views(segments@);
                assert(v.take(j + 1).drop_last() =~= v.take(j as int));
                lemma_sum_dl_prefix(v, j + 1);
            }
            total = total + n;
            j += 1;
        }
        assert(seg_views(segments@).take(j as int) =~= seg_views(segments@));
        total
    }

    /// Whether `s` is, after leading whitespace, non-empty punctuation that
    /// trails a word.
    fn is_trailing_punctuation(&self, s: &Vec<char>) -> (r: bool)
        ensures
            r == is_trailing_punct(s@),
    {
        let trimmed = trim_start_chars(s);
        if trimmed.len() == 0 {
            return false;
        }
        let mut i: usize = 0;
        while i < trimmed.len()
            invariant
                i <= trimmed@.len(),
                trimmed@ == trim_start(s@),
                forall|k: int| 0 <= k < i ==> is_punct(#[trigger] trimmed@[k]),
            decreases trimmed@.len() - i,
        {
            let c = trimmed[i];
            if !(c == '.' || c == ',' || c == ';' || c == ':' || c == '!' || c == '?' || c == ')'
                || c == ']' || c == '}' || c == '"' || c == '\'' || c == '>' || c == '-') {
                return false;
            }
            i += 1;
        }
        true
    }

    /// Escape code that opens `segment` in the current state.
    fn start_code(&self, segment: &Segment, content_type: ContentType) -> (code: String)
        ensures
            code@ == start_code(self@, segment.view(), content_type),
    {
        let mut code = String::new();
        if self.mode == Mode::CodeBlock {
            push_str(&mut code, "\x1b[33m");  // yellow
        } else if self.heading_level == 1 {
            push_str(&mut code, "\x1b[1;33m");  // bold yellow
        } else if self.heading_level == 2 {
            push_str(&mut code, "\x1b[1;36m");  // bold cyan
        } else if self.heading_level == 3 {
            push_str(&mut code, "\x1b[1;35m");  // bold magenta
        } else if content_type == ContentType::Thinking {
            push_str(&mut code, "\x1b[90;3m");  // dark gray italic
        } else if self.blockquote {
            push_str(&mut code, "\x1b[90m");  // dark gray
        } else if segment.flags.code_span {
            push_str(&mut code, "\x1b[33m");  // yellow for code spans
        } else {
            // Compose from inline flags
            let mut parts = String::new();
            let mut any = false;
            if segment.flags.bold {
                parts.push('1');
                any = true;
            }
            if segment.flags.italic {
                if any {
                    parts.push(';');
                }
                parts.push('3');
                any = true;
            }
            if segment.flags.strikethrough {
                if any {
                    parts.push(';');
                }
                parts.push('9');
            }
            assert(parts@ =~= style_params(segment.flags));
            if parts.as_str().is_empty() {
                assert(code@ =~= Seq::<char>::empty());
            } else {
                push_str(&mut code, "\x1b[");
                let pv = chars_of(parts.as_str());
                push_chars(&mut code, &pv);
                push_str(&mut code, "m");
            }
        }
        code
    }

    /// Writes one segment: opening code, text, and a reset when a code was
    /// opened.
    fn print_segment(&mut self, segment: &Segment, content_type: ContentType)
        ensures
            final(self)@ == print_all(old(self)@, seq![segment.view()], content_type),
            final(self).heading_level == old(self).heading_level,
    {
        let start_code = self.start_code(segment, content_type);
        let start_empty = start_code.as_str().is_empty();
        push_str(&mut self.out, start_code.as_str());
        push_chars(&mut self.out, &segment.text);
        if !start_empty {
            push_str(&mut self.out, "\x1b[0m");
        }
        proof {
            let st = old(self)@;
            assert(seq![segment.view()].drop_last() =~= Seq::<Seg>::empty());
            assert(segs_out(st, seq![segment.view()], content_type) =~= seg_out(st, segment.view(), content_type)) by {
                reveal_with_fuel(segs_out, 2);
            }
            assert(self@.out =~= st.out + seg_out(st, segment.view(), content_type));
        }
    }

    /// Writes segments in order.
    fn print_segments(&mut self, segments: &Vec<Segment>, content_type: ContentType)
        ensures
            final(self)@ == print_all(old(self)@, seg_views(segments@), content_type),
            final(self).heading_level == old(self).heading_level,
    {
        let ghost st = self@;
        let mut j: usize = 0;
        assert(seg_views(segments@).take(0) =~= Seq::<Seg>::empty());
        assert(self@ =~= print_all(st, Seq::<Seg>::empty(), content_type));
        while j < segments.len()
            invariant
                j <= segments@.len(),
                self@ == print_all(st, seg_views(segments@).take(j as int), content_type),
                self.heading_level == old(self).heading_level,
            decreases segments@.len() - j,
        {
            let ghost before = self@;
            self.print_segment(&segments[j], content_type);
            proof {
                let v = seg_views(segments@);
                reveal_with_fuel(segs_out, 2);
                assert(v.take(j + 1).drop_last() =~= v.take(j as int));
                assert(v.take(j + 1).last() == segments@[j as int].view());
                assert(seq![segments@[j as int].view()].drop_last() =~= Seq::<Seg>::empty());
                assert(self@.out =~= st.out + segs_out(st, v.take(j + 1), content_type));
            }
            j += 1;
        }
        assert(seg_views(segments@).take(j as int) =~= seg_views(segments@));
    }
}

impl Renderer {
    /// Handles a line break (see `newline_spec`).
    fn newline(&mut self, content_type: ContentType)
        requires
            old(self).wf(),
        ensures
            final(self)@ == newline_spec(old(self)@, content_type),
            final(self).wf(),
    {
        let ghost st = self@;
        if self.marker_buf.len() > 0 {
            // Flush marker_buf through render_inline so formatting is processed
            let marker_content = slice_of(&self.marker_buf, 0, self.marker_buf.len());
            assert(marker_content@ =~= st.marker);
            let segments = self.render_inline(&marker_content);
            self.print_segments(&segments, content_type);
            self.marker_buf = Vec::new();
        }
        let ghost st1 = self@;
        assert(st1 == (if st.marker.len() > 0 {
            RenderState {
                marker: Seq::empty(),
                ..print_all(
                    RenderState { flags: inline_flags(st.flags, st.marker), ..st },
                    inline_segments(st.flags, st.marker),
                    content_type,
                )
            }
        } else {
            st
        }));
        self.out.push('\n');
        if self.heading_level > 0 {
            self.out.push('\n');
            self.heading_level = 0;
        }
        self.current_line_length = 0;
        self.at_line_start = true;
        self.blockquote = false;
    }

    /// Heading detection at the start of a line (see `heading_spec`).
    fn heading(&mut self, part: &Vec<char>) -> (r: Option<Vec<char>>)
        requires
            old(self).wf(),
        ensures
            final(self)@ == heading_spec(old(self)@, part@).0,
            final(self).wf(),
            match r {
                None => heading_spec(old(self)@, part@).1 is None,
                Some(v) => heading_spec(old(self)@, part@).1 == Some(v@),
            },
    {
        let ghost st = self@;
        if !(part.len() > 0 && part[0] == '#') && self.marker_buf.len() == 0 {
            return Some(slice_of(part, 0, part.len()));
        }
        let mut combined = slice_of(&self.marker_buf, 0, self.marker_buf.len());
        let mut i: usize = 0;
        while i < part.len()
            invariant
                i <= part@.len(),
                combined@ == st.marker + part@.take(i as int),
            decreases part@.len() - i,
        {
            combined.push(part[i]);
            i += 1;
            assert(combined@ =~= st.marker + part@.take(i as int));
        }
        assert(part@.take(part@.len() as int) =~= part@);
        assert(combined@ =~= st.marker + part@);
        if combined.len() > 0 && combined[0] == '#' {
            let mut hc: usize = 0;
            while hc < combined.len() && combined[hc] == '#'
                invariant
                    hc <= combined@.len(),
                    forall|j: int| 0 <= j < hc ==> #[trigger] combined@[j] == '#',
                decreases combined@.len() - hc,
            {
                hc += 1;
            }
            proof {
                lemma_hash_count(combined@, hc as int);
            }
            if hc <= 3 && hc < combined.len() {
                if combined[hc] == ' ' {
                    // Valid heading
                    self.heading_level = hc as u8;
                    // Skip past the hashes and space that were consumed
                    let chars_to_skip = if hc + 1 >= self.marker_buf.len() {
                        hc + 1 - self.marker_buf.len()
                    } else {
                        0
                    };
                    let processed = slice_of(part, chars_to_skip, part.len());
                    self.at_line_start = false;
                    self.marker_buf = Vec::new();
                    assert(self@.marker =~= Seq::<char>::empty());
                    assert(processed@ =~= part@.skip(chars_to_skip as int));
                    Some(processed)
                } else {
                    Some(slice_of(part, 0, part.len()))
                }
            } else if hc == combined.len() {
                // Only # chars: hold them back
                self.marker_buf = combined;
                None
            } else {
                Some(slice_of(part, 0, part.len()))
            }
        } else {
            // Not a heading: drop held-back #s
            self.marker_buf = Vec::new();
            assert(self@.marker =~= Seq::<char>::empty());
            Some(slice_of(part, 0, part.len()))
        }
    }

    /// Whether every character may appear in a code-fence language tag.
    fn all_lang_chars(s: &Vec<char>) -> (r: bool)
        ensures
            r == all_lang(s@),
    {
        let mut i: usize = 0;
        while i < s.len()
            invariant
                i <= s@.len(),
                forall|k: int| 0 <= k < i ==> is_lang_char(#[trigger] s@[k]),
            decreases s@.len() - i,
        {
            let c = s[i];
            if !(c.is_alphanumeric() || c == '_' || c == '-') {
                return false;
            }
            i += 1;
        }
        true
    }

    /// Whether `part` opens or closes a code fence.
    fn is_fence(part: &Vec<char>) -> (r: bool)
        ensures
            r == is_fence(part@),
    {
        let t = trim_start_chars(part);
        if t.len() >= 3 && t[0] == '`' && t[1] == '`' && t[2] == '`' {
            let rest = slice_of(&t, 3, t.len());
            assert(rest@ =~= t@.skip(3));
            let after_fence = trim_chars(&rest);
            after_fence.len() == 0 || Self::all_lang_chars(&after_fence)
        } else {
            false
        }
    }

    /// Line-start syntax (see `line_start_spec`).
    fn line_start(&mut self, part: &Vec<char>, content_type: ContentType) -> (r: Option<Vec<char>>)
        requires
            old(self).wf(),
            old(self).line_length() + part@.len() <= usize::MAX,
        ensures
            final(self)@ == line_start_spec(old(self)@, part@, content_type).0,
            final(self).wf(),
            match r {
                None => line_start_spec(old(self)@, part@, content_type).1 is None,
                Some(v) => {
                    &&& line_start_spec(old(self)@, part@, content_type).1 == Some(v@)
                    &&& final(self).line_length() + v@.len() <= old(self).line_length() + part@.len()
                },
            },
    {
        if !self.at_line_start {
            return Some(slice_of(part, 0, part.len()));
        }
        // Check for code block fence
        if Self::is_fence(part) {
            self.mode = match self.mode {
                Mode::CodeBlock => Mode::Normal,
                Mode::Normal => Mode::CodeBlock,
            };
            self.at_line_start = false;
            return None;
        }
        // Check for heading (with marker_buf support for split delimiters)
        let h = self.heading(part);
        let mut processed_part = match h {
            None => {
                return None;
            },
            Some(p) => p,
        };
        let ghost p1 = processed_part@;
        assert(p1.len() <= part@.len());
        // Check for blockquote
        if processed_part.len() >= 2 && processed_part[0] == '>' && processed_part[1] == ' ' {
            self.blockquote = true;
            processed_part = slice_of(&processed_part, 2, processed_part.len());
            self.at_line_start = false;
            assert(processed_part@ =~= p1.skip(2));
        }
        // Check for list items
        if processed_part.len() >= 2 && (processed_part[0] == '-' || processed_part[0] == '*')
            && processed_part[1] == ' ' && self.heading_level == 0 && !self.blockquote {
            assert(p1 == part@);
            let mut bullet_text = Vec::new();
            bullet_text.push('•');
            bullet_text.push(' ');
            let bullet = Segment { text: bullet_text, flags: Flags {
                bold: false,
                italic: false,
                code_span: false,
                strikethrough: false,
            } };
            assert(bullet.text@ =~= seq!['•', ' ']);
            assert(bullet.view() == bullet_seg());
            self.print_segment(&bullet, content_type);
            let ghost p2 = processed_part@;
            processed_part = slice_of(&processed_part, 2, processed_part.len());
            assert(processed_part@ =~= p2.skip(2));
            self.current_line_length += 2;  // "• " is 2 chars
            self.at_line_start = false;
        }
        Some(processed_part)
    }
}

impl Renderer {
    /// Ends the line and puts what follows the leading whitespace of
    /// `processed_part` on the next one (see `wrap_space_spec`).
    fn wrap_space(&mut self, processed_part: &Vec<char>, content_type: ContentType)
        requires
            old(self).wf(),
        ensures
            final(self)@ == wrap_space_spec(old(self)@, processed_part@, content_type),
            final(self).wf(),
            final(self).line_length() <= processed_part@.len(),
    {
        self.out.push('\n');
        self.current_line_length = 0;
        self.at_line_start = false;
        // Content after the space goes on the new line
        let remainder = trim_start_chars(processed_part);
        proof {
            crate::text::lemma_lead_ws_bound(processed_part@);
        }
        if remainder.len() > 0 {
            let ghost f2 = self@.flags;
            let remainder_segments = self.render_inline(&remainder);
            proof {
                lemma_inline_len(f2, remainder@);
            }
            let remainder_len = self.total_display_len(&remainder_segments);
            self.print_segments(&remainder_segments, content_type);
            self.current_line_length = remainder_len;
        }
    }

    /// Prints line content, wrapping first when it does not fit (see
    /// `place_spec`).
    #[verifier::rlimit(60)]
    fn place(&mut self, processed_part: &Vec<char>, content_type: ContentType)
        requires
            old(self).wf(),
            processed_part@.len() > 0,
            old(self).line_length() + processed_part@.len() <= usize::MAX,
        ensures
            final(self)@ == place_spec(old(self)@, processed_part@, content_type),
            final(self).wf(),
            final(self).line_length() <= old(self).line_length() + processed_part@.len(),
    {
        let ghost st = self@;
        let segments = self.render_inline(processed_part);
        proof {
            lemma_inline_len(st.flags, processed_part@);
        }
        // Calculate total display length
        let total_len = self.total_display_len(&segments);
        if self.current_line_length == 0 {
            // Start of line
            self.print_segments(&segments, content_type);
            self.current_line_length = total_len;
        } else if self.current_line_length + total_len <= self.width {
            // Fits on current line
            self.print_segments(&segments, content_type);
            self.current_line_length += total_len;
        } else if processed_part[0] == ' ' {
            // Token is whitespace: wrap then skip the space
            self.wrap_space(processed_part, content_type);
        } else if self.is_trailing_punctuation(processed_part) {
            // Trailing punctuation stays on its line
            self.print_segments(&segments, content_type);
            self.current_line_length += total_len;
        } else {
            // Token doesn't fit: wrap line first
            self.out.push('\n');
            self.print_segments(&segments, content_type);
            self.current_line_length = total_len;
            self.at_line_start = false;
        }
    }

    /// Handles one newline-free part of a token (see `part_spec`).
    fn push_part(&mut self, part: &Vec<char>, content_type: ContentType)
        requires
            old(self).wf(),
            old(self).line_length() + part@.len() <= usize::MAX,
        ensures
            final(self)@ == part_spec(old(self)@, part@, content_type),
            final(self).wf(),
            final(self).line_length() <= old(self).line_length() + part@.len(),
    {
        if part.len() == 0 {
            return;
        }
        // Skip language tags that come as separate tokens (e.g., ``` then python)
        if self.mode == Mode::CodeBlock && !self.at_line_start {
            let trimmed = trim_chars(part);
            if trimmed.len() > 0 && Self::all_lang_chars(&trimmed) {
                return;
            }
        }
        match self.line_start(part, content_type) {
            None => {},
            Some(processed_part) => {
                if processed_part.len() > 0 {
                    self.place(&processed_part, content_type);
                }
            },
        }
    }

    /// Renders a streamed token. Line breaks in the token end lines;
    /// everything else is rendered as described by `push_spec`.
    pub fn push(&mut self, token: &str, content_type: ContentType)
        requires
            old(self).wf(),
            old(self).line_length() + token@.len() <= usize::MAX,
        ensures
            final(self)@ == push_spec(old(self)@, token@, content_type),
            final(self).wf(),
            final(self).line_length() <= old(self).line_length() + token@.len(),
    {
        let chars = chars_of(token);
        let ghost goal = push_spec(self@, token@, content_type);
        let ghost len0 = self.line_length();
        let mut start: usize = 0;
        let mut first = true;
        let mut done = false;
        assert(chars@.skip(0) =~= chars@);
        while !done
            invariant
                start <= chars@.len(),
                chars@ == token@,
                self.wf(),
                !done ==> goal == push_rec(self@, chars@.skip(start as int), content_type, first),
                done ==> goal == self@,
                first ==> start == 0,
                !done ==> self.line_length() + (chars@.len() - start) <= len0 + token@.len(),
                done ==> self.line_length() <= len0 + token@.len(),
                len0 + token@.len() <= usize::MAX,
            decreases (chars@.len() - start) * 2 + (if done {
                0int
            } else {
                1int
            }),
        {
            let ghost s = chars@.skip(start as int);
            let ghost st = self@;
            let mut k = start;
            while k < chars.len() && chars[k] != '\n'
                invariant
                    start <= k <= chars@.len(),
                    forall|j: int| start <= j < k ==> #[trigger] chars@[j] != '\n',
                decreases chars@.len() - k,
            {
                k += 1;
            }
            proof {
                assert forall|j: int| 0 <= j < k - start implies #[trigger] s[j] != '\n' by {
                    assert(s[j] == chars@[start + j]);
                }
                if k < chars@.len() {
                    assert(s[k - start] == chars@[k as int]);
                }
                lemma_first_nl_unique(s, k - start);
            }
            if !first {
                // Line break before this part
                self.newline(content_type);
            }
            let part = slice_of(&chars, start, k);
            assert(part@ =~= s.take(k - start));
            self.push_part(&part, content_type);
            if k >= chars.len() {
                done = true;
            } else {
                assert(s.skip(k - start + 1) =~= chars@.skip(k + 1));
                start = k + 1;
                first = false;
            }
        }
    }

    /// Ends the output: held-back `#`s are printed plainly and an unfinished
    /// line gets its line break (see `flush_spec`).
    pub fn flush(&mut self)
        requires
            old(self).wf(),
        ensures
            final(self)@ == flush_spec(old(self)@),
            final(self).wf(),
            final(self).line_length() == old(self).line_length(),
    {
        // Flush any remaining marker_buf
        if self.marker_buf.len() > 0 {
            let segment = Segment {
                text: slice_of(&self.marker_buf, 0, self.marker_buf.len()),
                flags: Flags { bold: false, italic: false, code_span: false, strikethrough: false },
            };
            assert(segment.text@ =~= self@.marker);
            self.print_segment(&segment, ContentType::Normal);
            self.marker_buf = Vec::new();
            assert(self@.marker =~= Seq::<char>::empty());
        }
        if self.current_line_length > 0 {
            self.out.push('\n');
        }
    }

    /// Hands over what has been written so far and empties the output.
    pub fn take_output(&mut self) -> (written: String)
        requires
            old(self).wf(),
        ensures
            written@ == old(self)@.out,
            final(self)@ == (RenderState { out: Seq::empty(), ..old(self)@ }),
            final(self).wf(),
            final(self).line_length() == old(self).line_length(),
    {
        let mut written = String::new();
        core::mem::swap(&mut written, &mut self.out);
        written
    }
}

} // verus!
