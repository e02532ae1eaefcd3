//! Decisions of the interactive prompt: where the word to complete starts,
//! which paths complete it, which directories a search for paths enters,
//! and how the prompt shows that thinking is on.
use vstd::prelude::*;
use crate::text::{
    byte_len, chars_of, contains, contains_str, is_whitespace, is_ws, lemma_byte_len_encode,
    lemma_byte_len_push, lemma_byte_len_take_mono, push_str, starts_with, starts_with_str,
    utf8_width_exec,
};

verus! {

/// Position of the last whitespace character.
pub open spec fn last_ws(s: Seq<char>) -> Option<int>
    decreases s.len(),
{
    if s.len() == 0 {
        None
    } else if is_ws(s.last()) {
        Some(s.len() - 1)
    } else {
        last_ws(s.drop_last())
    }
}

/// Byte position where the last word of a line starts: one byte after the
/// start of its last whitespace character, or 0 when it has none.
pub open spec fn word_start(s: Seq<char>) -> int {
    match last_ws(s) {
        Some(k) => (byte_len(s.take(k)) + 1) as int,
        None => 0,
    }
}

proof fn lemma_last_ws(s: Seq<char>, k: int)
    requires
        0 <= k <= s.len(),
        forall|j: int| k <= j < s.len() ==> !is_ws(#[trigger] s[j]),
        k > 0 ==> is_ws(s[k - 1]),
    ensures
        last_ws(s) == if k > 0 {
            Some(k - 1)
        } else {
            None::<int>
        },
    decreases s.len() - k,
{
    if k < s.len() {
        assert(!is_ws(s.last()));
        assert forall|j: int| k <= j < s.drop_last().len() implies !is_ws(#[trigger] s.drop_last()[j]) by {
            assert(s.drop_last()[j] == s[j]);
        }
        if k > 0 {
            assert(s.drop_last()[k - 1] == s[k - 1]);
        }
        lemma_last_ws(s.drop_last(), k);
    }
}

/// Where the word to complete starts in `line`, as a byte position (see
/// `word_start`).
pub fn last_word_start(line: &str) -> (r: usize)
    ensures
        r == word_start(line@),
{
    let v = chars_of(line);
    let n = line.as_bytes().len();
    proof {
        lemma_byte_len_encode(line@);
    }
    let mut k = v.len();
    while k > 0 && !is_whitespace(v[k - 1])
        invariant
            k <= v@.len(),
            forall|j: int| k <= j < v@.len() ==> !is_ws(#[trigger] v@[j]),
        decreases k,
    {
        k -= 1;
    }
    proof {
        lemma_last_ws(v@, k as int);
    }
    if k == 0 {
        return 0;
    }
    let ghost s = v@;
    let mut i: usize = 0;
    let mut b: usize = 0;
    proof {
        lemma_byte_len_take_mono(s, k - 1, k as int);
        if (k as int) < s.len() {
            lemma_byte_len_take_mono(s, k as int, s.len() as int);
        }
        assert(s.take(s.len() as int) =~= s);
        assert(s.take(0) =~= Seq::<char>::empty());
    }
    while i < k - 1
        invariant
            i <= k - 1,
            k <= s.len(),
            v@ == s,
            b == byte_len(s.take(i as int)),
            byte_len(s.take(k - 1)) + 1 <= n,
        decreases k - 1 - i,
    {
        proof {
            assert(s.take(i + 1) =~= s.take(i as int).push(s[i as int]));
            lemma_byte_len_push(s.take(i as int), s[i as int]);
            if i + 1 < k - 1 {
                lemma_byte_len_take_mono(s, i + 1, k - 1);
            }
        }
        b = b + utf8_width_exec(v[i]);
        i += 1;
    }
    b + 1
}

/// A path completes `prefix` when its file name starts with it or its full
/// path contains it.
pub open spec fn completes(name: Seq<char>, full_path: Seq<char>, prefix: Seq<char>) -> bool {
    starts_with(name, prefix) || contains(full_path, prefix)
}

/// Whether the entry `name`, at `full_path`, completes `prefix`.
pub fn is_completion(name: &str, full_path: &str, prefix: &str) -> (r: bool)
    ensures
        r == completes(name@, full_path@, prefix@),
{
    let n = chars_of(name);
    let f = chars_of(full_path);
    starts_with_str(&n, prefix) || contains_str(&f, prefix)
}

/// The path of entry `name` of directory `dir`: `./name` in the current
/// directory, else `dir/name`.
pub open spec fn child_path_of(dir: Seq<char>, name: Seq<char>) -> Seq<char> {
    if dir == "."@ {
        "./"@ + name
    } else {
        dir + "/"@ + name
    }
}

/// See `child_path_of`.
pub fn child_path(dir: &str, name: &str) -> (r: String)
    ensures
        r@ == child_path_of(dir@, name@),
{
    let mut r = String::new();
    if crate::text::str_eq(dir, ".") {
        push_str(&mut r, "./");
    } else {
        push_str(&mut r, dir);
        push_str(&mut r, "/");
    }
    push_str(&mut r, name);
    r
}

/// Directories that a search for paths skips when its path contains one of
/// these names.
pub open spec fn skipped_dirs() -> Seq<Seq<char>> {
    seq![
        "target"@,
        ".git"@,
        "node_modules"@,
        ".venv"@,
        "venv"@,
        ".next"@,
        "dist"@,
        "build"@,
        ".idea"@,
    ]
}

/// A search for paths enters the directory: its path contains none of the
/// skipped names.
pub open spec fn enters(path: Seq<char>) -> bool {
    forall|i: int| 0 <= i < skipped_dirs().len() ==> !contains(path, #[trigger] skipped_dirs()[i])
}

/// Whether a search for paths enters the directory at `path` (see `enters`).
pub fn should_recurse(path: &str) -> (r: bool)
    ensures
        r == enters(path@),
{
    let p = chars_of(path);
    let dirs = vec!["target", ".git", "node_modules", ".venv", "venv", ".next", "dist", "build", ".idea"];
    assert(dirs@.map_values(|d: &str| d@) =~= skipped_dirs());
    let mut i: usize = 0;
    while i < dirs.len()
        invariant
            i <= dirs@.len(),
            dirs@.map_values(|d: &str| d@) == skipped_dirs(),
            p@ == path@,
            forall|j: int| 0 <= j < i ==> !contains(path@, #[trigger] skipped_dirs()[j]),
        decreases dirs@.len() - i,
    {
        assert(dirs@[i as int]@ == skipped_dirs()[i as int]);
        if contains_str(&p, dirs[i]) {
            return false;
        }
        i += 1;
    }
    true
}

/// What a line typed at the prompt asks for: the line without surrounding
/// whitespace, or nothing when it is blank.
pub open spec fn input_of(line: Seq<char>) -> Option<Seq<char>> {
    if crate::text::trim(line).len() == 0 {
        None
    } else {
        Some(crate::text::trim(line))
    }
}

/// See `input_of`.
pub fn prompt_input(line: &str) -> (r: Option<String>)
    ensures
        match r {
            Some(t) => input_of(line@) == Some(t@),
            None => input_of(line@) is None,
        },
{
    let v = chars_of(line);
    let t = crate::text::trim_chars(&v);
    if t.len() == 0 {
        None
    } else {
        Some(crate::text::string_of(&t))
    }
}

/// The prompt as shown: in magenta while thinking is on.
pub open spec fn prompt_shown(prompt: Seq<char>, thinking: bool) -> Seq<char> {
    if thinking {
        "\x1b[35m"@ + prompt + "\x1b[0m"@
    } else {
        prompt
    }
}

/// See `prompt_shown`.
pub fn highlight_prompt(prompt: &str, thinking: bool) -> (r: String)
    ensures
        r@ == prompt_shown(prompt@, thinking),
{
    let mut r = String::new();
    if thinking {
        push_str(&mut r, "\x1b[35m");
        push_str(&mut r, prompt);
        push_str(&mut r, "\x1b[0m");
    } else {
        push_str(&mut r, prompt);
    }
    r
}

} // verus!
