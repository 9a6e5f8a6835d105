//! Splitting a command's source into words.
use vstd::prelude::*;

use crate::text::string_of;
use crate::words::{brace_close, join_lines, join_lines_range, scan_brace};

verus! {

/// How a word is grouped, which decides the substitutions made on it.
#[derive(PartialEq, Eq, Structural, Clone, Copy, Debug)]
pub enum WordKind {
    Brace,
    Quoted,
    Bare,
}

/// One word of a command: its grouping and its text, without the braces or
/// quotes that group it.
pub struct Word {
    pub kind: WordKind,
    pub text: String,
}

impl View for Word {
    type V = (WordKind, Seq<char>);

    open spec fn view(&self) -> (WordKind, Seq<char>) {
        (self.kind, self.text@)
    }
}

/// The views of a run of words.
pub open spec fn words_view(v: Seq<Word>) -> Seq<(WordKind, Seq<char>)> {
    v.map_values(|x: Word| x@)
}

/// Whitespace between words.
pub open spec fn is_space(c: char) -> bool {
    c == ' ' || c == '\t' || c == '\r'
}

/// A character that ends a command.
pub open spec fn is_terminator(c: char) -> bool {
    c == '\n' || c == ';'
}

/// The first index from `i` on that is not whitespace, or the length of `w`.
pub open spec fn skip_space(w: Seq<char>, i: int) -> int
    decreases w.len() - i,
{
    if i >= w.len() {
        w.len() as int
    } else if is_space(w[i]) {
        skip_space(w, i + 1)
    } else {
        i
    }
}

/// The index of the `"` that closes a quoted word whose text starts at `i`,
/// or the length of `w`; a backslash hides the character after it.
pub open spec fn quote_end(w: Seq<char>, i: int) -> int
    decreases w.len() - i,
{
    if i >= w.len() {
        w.len() as int
    } else if w[i] == '\\' {
        if i + 1 >= w.len() {
            w.len() as int
        } else {
            quote_end(w, i + 2)
        }
    } else if w[i] == '"' {
        i
    } else {
        quote_end(w, i + 1)
    }
}

/// The end of a bare word at `i`, `depth` brackets deep: the first
/// whitespace or terminator outside brackets, or the length of `w`. A
/// backslash hides the character after it.
pub open spec fn bare_end(w: Seq<char>, i: int, depth: int) -> int
    decreases w.len() - i,
{
    if i >= w.len() {
        w.len() as int
    } else if w[i] == '\\' {
        if i + 1 >= w.len() {
            w.len() as int
        } else {
            bare_end(w, i + 2, depth)
        }
    } else if depth == 0 && (is_space(w[i]) || is_terminator(w[i])) {
        i
    } else if w[i] == '[' {
        bare_end(w, i + 1, depth + 1)
    } else if w[i] == ']' && depth > 0 {
        bare_end(w, i + 1, depth - 1)
    } else {
        bare_end(w, i + 1, depth)
    }
}

/// The message for a quoted word that is never closed.
pub open spec fn unmatched_quote_message() -> Seq<char> {
    "unmatched open quote"@
}

/// The word that starts at `i`, and where the text after it starts.
pub open spec fn word_at(w: Seq<char>, i: int) -> Result<((WordKind, Seq<char>), int), Seq<char>> {
    if w[i] == '{' {
        let e = brace_close(w, i + 1, 1);
        if e >= w.len() {
            Err("unmatched open brace"@)
        } else if !ends_word(w, e + 1) {
            Err("extra characters after close-brace"@)
        } else {
            Ok(((WordKind::Brace, join_lines(w.subrange(i + 1, e))), e + 1))
        }
    } else if w[i] == '"' {
        let e = quote_end(w, i + 1);
        if e < w.len() && !ends_word(w, e + 1) {
            Err("extra characters after close-quote"@)
        } else if e < w.len() {
            Ok(((WordKind::Quoted, w.subrange(i + 1, e)), e + 1))
        } else {
            Err(unmatched_quote_message())
        }
    } else {
        let e = bare_end(w, i, 0);
        Ok(((WordKind::Bare, w.subrange(i, e)), e))
    }
}

/// A grouped word may end at `k`: the text ends there, or whitespace or a
/// terminator follows.
pub open spec fn ends_word(w: Seq<char>, k: int) -> bool {
    k >= w.len() || is_space(w[k]) || is_terminator(w[k])
}

/// The words of the command that starts at `i`, and where the next command
/// starts; or the first error among them.
pub open spec fn command_at(w: Seq<char>, i: int) -> Result<
    (Seq<(WordKind, Seq<char>)>, int),
    Seq<char>,
>
    decreases w.len() - i,
{
    let j = skip_space(w, i);
    if i < 0 || j >= w.len() {
        Ok((Seq::empty(), w.len() as int))
    } else if is_terminator(w[j]) {
        Ok((Seq::empty(), j + 1))
    } else {
        match word_at(w, j) {
            Err(m) => Err(m),
            Ok((x, n)) => if n <= i || n > w.len() {
                Ok((Seq::empty(), w.len() as int))
            } else {
                match command_at(w, n) {
                    Ok((rest, end)) => Ok((seq![x] + rest, end)),
                    Err(m) => Err(m),
                }
            },
        }
    }
}

fn is_space_char(c: char) -> (r: bool)
    ensures
        r == is_space(c),
{
    c == ' ' || c == '\t' || c == '\r'
}

fn is_terminator_char(c: char) -> (r: bool)
    ensures
        r == is_terminator(c),
{
    c == '\n' || c == ';'
}

fn scan_space(w: &Vec<char>, i: usize) -> (r: usize)
    requires
        i <= w@.len(),
    ensures
        r == skip_space(w@, i as int),
        i <= r <= w@.len(),
        r < w@.len() ==> !is_space(w@[r as int]),
{
    let mut j = i;
    while j < w.len() && is_space_char(w[j])
        invariant
            i <= j <= w@.len(),
            skip_space(w@, j as int) == skip_space(w@, i as int),
        decreases w@.len() - j,
    {
        j = j + 1;
    }
    j
}

pub(crate) fn scan_quote(w: &Vec<char>, i: usize) -> (r: usize)
    requires
        i <= w@.len(),
    ensures
        r == quote_end(w@, i as int),
        i <= r <= w@.len(),
{
    let len = w.len();
    let mut j = i;
    while j < len
        invariant
            len == w@.len(),
            i <= j <= len,
            quote_end(w@, j as int) == quote_end(w@, i as int),
        decreases len - j,
    {
        let c = w[j];
        if c == '\\' {
            if len - j > 1 {
                j = j + 2;
            } else {
                                return len;
            }
        } else if c == '"' {
            return j;
        } else {
            j = j + 1;
        }
    }
    j
}

fn scan_bare(w: &Vec<char>, i: usize) -> (r: usize)
    requires
        i <= w@.len(),
    ensures
        r == bare_end(w@, i as int, 0),
        i <= r <= w@.len(),
        i < w@.len() && !is_space(w@[i as int]) && !is_terminator(w@[i as int]) ==> i < r,
{
    let len = w.len();
    let mut j = i;
    let mut depth: usize = 0;
    while j < len
        invariant
            len == w@.len(),
            i <= j <= len,
            depth <= j - i,
            j == i ==> depth == 0,
            bare_end(w@, j as int, depth as int) == bare_end(w@, i as int, 0),
        decreases len - j,
    {
        let c = w[j];
        if c == '\\' {
            if len - j > 1 {
                j = j + 2;
            } else {
                                return len;
            }
        } else if depth == 0 && (is_space_char(c) || is_terminator_char(c)) {
            return j;
        } else if c == '[' {
            depth = depth + 1;
            j = j + 1;
        } else if c == ']' && depth > 0 {
            depth = depth - 1;
            j = j + 1;
        } else {
            j = j + 1;
        }
    }
    j
}

fn word_may_end(w: &Vec<char>, k: usize) -> (r: bool)
    ensures
        r == ends_word(w@, k as int),
{
    k >= w.len() || is_space_char(w[k]) || is_terminator_char(w[k])
}

/// Reads the word that starts at `i`.
pub fn next_word(w: &Vec<char>, i: usize) -> (r: Result<(Word, usize), String>)
    requires
        i < w@.len(),
        !is_space(w@[i as int]),
        !is_terminator(w@[i as int]),
    ensures
        r matches Ok((x, n)) ==> word_at(w@, i as int) == Ok::<
            ((WordKind, Seq<char>), int),
            Seq<char>,
        >((x@, n as int)),
        r matches Err(m) ==> word_at(w@, i as int) == Err::<
            ((WordKind, Seq<char>), int),
            Seq<char>,
        >(m@),
        r matches Ok((x, n)) ==> i < n <= w@.len(),
{
    let len = w.len();
    if w[i] == '{' {
        let e = scan_brace(w, i + 1);
        if e >= len {
            Err(String::from_str("unmatched open brace"))
        } else if !word_may_end(w, e + 1) {
            Err(String::from_str("extra characters after close-brace"))
        } else {
            Ok((Word { kind: WordKind::Brace, text: join_lines_range(w, i + 1, e) }, e + 1))
        }
    } else if w[i] == '"' {
        let e = scan_quote(w, i + 1);
        if e < len && !word_may_end(w, e + 1) {
            Err(String::from_str("extra characters after close-quote"))
        } else if e < len {
            Ok((Word { kind: WordKind::Quoted, text: string_of(w, i + 1, e) }, e + 1))
        } else {
            Err(String::from_str("unmatched open quote"))
        }
    } else {
        let e = scan_bare(w, i);
        Ok((Word { kind: WordKind::Bare, text: string_of(w, i, e) }, e))
    }
}

/// Reads the words of the command that starts at `i`, up to the end of the
/// text or to a terminator outside any grouping.
pub fn parse_command(w: &Vec<char>, i: usize) -> (r: Result<(Vec<Word>, usize), String>)
    requires
        i <= w@.len(),
    ensures
        r matches Ok((v, n)) ==> command_at(w@, i as int) == Ok::<
            (Seq<(WordKind, Seq<char>)>, int),
            Seq<char>,
        >((words_view(v@), n as int)),
        r matches Err(m) ==> command_at(w@, i as int) == Err::<
            (Seq<(WordKind, Seq<char>)>, int),
            Seq<char>,
        >(m@),
        r matches Ok((v, n)) ==> i < n <= w@.len() || n == w@.len(),
{
    let len = w.len();
    let mut out: Vec<Word> = Vec::new();
    let mut k: usize = i;
    assert(words_view(out@) =~= Seq::<(WordKind, Seq<char>)>::empty());
    loop
        invariant
            len == w@.len(),
            i <= k <= len,
            command_at(w@, i as int) == (match command_at(w@, k as int) {
                Ok((rest, end)) => Ok((words_view(out@) + rest, end)),
                Err(m) => Err(m),
            }),
        decreases len - k,
    {
        let j = scan_space(w, k);
        if j >= len {
            assert(words_view(out@) + Seq::<(WordKind, Seq<char>)>::empty() =~= words_view(out@));
            return Ok((out, len));
        }
        if is_terminator_char(w[j]) {
            assert(words_view(out@) + Seq::<(WordKind, Seq<char>)>::empty() =~= words_view(out@));
            return Ok((out, j + 1));
        }
        match next_word(w, j) {
            Err(m) => {
                return Err(m);
            },
            Ok((x, n)) => {
                let ghost before = words_view(out@);
                out.push(x);
                assert(words_view(out@) =~= before + seq![x@]);
                proof {
                    if let Ok((rest, end)) = command_at(w@, n as int) {
                        assert(before + (seq![x@] + rest) =~= (before + seq![x@]) + rest);
                    }
                }
                k = n;
            },
        }
    }
}

} // verus!
