//! Grouping of words: brace groups and their matching close.
use vstd::prelude::*;

use crate::text::{chars_of, push_char};
use crate::types::{InterpResult, ResultCode, error_text};

verus! {

/// How a character moves the brace depth.
pub open spec fn brace_step(c: char) -> int {
    if c == '{' {
        1
    } else if c == '}' {
        -1
    } else {
        0
    }
}

/// The number of `{` in `s` less the number of `}`.
pub open spec fn brace_count(s: Seq<char>) -> int
    decreases s.len(),
{
    if s.len() == 0 {
        0
    } else {
        brace_count(s.drop_last()) + brace_step(s.last())
    }
}

/// Every prefix of `c` closes no more braces than it opens, and `c` as a whole
/// closes all it opens.
pub open spec fn balanced(c: Seq<char>) -> bool {
    brace_count(c) == 0 && forall|k: int| 0 <= k <= c.len() ==> brace_count(#[trigger] c.take(k))
        >= 0
}

/// The brace depth after `w[0..k]`.
pub open spec fn depth_at(w: Seq<char>, k: int) -> int {
    brace_count(w.take(k))
}

/// The `}` at `e` is the one that closes the `{` at the start of `w`.
pub open spec fn closes_at(w: Seq<char>, e: int) -> bool {
    &&& 0 < e < w.len()
    &&& depth_at(w, e + 1) == 0
    &&& forall|k: int| 1 <= k <= e ==> depth_at(w, k) > 0
}

/// `t` with each backslash-newline pair, which continues a line, made one
/// space.
pub open spec fn join_lines(t: Seq<char>) -> Seq<char>
    decreases t.len(),
{
    if t.len() == 0 {
        t
    } else if t.len() >= 2 && t[0] == '\\' && t[1] == '\n' {
        seq![' '] + join_lines(t.subrange(2, t.len() as int))
    } else {
        seq![t[0]] + join_lines(t.drop_first())
    }
}

/// `t` holds no backslash-newline pair.
pub open spec fn no_continuation(t: Seq<char>) -> bool {
    forall|k: int| 0 <= k < t.len() - 1 ==> !(#[trigger] t[k] == '\\' && t[k + 1] == '\n')
}

proof fn lemma_join_lines_plain(t: Seq<char>)
    requires
        no_continuation(t),
    ensures
        join_lines(t) == t,
    decreases t.len(),
{
    if t.len() > 0 {
        let r = t.drop_first();
        assert forall|k: int| 0 <= k < r.len() - 1 implies !(#[trigger] r[k] == '\\' && r[k + 1]
            == '\n') by {
            assert(r[k] == t[k + 1] && r[k + 1] == t[k + 2]);
        }
        lemma_join_lines_plain(r);
        assert(t =~= seq![t[0]] + r);
    }
}

/// The text of `w[from..to]` with each line continuation made one space.
pub fn join_lines_range(w: &Vec<char>, from: usize, to: usize) -> (r: String)
    requires
        from <= to <= w@.len(),
    ensures
        r@ == join_lines(w@.subrange(from as int, to as int)),
{
    let mut out = String::new();
    let mut k = from;
    while k < to
        invariant
            from <= k <= to <= w@.len(),
            out@ + join_lines(w@.subrange(k as int, to as int)) == join_lines(
                w@.subrange(from as int, to as int),
            ),
        decreases to - k,
    {
        let ghost t = w@.subrange(k as int, to as int);
        let c = w[k];
        if c == '\\' && to - k >= 2 && w[k + 1] == '\n' {
            assert(t.subrange(2, t.len() as int) =~= w@.subrange(k + 2, to as int));
            assert(out@.push(' ') + join_lines(w@.subrange(k + 2, to as int)) =~= out@ + (seq![' ']
                + join_lines(w@.subrange(k + 2, to as int))));
            push_char(&mut out, ' ');
            k = k + 2;
        } else {
            assert(t.drop_first() =~= w@.subrange(k + 1, to as int));
            assert(out@.push(c) + join_lines(w@.subrange(k + 1, to as int)) =~= out@ + (seq![c]
                + join_lines(w@.subrange(k + 1, to as int))));
            push_char(&mut out, c);
            k = k + 1;
        }
    }
    assert(out@ + join_lines(w@.subrange(to as int, to as int)) =~= out@);
    out
}

/// What a brace-grouped word stands for: the text between its braces, where
/// the opening brace is closed at the word's last character.
pub open spec fn brace_word_value(w: Seq<char>) -> Option<Seq<char>> {
    if w.len() >= 2 && w[0] == '{' && brace_close(w, 1, 1) == w.len() - 1 {
        Some(join_lines(w.subrange(1, w.len() - 1)))
    } else {
        None
    }
}

proof fn lemma_brace_count_concat(a: Seq<char>, b: Seq<char>)
    ensures
        brace_count(a + b) == brace_count(a) + brace_count(b),
    decreases b.len(),
{
    if b.len() > 0 {
        assert((a + b).drop_last() =~= a + b.drop_last());
        lemma_brace_count_concat(a, b.drop_last());
    } else {
        assert(a + b =~= a);
    }
}

proof fn lemma_depth_step(w: Seq<char>, k: int)
    requires
        0 <= k < w.len(),
    ensures
        depth_at(w, k + 1) == depth_at(w, k) + brace_step(w[k]),
{
    assert(w.take(k + 1).drop_last() =~= w.take(k));
}

/// The index of the `}` that brings the brace depth, `depth` at `i`, to zero,
/// or the length of `w`.
pub open spec fn brace_close(w: Seq<char>, i: int, depth: int) -> int
    decreases w.len() - i,
{
    if i >= w.len() {
        w.len() as int
    } else if w[i] == '}' && depth == 1 {
        i
    } else {
        brace_close(w, i + 1, depth + brace_step(w[i]))
    }
}

proof fn lemma_brace_close_agrees(w: Seq<char>, j: int, e: int)
    requires
        1 <= j <= e,
        closes_at(w, e),
    ensures
        brace_close(w, j, depth_at(w, j)) == e,
    decreases w.len() - j,
{
    lemma_depth_step(w, j);
    if j < e {
        assert(depth_at(w, j + 1) > 0);
        lemma_brace_close_agrees(w, j + 1, e);
    }
}

/// Finds the `}` that closes a brace group whose text starts at `i`.
pub fn scan_brace(w: &Vec<char>, i: usize) -> (r: usize)
    requires
        1 <= i <= w@.len(),
    ensures
        r == brace_close(w@, i as int, 1),
        i <= r <= w@.len(),
{
    let len = w.len();
    let mut j = i;
    let mut depth: usize = 1;
    while j < len
        invariant
            len == w@.len(),
            1 <= i <= j <= w@.len(),
            1 <= depth <= j - i + 1,
            brace_close(w@, j as int, depth as int) == brace_close(w@, i as int, 1),
        decreases w@.len() - j,
    {
        let c = w[j];
        if c == '}' {
            if depth == 1 {
                return j;
            }
            depth = depth - 1;
        } else if c == '{' {
            depth = depth + 1;
        }
        j = j + 1;
    }
    j
}

/// The message for a brace group that is never closed.
pub open spec fn unmatched_brace_message() -> Seq<char> {
    "unmatched open brace"@
}

/// The message for a brace group closed before the end of its word.
pub open spec fn extra_after_brace_message() -> Seq<char> {
    "extra characters after close-brace"@
}

/// The value of a brace-grouped word: the text between its braces, with no
/// substitution made.
pub fn substitute_brace(word: &str) -> (r: InterpResult)
    requires
        word@.len() >= 1,
        word@[0] == '{',
    ensures
        brace_word_value(word@) matches Some(c) ==> (r matches Ok(v) && v@ == c),
        brace_close(word@, 1, 1) == word@.len() ==> error_text(r) == Some(
            unmatched_brace_message(),
        ),
        brace_close(word@, 1, 1) < word@.len() - 1 ==> error_text(r) == Some(
            extra_after_brace_message(),
        ),
{
    let w = chars_of(word);
    let e = scan_brace(&w, 1);
    if e == w.len() {
        Err(ResultCode::Error(String::from_str("unmatched open brace")))
    } else if e < w.len() - 1 {
        Err(ResultCode::Error(String::from_str("extra characters after close-brace")))
    } else {
        Ok(join_lines_range(&w, 1, e))
    }
}

proof fn lemma_brace_count_single(c: char)
    ensures
        brace_count(seq![c]) == brace_step(c),
{
    assert(seq![c].drop_last() =~= Seq::<char>::empty());
    assert(brace_count(Seq::<char>::empty()) == 0);
    assert(seq![c].last() == c);
    assert(brace_count(seq![c]) == brace_count(seq![c].drop_last()) + brace_step(c));
}

/// A brace group around balanced text that continues no line stands for
/// that text, unchanged.
pub proof fn lemma_brace_word_verbatim(c: Seq<char>)
    requires
        balanced(c),
        no_continuation(c),
    ensures
        brace_word_value(seq!['{'] + c + seq!['}']) == Some(c),
{
    let w = seq!['{'] + c + seq!['}'];
    lemma_brace_count_single('{');
    lemma_brace_count_single('}');
    assert forall|k: int| 1 <= k <= w.len() - 1 implies depth_at(w, k) > 0 by {
        assert(w.take(k) =~= seq!['{'] + c.take(k - 1));
        lemma_brace_count_concat(seq!['{'], c.take(k - 1));
    }
    assert(w.take(w.len() as int) =~= (seq!['{'] + c) + seq!['}']);
    lemma_brace_count_concat(seq!['{'] + c, seq!['}']);
    lemma_brace_count_concat(seq!['{'], c);
    assert(c.take(c.len() as int) =~= c);
    assert(w.subrange(1, w.len() - 1) =~= c);
    assert(w.take(1) =~= seq!['{']);
    lemma_brace_close_agrees(w, 1, w.len() - 1);
    lemma_join_lines_plain(c);
}

} // verus!
