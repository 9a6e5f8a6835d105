//! The list value: a string read as a sequence of elements, and the
//! canonical string written for a sequence of elements.
use vstd::prelude::*;

use crate::lexer::{quote_end, scan_quote};
use crate::pieces::escaped;
use crate::text::{chars_of, push_char, string_of};
use crate::types::ResultCode;
use crate::words::{balanced, brace_close, brace_count, scan_brace};

verus! {

/// Whitespace between list elements.
pub open spec fn is_list_space(c: char) -> bool {
    c == ' ' || c == '\t' || c == '\n' || c == '\r'
}

/// The first index from `i` on that is not list whitespace, or the length.
pub open spec fn list_skip(w: Seq<char>, i: int) -> int
    decreases w.len() - i,
{
    if i < 0 || i >= w.len() {
        w.len() as int
    } else if is_list_space(w[i]) {
        list_skip(w, i + 1)
    } else {
        i
    }
}

/// The end of a bare element at `i`: the first unescaped whitespace, or the
/// length.
pub open spec fn list_bare_end(w: Seq<char>, i: int) -> int
    decreases w.len() - i,
{
    if i < 0 || i >= w.len() {
        w.len() as int
    } else if w[i] == '\\' {
        if i + 1 >= w.len() {
            w.len() as int
        } else {
            list_bare_end(w, i + 2)
        }
    } else if is_list_space(w[i]) {
        i
    } else {
        list_bare_end(w, i + 1)
    }
}

/// `t` with each backslash sequence replaced by the character it stands for.
pub open spec fn unescape(t: Seq<char>) -> Seq<char>
    decreases t.len(),
{
    if t.len() == 0 {
        t
    } else if t[0] == '\\' && t.len() >= 2 {
        seq![escaped(t[1])] + unescape(t.subrange(2, t.len() as int))
    } else {
        seq![t[0]] + unescape(t.drop_first())
    }
}

/// The element that starts at `i`, and where the text after it starts.
pub open spec fn element_at(w: Seq<char>, i: int) -> Result<(Seq<char>, int), Seq<char>> {
    if w[i] == '{' {
        let e = brace_close(w, i + 1, 1);
        if e < w.len() {
            Ok((w.subrange(i + 1, e), e + 1))
        } else {
            Err("unmatched open brace in list"@)
        }
    } else if w[i] == '"' {
        let e = quote_end(w, i + 1);
        if e < w.len() {
            Ok((unescape(w.subrange(i + 1, e)), e + 1))
        } else {
            Err("unmatched open quote in list"@)
        }
    } else {
        let e = list_bare_end(w, i);
        Ok((unescape(w.subrange(i, e)), e))
    }
}

/// The elements of `w[i..]`, or the first error among them.
pub open spec fn elements_from(w: Seq<char>, i: int) -> Result<Seq<Seq<char>>, Seq<char>>
    decreases w.len() - i,
{
    let j = list_skip(w, i);
    if i < 0 || j >= w.len() {
        Ok(Seq::empty())
    } else {
        match element_at(w, j) {
            Err(m) => Err(m),
            Ok((x, n)) => if n <= i || n > w.len() {
                Ok(Seq::empty())
            } else {
                match elements_from(w, n) {
                    Ok(rest) => Ok(seq![x] + rest),
                    Err(m) => Err(m),
                }
            },
        }
    }
}

/// A character that keeps an element from being written as it is.
pub open spec fn is_special(c: char) -> bool {
    is_list_space(c) || c == '{' || c == '}' || c == '"' || c == '\\'
}

/// Whether `x` holds a special character.
pub open spec fn has_special(x: Seq<char>) -> bool {
    exists|k: int| 0 <= k < x.len() && is_special(#[trigger] x[k])
}

/// `x` with a backslash before each special character.
pub open spec fn escape_all(x: Seq<char>) -> Seq<char>
    decreases x.len(),
{
    if x.len() == 0 {
        x
    } else if is_special(x[0]) {
        seq!['\\', x[0]] + escape_all(x.drop_first())
    } else {
        seq![x[0]] + escape_all(x.drop_first())
    }
}

/// How one element is written: as it is where nothing in it is special and
/// it is not empty; in braces where its braces balance; else with each
/// special character escaped.
pub open spec fn encode_element(x: Seq<char>) -> Seq<char> {
    if x.len() > 0 && !has_special(x) {
        x
    } else if balanced(x) {
        seq!['{'] + x + seq!['}']
    } else {
        escape_all(x)
    }
}

/// The canonical list string of `e`: its elements written one by one, a
/// single space between neighbours.
pub open spec fn encode_list(e: Seq<Seq<char>>) -> Seq<char>
    decreases e.len(),
{
    if e.len() == 0 {
        Seq::empty()
    } else if e.len() == 1 {
        encode_element(e[0])
    } else {
        encode_element(e[0]) + seq![' '] + encode_list(e.drop_first())
    }
}

proof fn lemma_brace_close_in_place(w: Seq<char>, i: int, c: Seq<char>, k: int)
    requires
        balanced(c),
        0 <= i,
        i + c.len() + 1 < w.len(),
        w.subrange(i + 1, i + 1 + c.len()) == c,
        w[i + 1 + c.len()] == '}',
        0 <= k <= c.len(),
    ensures
        brace_close(w, i + 1 + k, 1 + brace_count(c.take(k))) == i + 1 + c.len(),
    decreases c.len() - k,
{
    if k == c.len() {
        assert(c.take(k) =~= c);
    } else {
        assert(w[i + 1 + k] == w.subrange(i + 1, i + 1 + c.len())[k]);
        assert(c.take(k + 1).drop_last() =~= c.take(k));
        assert(c.take(k + 1).last() == c[k]);
        assert(brace_count(c.take(k + 1)) >= 0);
        lemma_brace_close_in_place(w, i, c, k + 1);
    }
}

proof fn lemma_bare_end_escaped(w: Seq<char>, i: int, x: Seq<char>)
    requires
        0 <= i,
        i + escape_all(x).len() <= w.len(),
        w.subrange(i, i + escape_all(x).len()) == escape_all(x),
        i + escape_all(x).len() == w.len() || is_list_space(w[i + escape_all(x).len()]),
    ensures
        list_bare_end(w, i) == i + escape_all(x).len(),
    decreases x.len(),
{
    let t = escape_all(x);
    if x.len() > 0 {
        let r = escape_all(x.drop_first());
        if is_special(x[0]) {
            assert(w[i] == t[0]);
            assert(w[i + 1] == t[1]);
            assert(w.subrange(i + 2, i + 2 + r.len()) =~= t.subrange(2, t.len() as int));
            assert(t.subrange(2, t.len() as int) =~= r);
            lemma_bare_end_escaped(w, i + 2, x.drop_first());
        } else {
            assert(w[i] == t[0]);
            assert(w.subrange(i + 1, i + 1 + r.len()) =~= t.subrange(1, t.len() as int));
            assert(t.subrange(1, t.len() as int) =~= r);
            lemma_bare_end_escaped(w, i + 1, x.drop_first());
        }
    }
}

proof fn lemma_unescape_escaped(x: Seq<char>)
    ensures
        unescape(escape_all(x)) == x,
    decreases x.len(),
{
    let t = escape_all(x);
    if x.len() > 0 {
        lemma_unescape_escaped(x.drop_first());
        if is_special(x[0]) {
            assert(t.subrange(2, t.len() as int) =~= escape_all(x.drop_first()));
        } else {
            assert(t.drop_first() =~= escape_all(x.drop_first()));
        }
        assert(x =~= seq![x[0]] + x.drop_first());
    }
}

proof fn lemma_escape_plain(x: Seq<char>)
    requires
        !has_special(x),
    ensures
        escape_all(x) == x,
    decreases x.len(),
{
    if x.len() > 0 {
        assert(!is_special(x[0]));
        assert forall|k: int| 0 <= k < x.drop_first().len() implies !is_special(
            #[trigger] x.drop_first()[k],
        ) by {
            assert(x.drop_first()[k] == x[k + 1]);
        }
        lemma_escape_plain(x.drop_first());
        assert(x =~= seq![x[0]] + x.drop_first());
    }
}

proof fn lemma_encoded_start(x: Seq<char>)
    ensures
        encode_element(x).len() >= 1,
        !is_list_space(encode_element(x)[0]),
{
    if x.len() > 0 && !has_special(x) {
        assert(!is_special(x[0]));
    } else if balanced(x) {
    } else {
        if x.len() == 0 {
            assert(x.take(0) =~= x);
            assert(brace_count(x) == 0);
        }
        assert(escape_all(x).len() >= 1);
    }
}

proof fn lemma_element_in_place(w: Seq<char>, i: int, x: Seq<char>)
    requires
        0 <= i,
        i + encode_element(x).len() <= w.len(),
        w.subrange(i, i + encode_element(x).len()) == encode_element(x),
        i + encode_element(x).len() == w.len() || w[i + encode_element(x).len()] == ' ',
    ensures
        element_at(w, i) == Ok::<(Seq<char>, int), Seq<char>>(
            (x, i + encode_element(x).len()),
        ),
{
    let t = encode_element(x);
    lemma_encoded_start(x);
    assert(w[i] == t[0]);
    if x.len() > 0 && !has_special(x) {
        lemma_escape_plain(x);
        assert(!is_special(x[0]));
        lemma_bare_end_escaped(w, i, x);
        lemma_unescape_escaped(x);
    } else if balanced(x) {
        assert(w.subrange(i + 1, i + 1 + x.len()) =~= t.subrange(1, 1 + x.len() as int));
        assert(t.subrange(1, 1 + x.len() as int) =~= x);
        assert(w[i + 1 + x.len()] == t[1 + x.len() as int]);
        assert(x.take(0) =~= Seq::<char>::empty());
        assert(brace_count(Seq::<char>::empty()) == 0);
        lemma_brace_close_in_place(w, i, x, 0);
    } else {
        if x.len() == 0 {
            assert(x.take(0) =~= x);
        }
        if is_special(x[0]) {
            assert(t[0] == '\\');
        } else {
            assert(t[0] == x[0]);
        }
        lemma_bare_end_escaped(w, i, x);
        lemma_unescape_escaped(x);
    }
}

proof fn lemma_list_shape(e: Seq<Seq<char>>)
    requires
        e.len() >= 1,
    ensures
        encode_list(e).len() >= encode_element(e[0]).len(),
        encode_list(e).subrange(0, encode_element(e[0]).len() as int) == encode_element(e[0]),
        e.len() == 1 ==> encode_list(e).len() == encode_element(e[0]).len(),
        e.len() > 1 ==> encode_list(e)[encode_element(e[0]).len() as int] == ' '
            && encode_list(e).subrange(
            encode_element(e[0]).len() as int + 1,
            encode_list(e).len() as int,
        ) == encode_list(e.drop_first()),
{
    let t = encode_element(e[0]);
    let l = encode_list(e);
    if e.len() == 1 {
        assert(l.subrange(0, t.len() as int) =~= t);
    } else {
        assert(l.subrange(0, t.len() as int) =~= t);
        assert(l.subrange(t.len() as int + 1, l.len() as int) =~= encode_list(e.drop_first()));
    }
}

proof fn lemma_elements_in_place(w: Seq<char>, i: int, e: Seq<Seq<char>>)
    requires
        0 <= i <= w.len(),
        w.subrange(i, w.len() as int) == encode_list(e),
    ensures
        elements_from(w, i) == Ok::<Seq<Seq<char>>, Seq<char>>(e),
    decreases e.len(),
{
    if e.len() == 0 {
        assert(e =~= Seq::<Seq<char>>::empty());
    } else {
        let x = e[0];
        let m = encode_element(x).len() as int;
        lemma_list_shape(e);
        lemma_encoded_start(x);
        assert(w.subrange(i, i + m) =~= encode_list(e).subrange(0, m));
        assert(w[i] == encode_element(x)[0]);
        if e.len() == 1 {
            lemma_element_in_place(w, i, x);
            assert(e =~= seq![x] + Seq::<Seq<char>>::empty());
        } else {
            let tail = e.drop_first();
            let j = i + m + 1;
            assert(w[i + m] == encode_list(e)[m]);
            lemma_element_in_place(w, i, x);
            assert(w.subrange(j, w.len() as int) =~= encode_list(e).subrange(
                m + 1,
                encode_list(e).len() as int,
            ));
            lemma_elements_in_place(w, j, tail);
            lemma_list_shape(tail);
            lemma_encoded_start(tail[0]);
            let m2 = encode_element(tail[0]).len() as int;
            assert(w.subrange(j, j + m2) =~= encode_list(tail).subrange(0, m2));
            assert(w[j] == encode_element(tail[0])[0]);
            if tail.len() > 1 {
                assert(w[j + m2] == encode_list(tail)[m2]);
            }
            lemma_element_in_place(w, j, tail[0]);
            assert(list_skip(w, i + m) == j);
            assert(elements_from(w, i + m) == elements_from(w, j));
            assert(e =~= seq![x] + tail);
        }
    }
}

/// Reading back the canonical string of a list gives the list's elements,
/// whatever they hold.
pub proof fn lemma_list_round_trip(e: Seq<Seq<char>>)
    ensures
        elements_from(encode_list(e), 0) == Ok::<Seq<Seq<char>>, Seq<char>>(e),
{
    let w = encode_list(e);
    assert(w.subrange(0, w.len() as int) =~= w);
    lemma_elements_in_place(w, 0, e);
}

fn is_list_space_char(c: char) -> (r: bool)
    ensures
        r == is_list_space(c),
{
    c == ' ' || c == '\t' || c == '\n' || c == '\r'
}

fn is_special_char(c: char) -> (r: bool)
    ensures
        r == is_special(c),
{
    is_list_space_char(c) || c == '{' || c == '}' || c == '"' || c == '\\'
}

fn scan_list_space(w: &Vec<char>, i: usize) -> (r: usize)
    requires
        i <= w@.len(),
    ensures
        r == list_skip(w@, i as int),
        i <= r <= w@.len(),
        r < w@.len() ==> !is_list_space(w@[r as int]),
{
    let mut j = i;
    while j < w.len() && is_list_space_char(w[j])
        invariant
            i <= j <= w@.len(),
            list_skip(w@, j as int) == list_skip(w@, i as int),
        decreases w@.len() - j,
    {
        j = j + 1;
    }
    j
}

fn scan_list_bare(w: &Vec<char>, i: usize) -> (r: usize)
    requires
        i <= w@.len(),
    ensures
        r == list_bare_end(w@, i as int),
        i <= r <= w@.len(),
        r == i ==> i == w@.len() || is_list_space(w@[i as int]),
{
    let len = w.len();
    let mut j = i;
    while j < len
        invariant
            len == w@.len(),
            i <= j <= len,
            list_bare_end(w@, j as int) == list_bare_end(w@, i as int),
        decreases len - j,
    {
        let c = w[j];
        if c == '\\' {
            if len - j > 1 {
                j = j + 2;
            } else {
                return len;
            }
        } else if is_list_space_char(c) {
            return j;
        } else {
            j = j + 1;
        }
    }
    j
}

/// The text of `w[from..to]` with each backslash sequence replaced.
fn unescape_range(w: &Vec<char>, from: usize, to: usize) -> (r: String)
    requires
        from <= to <= w@.len(),
    ensures
        r@ == unescape(w@.subrange(from as int, to as int)),
{
    let mut out = String::new();
    let mut k = from;
    while k < to
        invariant
            from <= k <= to <= w@.len(),
            out@ + unescape(w@.subrange(k as int, to as int)) == unescape(
                w@.subrange(from as int, to as int),
            ),
        decreases to - k,
    {
        let ghost t = w@.subrange(k as int, to as int);
        let c = w[k];
        if c == '\\' && to - k >= 2 {
            let e = w[k + 1];
            let x = if e == 'n' {
                '\n'
            } else if e == 't' {
                '\t'
            } else if e == 'r' {
                '\r'
            } else {
                e
            };
            assert(t.subrange(2, t.len() as int) =~= w@.subrange(k + 2, to as int));
            assert(out@.push(x) + unescape(w@.subrange(k + 2, to as int)) =~= out@ + (seq![x]
                + unescape(w@.subrange(k + 2, to as int))));
            push_char(&mut out, x);
            k = k + 2;
        } else {
            assert(t.drop_first() =~= w@.subrange(k + 1, to as int));
            assert(out@.push(c) + unescape(w@.subrange(k + 1, to as int)) =~= out@ + (seq![c]
                + unescape(w@.subrange(k + 1, to as int))));
            push_char(&mut out, c);
            k = k + 1;
        }
    }
    assert(out@ + unescape(w@.subrange(to as int, to as int)) =~= out@);
    out
}

/// Reads the element that starts at `i`.
pub fn next_element(w: &Vec<char>, i: usize) -> (r: Result<(String, usize), String>)
    requires
        i < w@.len(),
        !is_list_space(w@[i as int]),
    ensures
        r matches Ok((x, n)) ==> element_at(w@, i as int) == Ok::<(Seq<char>, int), Seq<char>>(
            (x@, n as int),
        ),
        r matches Err(m) ==> element_at(w@, i as int) == Err::<(Seq<char>, int), Seq<char>>(m@),
        r matches Ok((x, n)) ==> i < n <= w@.len(),
{
    let len = w.len();
    if w[i] == '{' {
        let e = scan_brace(w, i + 1);
        if e < len {
            Ok((string_of(w, i + 1, e), e + 1))
        } else {
            Err(String::from_str("unmatched open brace in list"))
        }
    } else if w[i] == '"' {
        let e = scan_quote(w, i + 1);
        if e < len {
            Ok((unescape_range(w, i + 1, e), e + 1))
        } else {
            Err(String::from_str("unmatched open quote in list"))
        }
    } else {
        let e = scan_list_bare(w, i);
        Ok((unescape_range(w, i, e), e))
    }
}

/// The views of a run of strings.
pub open spec fn strings_view(v: Seq<String>) -> Seq<Seq<char>> {
    v.map_values(|s: String| s@)
}

/// Reads `s` as a list: its elements in order, or the error that its text
/// gives.
pub fn get_list(s: &str) -> (r: Result<Vec<String>, ResultCode>)
    ensures
        r matches Ok(v) ==> elements_from(s@, 0) == Ok::<Seq<Seq<char>>, Seq<char>>(
            strings_view(v@),
        ),
        r matches Err(e) ==> (e matches ResultCode::Error(m) && elements_from(s@, 0) == Err::<
            Seq<Seq<char>>,
            Seq<char>,
        >(m@)),
{
    let w = chars_of(s);
    let len = w.len();
    let mut out: Vec<String> = Vec::new();
    let mut i: usize = 0;
    assert(strings_view(out@) =~= Seq::<Seq<char>>::empty());
    loop
        invariant
            len == w@.len(),
            w@ == s@,
            i <= len,
            elements_from(w@, 0) == (match elements_from(w@, i as int) {
                Ok(rest) => Ok(strings_view(out@) + rest),
                Err(m) => Err(m),
            }),
        decreases len - i,
    {
        let j = scan_list_space(&w, i);
        if j >= len {
            assert(strings_view(out@) + Seq::<Seq<char>>::empty() =~= strings_view(out@));
            return Ok(out);
        }
        match next_element(&w, j) {
            Err(m) => {
                return Err(ResultCode::Error(m));
            },
            Ok((x, n)) => {
                let ghost before = strings_view(out@);
                out.push(x);
                assert(strings_view(out@) =~= before + seq![x@]);
                proof {
                    if let Ok(rest) = elements_from(w@, n as int) {
                        assert(before + (seq![x@] + rest) =~= (before + seq![x@]) + rest);
                    }
                }
                i = n;
            },
        }
    }
}

fn contains_special(x: &Vec<char>) -> (r: bool)
    ensures
        r == has_special(x@),
{
    let mut i: usize = 0;
    while i < x.len()
        invariant
            i <= x@.len(),
            forall|k: int| 0 <= k < i ==> !is_special(#[trigger] x@[k]),
        decreases x@.len() - i,
    {
        if is_special_char(x[i]) {
            return true;
        }
        i = i + 1;
    }
    false
}

fn braces_balance(x: &Vec<char>) -> (r: bool)
    ensures
        r == balanced(x@),
{
    let len = x.len();
    let mut depth: usize = 0;
    let mut i: usize = 0;
    assert(x@.take(0) =~= Seq::<char>::empty());
    while i < len
        invariant
            len == x@.len(),
            i <= len,
            depth <= i,
            depth as int == brace_count(x@.take(i as int)),
            forall|k: int| 0 <= k <= i ==> brace_count(#[trigger] x@.take(k)) >= 0,
        decreases len - i,
    {
        assert(x@.take(i + 1).drop_last() =~= x@.take(i as int));
        let c = x[i];
        if c == '{' {
            depth = depth + 1;
        } else if c == '}' {
            if depth == 0 {
                assert(brace_count(x@.take(i + 1)) < 0);
                return false;
            }
            depth = depth - 1;
        }
        i = i + 1;
    }
    assert(x@.take(len as int) =~= x@);
    depth == 0
}

fn escape_text(x: &Vec<char>) -> (r: String)
    ensures
        r@ == escape_all(x@),
{
    let len = x.len();
    let mut out = String::new();
    let mut i: usize = 0;
    assert(x@.subrange(0, len as int) =~= x@);
    while i < len
        invariant
            len == x@.len(),
            i <= len,
            out@ + escape_all(x@.subrange(i as int, len as int)) == escape_all(x@),
        decreases len - i,
    {
        let c = x[i];
        let ghost t = x@.subrange(i as int, len as int);
        assert(t.drop_first() =~= x@.subrange(i + 1, len as int));
        if is_special_char(c) {
            assert(out@.push('\\').push(c) + escape_all(t.drop_first()) =~= out@ + (seq!['\\', c]
                + escape_all(t.drop_first())));
            push_char(&mut out, '\\');
            push_char(&mut out, c);
        } else {
            assert(out@.push(c) + escape_all(t.drop_first()) =~= out@ + (seq![c] + escape_all(
                t.drop_first(),
            )));
            push_char(&mut out, c);
        }
        i = i + 1;
    }
    assert(out@ + escape_all(x@.subrange(len as int, len as int)) =~= out@);
    out
}

/// How one element is written in a list string.
pub fn encode_element_text(s: &str) -> (r: String)
    ensures
        r@ == encode_element(s@),
{
    let x = chars_of(s);
    if x.len() > 0 && !contains_special(&x) {
        String::from_str(s)
    } else if braces_balance(&x) {
        let mut out = String::from_str("{");
        out.append(s);
        out.append("}");
        proof {
            reveal_strlit("{");
            reveal_strlit("}");
        }
        assert(out@ =~= seq!['{'] + s@ + seq!['}']);
        out
    } else {
        escape_text(&x)
    }
}

proof fn lemma_encode_list_push(e: Seq<Seq<char>>, x: Seq<char>)
    ensures
        encode_list(e.push(x)) == if e.len() == 0 {
            encode_element(x)
        } else {
            encode_list(e) + seq![' '] + encode_element(x)
        },
    decreases e.len(),
{
    if e.len() >= 1 {
        assert(e.push(x).drop_first() =~= e.drop_first().push(x));
        lemma_encode_list_push(e.drop_first(), x);
        if e.len() == 1 {
            assert(e.drop_first() =~= Seq::<Seq<char>>::empty());
        }
    }
}

/// The canonical list string of `elements`.
pub fn list_to_string(elements: &Vec<String>) -> (r: String)
    ensures
        r@ == encode_list(strings_view(elements@)),
{
    let ghost e = strings_view(elements@);
    let mut out = String::new();
    let mut k: usize = 0;
    assert(e.take(0) =~= Seq::<Seq<char>>::empty());
    while k < elements.len()
        invariant
            k <= elements@.len(),
            e == strings_view(elements@),
            out@ == encode_list(e.take(k as int)),
        decreases elements@.len() - k,
    {
        let piece = encode_element_text(elements[k].as_str());
        assert(e.take(k + 1) =~= e.take(k as int).push(e[k as int]));
        proof {
            lemma_encode_list_push(e.take(k as int), e[k as int]);
        }
        if k > 0 {
            out.append(" ");
            proof {
                reveal_strlit(" ");
            }
        }
        out.append(piece.as_str());
        assert(out@ =~= encode_list(e.take(k + 1)));
        k = k + 1;
    }
    assert(e.take(elements@.len() as int) =~= e);
    out
}

} // verus!
