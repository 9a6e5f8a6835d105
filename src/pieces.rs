//! The substitution pass over one word: it cuts the word into literal text,
//! variable references and nested scripts, in the order in which they stand.
use vstd::prelude::*;

use crate::text::string_of;

verus! {

/// One part of a word, before evaluation.
pub enum Piece {
    /// Text taken as it is.
    Text(String),
    /// A reference to the variable of this name.
    Var(String),
    /// A script whose result takes its place.
    Script(String),
}

/// The mathematical value of a `Piece`.
pub enum PieceView {
    Text(Seq<char>),
    Var(Seq<char>),
    Script(Seq<char>),
}

impl View for Piece {
    type V = PieceView;

    open spec fn view(&self) -> PieceView {
        match self {
            Piece::Text(s) => PieceView::Text(s@),
            Piece::Var(s) => PieceView::Var(s@),
            Piece::Script(s) => PieceView::Script(s@),
        }
    }
}

/// The views of a run of pieces.
pub open spec fn pieces_view(v: Seq<Piece>) -> Seq<PieceView> {
    v.map_values(|p: Piece| p@)
}

/// A character that may stand in a variable name written without braces.
pub open spec fn is_name_char(c: char) -> bool {
    ('a' <= c <= 'z') || ('A' <= c <= 'Z') || ('0' <= c <= '9') || c == '_'
}

/// The end of the run of name characters that starts at `i`.
pub open spec fn name_end(w: Seq<char>, i: int) -> int
    decreases w.len() - i,
{
    if 0 <= i < w.len() && is_name_char(w[i]) {
        name_end(w, i + 1)
    } else {
        i
    }
}

/// The first index from `i` on that holds `c`, or the length of `w`.
pub open spec fn find_char(w: Seq<char>, i: int, c: char) -> int
    decreases w.len() - i,
{
    if i >= w.len() {
        w.len() as int
    } else if w[i] == c {
        i
    } else {
        find_char(w, i + 1, c)
    }
}

/// How a character moves the bracket depth.
pub open spec fn bracket_step(c: char) -> int {
    if c == '[' {
        1
    } else if c == ']' {
        -1
    } else {
        0
    }
}

/// The index of the `]` that brings the bracket depth, `depth` at `i`, to
/// zero, or the length of `w`.
pub open spec fn bracket_close(w: Seq<char>, i: int, depth: int) -> int
    decreases w.len() - i,
{
    if i >= w.len() {
        w.len() as int
    } else if w[i] == ']' && depth == 1 {
        i
    } else {
        bracket_close(w, i + 1, depth + bracket_step(w[i]))
    }
}

/// The character that a backslash followed by `c` stands for.
pub open spec fn escaped(c: char) -> char {
    if c == 'n' {
        '\n'
    } else if c == 't' {
        '\t'
    } else if c == 'r' {
        '\r'
    } else {
        c
    }
}

/// A hexadecimal digit.
pub open spec fn is_hex(c: char) -> bool {
    ('0' <= c <= '9') || ('a' <= c <= 'f') || ('A' <= c <= 'F')
}

/// The value of a hexadecimal digit.
pub open spec fn hex_value(c: char) -> int {
    if '0' <= c <= '9' {
        c as int - '0' as int
    } else if 'a' <= c <= 'f' {
        c as int - 'a' as int + 10
    } else {
        c as int - 'A' as int + 10
    }
}

/// An octal digit.
pub open spec fn is_octal(c: char) -> bool {
    '0' <= c <= '7'
}

/// The value of an octal digit.
pub open spec fn octal_value(c: char) -> int {
    c as int - '0' as int
}

/// The character whose code is the byte `v`.
pub open spec fn byte_char(v: int) -> char {
    (v as u8) as char
}

/// For the backslash at `i`, the character that a numeric escape stands for
/// and where the text after it starts: `\x` with one or two hexadecimal
/// digits, or one to three octal digits (a third only after a first digit of
/// at most 3, so that the code fits in a byte).
pub open spec fn numeric_escape(w: Seq<char>, i: int) -> Option<(char, int)> {
    if i + 2 < w.len() && w[i + 1] == 'x' && is_hex(w[i + 2]) {
        if i + 3 < w.len() && is_hex(w[i + 3]) {
            Some((byte_char(hex_value(w[i + 2]) * 16 + hex_value(w[i + 3])), i + 4))
        } else {
            Some((byte_char(hex_value(w[i + 2])), i + 3))
        }
    } else if i + 1 < w.len() && is_octal(w[i + 1]) {
        if i + 2 < w.len() && is_octal(w[i + 2]) {
            if i + 3 < w.len() && is_octal(w[i + 3]) && w[i + 1] <= '3' {
                Some((
                    byte_char(
                        octal_value(w[i + 1]) * 64 + octal_value(w[i + 2]) * 8 + octal_value(
                            w[i + 3],
                        ),
                    ),
                    i + 4,
                ))
            } else {
                Some((byte_char(octal_value(w[i + 1]) * 8 + octal_value(w[i + 2])), i + 3))
            }
        } else {
            Some((byte_char(octal_value(w[i + 1])), i + 2))
        }
    } else {
        None
    }
}

/// The message for `${` with no closing brace.
pub open spec fn missing_var_brace_message() -> Seq<char> {
    "missing close-brace for variable name"@
}

/// The message for `[` with no closing bracket.
pub open spec fn missing_bracket_message() -> Seq<char> {
    "missing close-bracket"@
}

/// The piece that starts at `i`, and where the next one starts; or the error
/// that the text there gives.
pub open spec fn piece_at(w: Seq<char>, i: int) -> Result<(PieceView, int), Seq<char>> {
    let c = w[i];
    if c == '\\' {
        if let Some((x, n)) = numeric_escape(w, i) {
            Ok((PieceView::Text(seq![x]), n))
        } else if i + 1 < w.len() {
            Ok((PieceView::Text(seq![escaped(w[i + 1])]), i + 2))
        } else {
            Ok((PieceView::Text(seq!['\\']), i + 1))
        }
    } else if c == '$' {
        if w.len() - i > 1 && w[i + 1] == '{' {
            let j = find_char(w, i + 2, '}');
            if j < w.len() {
                Ok((PieceView::Var(w.subrange(i + 2, j)), j + 1))
            } else {
                Err(missing_var_brace_message())
            }
        } else {
            let e = name_end(w, i + 1);
            if e > i + 1 {
                Ok((PieceView::Var(w.subrange(i + 1, e)), e))
            } else {
                Ok((PieceView::Text(seq!['$']), i + 1))
            }
        }
    } else if c == '[' {
        let j = bracket_close(w, i + 1, 1);
        if j < w.len() {
            Ok((PieceView::Script(w.subrange(i + 1, j)), j + 1))
        } else {
            Err(missing_bracket_message())
        }
    } else {
        Ok((PieceView::Text(seq![c]), i + 1))
    }
}

/// The pieces of `w[i..]`, left to right, or the first error among them.
pub open spec fn pieces_from(w: Seq<char>, i: int) -> Result<Seq<PieceView>, Seq<char>>
    decreases w.len() - i,
{
    if i < 0 || i >= w.len() {
        Ok(Seq::empty())
    } else {
        match piece_at(w, i) {
            Err(m) => Err(m),
            Ok((p, n)) => if n <= i || n > w.len() {
                Ok(Seq::empty())
            } else {
                match pieces_from(w, n) {
                    Ok(rest) => Ok(seq![p] + rest),
                    Err(m) => Err(m),
                }
            },
        }
    }
}

/// `done` followed by the pieces of `rest`, or the error of `rest`.
pub open spec fn after(done: Seq<PieceView>, rest: Result<Seq<PieceView>, Seq<char>>) -> Result<
    Seq<PieceView>,
    Seq<char>,
> {
    match rest {
        Ok(r) => Ok(done + r),
        Err(m) => Err(m),
    }
}

fn is_name_character(c: char) -> (r: bool)
    ensures
        r == is_name_char(c),
{
    ('a' <= c && c <= 'z') || ('A' <= c && c <= 'Z') || ('0' <= c && c <= '9') || c == '_'
}

fn scan_name(w: &Vec<char>, i: usize) -> (r: usize)
    requires
        i <= w@.len(),
    ensures
        r == name_end(w@, i as int),
        i <= r <= w@.len(),
{
    let mut j = i;
    while j < w.len() && is_name_character(w[j])
        invariant
            i <= j <= w@.len(),
            name_end(w@, j as int) == name_end(w@, i as int),
        decreases w@.len() - j,
    {
        j = j + 1;
    }
    j
}

fn scan_for(w: &Vec<char>, i: usize, c: char) -> (r: usize)
    requires
        i <= w@.len(),
    ensures
        r == find_char(w@, i as int, c),
        i <= r <= w@.len(),
{
    let mut j = i;
    while j < w.len() && w[j] != c
        invariant
            i <= j <= w@.len(),
            find_char(w@, j as int, c) == find_char(w@, i as int, c),
        decreases w@.len() - j,
    {
        j = j + 1;
    }
    j
}

fn scan_bracket(w: &Vec<char>, i: usize) -> (r: usize)
    requires
        1 <= i <= w@.len(),
    ensures
        r == bracket_close(w@, i as int, 1),
        i <= r <= w@.len(),
{
    let len = w.len();
    let mut j = i;
    let mut depth: usize = 1;
    while j < len
        invariant
            len == w@.len(),
            1 <= i <= j <= w@.len(),
            1 <= depth <= j - i + 1,
            bracket_close(w@, j as int, depth as int) == bracket_close(w@, i as int, 1),
        decreases w@.len() - j,
    {
        let c = w[j];
        if c == ']' {
            if depth == 1 {
                return j;
            }
            depth = depth - 1;
        } else if c == '[' {
            depth = depth + 1;
        }
        j = j + 1;
    }
    j
}

fn hex_digit(c: char) -> (r: Option<u32>)
    ensures
        r matches Some(v) ==> is_hex(c) && v as int == hex_value(c) && v < 16,
        r is None ==> !is_hex(c),
{
    if '0' <= c && c <= '9' {
        Some((c as u32) - ('0' as u32))
    } else if 'a' <= c && c <= 'f' {
        Some((c as u32) - ('a' as u32) + 10)
    } else if 'A' <= c && c <= 'F' {
        Some((c as u32) - ('A' as u32) + 10)
    } else {
        None
    }
}

fn octal_digit(c: char) -> (r: Option<u32>)
    ensures
        r matches Some(v) ==> is_octal(c) && v as int == octal_value(c) && v < 8,
        r is None ==> !is_octal(c),
{
    if '0' <= c && c <= '7' {
        Some((c as u32) - ('0' as u32))
    } else {
        None
    }
}

fn numeric_char(v: u32) -> (c: char)
    requires
        v < 256,
    ensures
        c == byte_char(v as int),
{
    (v as u8) as char
}

fn scan_numeric_escape(w: &Vec<char>, i: usize) -> (r: Option<(char, usize)>)
    requires
        i < w@.len(),
    ensures
        r matches Some((c, n)) ==> numeric_escape(w@, i as int) == Some((c, n as int)),
        r is None ==> numeric_escape(w@, i as int) is None,
{
    let len = w.len();
    if len - i > 2 && w[i + 1] == 'x' {
        if let Some(h1) = hex_digit(w[i + 2]) {
            if len - i > 3 {
                if let Some(h2) = hex_digit(w[i + 3]) {
                    return Some((numeric_char(h1 * 16 + h2), i + 4));
                }
            }
            return Some((numeric_char(h1), i + 3));
        }
    }
    if len - i > 1 {
        if let Some(o1) = octal_digit(w[i + 1]) {
            if len - i > 2 {
                if let Some(o2) = octal_digit(w[i + 2]) {
                    if len - i > 3 && o1 <= 3 {
                        if let Some(o3) = octal_digit(w[i + 3]) {
                            return Some((numeric_char(o1 * 64 + o2 * 8 + o3), i + 4));
                        }
                    }
                    return Some((numeric_char(o1 * 8 + o2), i + 3));
                }
            }
            return Some((numeric_char(o1), i + 2));
        }
    }
    None
}

/// The piece of `w` that starts at `i`, and where the next one starts.
pub fn next_piece(w: &Vec<char>, i: usize) -> (r: Result<(Piece, usize), String>)
    requires
        i < w@.len(),
    ensures
        r matches Ok((p, n)) ==> piece_at(w@, i as int) == Ok::<(PieceView, int), Seq<char>>(
            (p@, n as int),
        ),
        r matches Err(m) ==> piece_at(w@, i as int) == Err::<(PieceView, int), Seq<char>>(m@),
        r matches Ok((p, n)) ==> i < n <= w@.len(),
{
    let len = w.len();
    let c = w[i];
    if c == '\\' {
        if let Some((x, n)) = scan_numeric_escape(w, i) {
            let mut s = String::new();
            crate::text::push_char(&mut s, x);
            assert(s@ =~= seq![x]);
            Ok((Piece::Text(s), n))
        } else if w.len() - i > 1 {
            let e = w[i + 1];
            let x = if e == 'n' {
                '\n'
            } else if e == 't' {
                '\t'
            } else if e == 'r' {
                '\r'
            } else {
                e
            };
            let mut s = String::new();
            crate::text::push_char(&mut s, x);
            assert(s@ =~= seq![escaped(w@[i + 1])]);
            Ok((Piece::Text(s), i + 2))
        } else {
            let mut s = String::new();
            crate::text::push_char(&mut s, '\\');
            assert(s@ =~= seq!['\\']);
            Ok((Piece::Text(s), i + 1))
        }
    } else if c == '$' {
        if w.len() - i > 1 && w[i + 1] == '{' {
            let j = scan_for(w, i + 2, '}');
            if j < w.len() {
                Ok((Piece::Var(string_of(w, i + 2, j)), j + 1))
            } else {
                Err(String::from_str("missing close-brace for variable name"))
            }
        } else {
            let e = scan_name(w, i + 1);
            if e > i + 1 {
                Ok((Piece::Var(string_of(w, i + 1, e)), e))
            } else {
                let mut s = String::new();
                crate::text::push_char(&mut s, '$');
                assert(s@ =~= seq!['$']);
                Ok((Piece::Text(s), i + 1))
            }
        }
    } else if c == '[' {
        let j = scan_bracket(w, i + 1);
        if j < w.len() {
            Ok((Piece::Script(string_of(w, i + 1, j)), j + 1))
        } else {
            Err(String::from_str("missing close-bracket"))
        }
    } else {
        let mut s = String::new();
        crate::text::push_char(&mut s, c);
        assert(s@ =~= seq![c]);
        Ok((Piece::Text(s), i + 1))
    }
}

/// Cuts `w` into its pieces, left to right.
pub fn parse_pieces(w: &Vec<char>) -> (r: Result<Vec<Piece>, String>)
    ensures
        r matches Ok(v) ==> pieces_from(w@, 0) == Ok::<Seq<PieceView>, Seq<char>>(
            pieces_view(v@),
        ),
        r matches Err(m) ==> pieces_from(w@, 0) == Err::<Seq<PieceView>, Seq<char>>(m@),
{
    let mut out: Vec<Piece> = Vec::new();
    let mut i: usize = 0;
    assert(pieces_view(out@) =~= Seq::<PieceView>::empty());
    assert(after(pieces_view(out@), pieces_from(w@, 0)) =~= pieces_from(w@, 0));
    while i < w.len()
        invariant
            i <= w@.len(),
            after(pieces_view(out@), pieces_from(w@, i as int)) == pieces_from(w@, 0),
        decreases w@.len() - i,
    {
        match next_piece(w, i) {
            Ok((p, n)) => {
                let ghost before = pieces_view(out@);
                out.push(p);
                assert(pieces_view(out@) =~= before + seq![p@]);
                proof {
                    if let Ok(rest) = pieces_from(w@, n as int) {
                        assert(before + (seq![p@] + rest) =~= (before + seq![p@]) + rest);
                    }
                }
                i = n;
            },
            Err(m) => {
                return Err(m);
            },
        }
    }
    assert(pieces_view(out@) + Seq::<PieceView>::empty() =~= pieces_view(out@));
    Ok(out)
}

/// `s` holds no bracket.
pub open spec fn bracket_free(s: Seq<char>) -> bool {
    forall|k: int| 0 <= k < s.len() ==> #[trigger] s[k] != '[' && s[k] != ']'
}

proof fn lemma_bracket_close_plain(w: Seq<char>, i: int, j: int)
    requires
        0 <= i <= j < w.len(),
        w[j] == ']',
        forall|k: int| i <= k < j ==> #[trigger] w[k] != '[' && w[k] != ']',
    ensures
        bracket_close(w, i, 1) == j,
    decreases j - i,
{
    if i < j {
        lemma_bracket_close_plain(w, i + 1, j);
    }
}

/// Two bracketed scripts side by side are two nested scripts, in the order in
/// which they stand, each with its text as written.
pub proof fn lemma_scripts_in_order(a: Seq<char>, b: Seq<char>)
    requires
        bracket_free(a),
        bracket_free(b),
    ensures
        pieces_from(seq!['['] + a + seq![']'] + seq!['['] + b + seq![']'], 0) == Ok::<
            Seq<PieceView>,
            Seq<char>,
        >(seq![PieceView::Script(a), PieceView::Script(b)]),
{
    let w = seq!['['] + a + seq![']'] + seq!['['] + b + seq![']'];
    let n = a.len() as int;
    let m = b.len() as int;
    let p = n + 2;
    assert forall|k: int| 1 <= k < n + 1 implies #[trigger] w[k] != '[' && w[k] != ']' by {
        assert(w[k] == a[k - 1]);
    }
    lemma_bracket_close_plain(w, 1, n + 1);
    assert(w.subrange(1, n + 1) =~= a);
    assert forall|k: int| p + 1 <= k < p + 1 + m implies #[trigger] w[k] != '[' && w[k]
        != ']' by {
        assert(w[k] == b[k - p - 1]);
    }
    assert(w[p] == '[');
    assert(w[p + 1 + m] == ']');
    lemma_bracket_close_plain(w, p + 1, p + 1 + m);
    assert(w.subrange(p + 1, p + 1 + m) =~= b);
    assert(pieces_from(w, w.len() as int) == Ok::<Seq<PieceView>, Seq<char>>(Seq::empty()));
    assert(pieces_from(w, p) == Ok::<Seq<PieceView>, Seq<char>>(seq![PieceView::Script(b)]
        + Seq::<PieceView>::empty()));
    assert(seq![PieceView::Script(b)] + Seq::<PieceView>::empty() =~= seq![PieceView::Script(b)]);
    assert(seq![PieceView::Script(a)] + seq![PieceView::Script(b)] =~= seq![
        PieceView::Script(a),
        PieceView::Script(b),
    ]);
}

} // verus!
