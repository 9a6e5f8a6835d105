//! Small operations on text that the messages and codecs are built from.
use vstd::prelude::*;

verus! {

/// The character views of a slice of words.
pub open spec fn words_of(ws: Seq<&str>) -> Seq<Seq<char>> {
    ws.map_values(|w: &str| w@)
}

/// `words` with `sep` between each two neighbours.
pub open spec fn join(words: Seq<Seq<char>>, sep: Seq<char>) -> Seq<char>
    decreases words.len(),
{
    if words.len() == 0 {
        Seq::empty()
    } else if words.len() == 1 {
        words[0]
    } else {
        join(words.drop_last(), sep) + sep + words.last()
    }
}

/// Joins `ws[from..to]` with `sep` between neighbours.
pub fn join_range(ws: &[&str], from: usize, to: usize, sep: &str) -> (r: String)
    requires
        from <= to <= ws@.len(),
    ensures
        r@ == join(words_of(ws@.subrange(from as int, to as int)), sep@),
{
    let mut r = String::new();
    if from == to {
        assert(words_of(ws@.subrange(from as int, to as int)) =~= Seq::<Seq<char>>::empty());
        return r;
    }
    r.append(ws[from]);
    assert(words_of(ws@.subrange(from as int, from + 1)) =~= seq![ws@[from as int]@]);
    let mut i: usize = from + 1;
    while i < to
        invariant
            from < i <= to <= ws@.len(),
            r@ == join(words_of(ws@.subrange(from as int, i as int)), sep@),
        decreases to - i,
    {
        r.append(sep);
        r.append(ws[i]);
        assert(words_of(ws@.subrange(from as int, i + 1)).drop_last()
            =~= words_of(ws@.subrange(from as int, i as int)));
        i = i + 1;
    }
    r
}


/// Whether `d` is a non-empty run of ASCII decimal digits.
pub open spec fn is_decimal(d: Seq<char>) -> bool {
    d.len() > 0 && forall|i: int| 0 <= i < d.len() ==> '0' <= #[trigger] d[i] <= '9'
}

/// The number that a run of decimal digits writes.
pub open spec fn decimal_value(d: Seq<char>) -> int
    decreases d.len(),
{
    if d.len() == 0 {
        0
    } else {
        decimal_value(d.drop_last()) * 10 + (d.last() as int - '0' as int)
    }
}

/// The integer that `s` writes as an optional sign followed by decimal digits,
/// with no other character, or `None`.
pub open spec fn integer_value(s: Seq<char>) -> Option<int> {
    if s.len() > 0 && s[0] == '-' && is_decimal(s.drop_first()) {
        Some(-decimal_value(s.drop_first()))
    } else if s.len() > 0 && s[0] == '+' && is_decimal(s.drop_first()) {
        Some(decimal_value(s.drop_first()))
    } else if is_decimal(s) {
        Some(decimal_value(s))
    } else {
        None
    }
}

/// The `i64` that `s` writes, or `None` where it writes none or one out of range.
pub open spec fn parsed_i64(s: Seq<char>) -> Option<i64> {
    match integer_value(s) {
        Some(v) => if i64::MIN <= v <= i64::MAX {
            Some(v as i64)
        } else {
            None
        },
        None => None,
    }
}

/// Relies on `<i64 as FromStr>::from_str`: it accepts an optional `+` or `-`
/// followed by decimal digits and nothing else, and fails where the value
/// does not fit.
#[verifier::external_body]
pub(crate) fn parse_i64(s: &str) -> (r: Option<i64>)
    ensures
        r == parsed_i64(s@),
{
    match s.parse::<i64>() {
        Ok(n) => Some(n),
        Err(_) => None,
    }
}


/// Whether two texts hold the same characters.
pub fn same_text(a: &str, b: &str) -> (r: bool)
    ensures
        r == (a@ == b@),
{
    let x = String::from_str(a);
    let y = String::from_str(b);
    x == y
}


/// The characters of `s`, one by one.
pub fn chars_of(s: &str) -> (r: Vec<char>)
    ensures
        r@ == s@,
{
    let n = s.unicode_len();
    let mut r: Vec<char> = Vec::new();
    let mut i: usize = 0;
    while i < n
        invariant
            n == s@.len(),
            i <= n,
            r@ == s@.subrange(0, i as int),
        decreases n - i,
    {
        r.push(s.get_char(i));
        i = i + 1;
        assert(r@ =~= s@.subrange(0, i as int));
    }
    assert(r@ =~= s@);
    r
}

/// Relies on `String::push`: appends one character at the end.
#[verifier::external_body]
pub(crate) fn push_char(s: &mut String, c: char)
    ensures
        final(s)@ == old(s)@.push(c),
{
    s.push(c)
}

/// The text made of `v[from..to]`.
pub fn string_of(v: &Vec<char>, from: usize, to: usize) -> (r: String)
    requires
        from <= to <= v@.len(),
    ensures
        r@ == v@.subrange(from as int, to as int),
{
    let mut r = String::new();
    let mut i: usize = from;
    while i < to
        invariant
            from <= i <= to <= v@.len(),
            r@ == v@.subrange(from as int, i as int),
        decreases to - i,
    {
        push_char(&mut r, v[i]);
        i = i + 1;
        assert(r@ =~= v@.subrange(from as int, i as int));
    }
    r
}

} // verus!
