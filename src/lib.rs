//! An embeddable interpreter core for a small Tcl-like command language.
use vstd::prelude::*;

pub mod interp;
pub mod lexer;
pub mod list;
pub mod pieces;
pub mod scope;
pub mod text;
pub mod types;
pub mod words;

pub use crate::list::get_list;
pub use crate::text::{join, join_range, parsed_i64, words_of};
use crate::text::{parse_i64, same_text};
pub use crate::types::{InterpResult, MoltInteger, ResultCode, Subcommand, error_text};

verus! {

/// Returns an `Error` result carrying `msg`.
pub fn error(msg: &str) -> (r: InterpResult)
    ensures
        r matches Err(ResultCode::Error(m)) && m@ == msg@,
{
    Err(ResultCode::Error(String::from_str(msg)))
}

/// Returns an `Ok` result with an empty string.
pub fn okay() -> (r: InterpResult)
    ensures
        r matches Ok(s) && s@ == Seq::<char>::empty(),
{
    Ok(String::new())
}


/// The message of a failed arity check: the command's name words, then the
/// signature of the arguments it expects.
pub open spec fn wrong_args_message(name: Seq<Seq<char>>, argsig: Seq<char>) -> Seq<char> {
    "wrong # args: should be \""@ + join(name, " "@) + " "@ + argsig + "\""@
}

/// Whether `len` words lie within `min..=max`, where a `max` of zero puts no
/// upper bound.
pub open spec fn arity_ok(len: int, min: int, max: int) -> bool {
    min <= len && (max == 0 || len <= max)
}

/// Checks that a command's argument list has an acceptable length. `argv[0]`
/// is the command's name and is counted; `argv[0..namec]` is the name shown in
/// the message, so `namec` may exceed the length only where no message is
/// made.
pub fn check_args(namec: usize, argv: &[&str], min: usize, max: usize, argsig: &str) -> (r:
    InterpResult)
    requires
        namec >= 1,
        min >= 1,
        argv@.len() >= 1,
        namec <= argv@.len() || arity_ok(argv@.len() as int, min as int, max as int),
    ensures
        arity_ok(argv@.len() as int, min as int, max as int) ==> (r matches Ok(s) && s@
            == Seq::<char>::empty()),
        !arity_ok(argv@.len() as int, min as int, max as int) ==> error_text(r) == Some(
            wrong_args_message(words_of(argv@.subrange(0, namec as int)), argsig@),
        ),
{
    if argv.len() < min || (max > 0 && argv.len() > max) {
        let mut msg = String::from_str("wrong # args: should be \"");
        let name = join_range(argv, 0, namec, " ");
        msg.append(name.as_str());
        msg.append(" ");
        msg.append(argsig);
        msg.append("\"");
        Err(ResultCode::Error(msg))
    } else {
        okay()
    }
}


/// The message given for a value that is not an integer.
pub open spec fn not_integer_message(arg: Seq<char>) -> Seq<char> {
    "expected integer but got \""@ + arg + "\""@
}

/// Reads `arg` as an integer.
pub fn get_integer(arg: &str) -> (r: Result<MoltInteger, ResultCode>)
    ensures
        parsed_i64(arg@) matches Some(n) ==> r == Ok::<MoltInteger, ResultCode>(n),
        parsed_i64(arg@) is None ==> (r matches Err(ResultCode::Error(m)) && m@
            == not_integer_message(arg@)),
{
    match parse_i64(arg) {
        Some(n) => Ok(n),
        None => {
            let mut msg = String::from_str("expected integer but got \"");
            msg.append(arg);
            msg.append("\"");
            Err(ResultCode::Error(msg))
        },
    }
}

/// The list of valid names in the message of an unknown subcommand. With two
/// names the separator before "or" is written twice.
pub open spec fn subcommand_listing(names: Seq<Seq<char>>) -> Seq<char> {
    if names.len() <= 1 {
        join(names, ", "@)
    } else {
        names[0] + ", "@ + join(names.subrange(1, names.len() - 1), ", "@) + ", or "@
            + names.last()
    }
}

/// The names of the entries of a subcommand table.
pub open spec fn subcommand_names<H>(subs: Seq<Subcommand<H>>) -> Seq<Seq<char>> {
    subs.map_values(|s: Subcommand<H>| s.0@)
}

/// The message given for a name that no entry of the table has.
pub open spec fn unknown_subcommand_message(sub: Seq<char>, names: Seq<Seq<char>>) -> Seq<
    char,
> {
    "unknown or ambiguous subcommand \""@ + sub + "\": must be "@ + subcommand_listing(names)
}

/// Finds the first entry of `subs` named exactly `sub`.
pub fn get_subcommand<'a, H>(subs: &'a [Subcommand<H>], sub: &str) -> (r: Result<
    &'a Subcommand<H>,
    ResultCode,
>)
    requires
        subs@.len() >= 1,
    ensures
        r matches Ok(s) ==> exists|i: int|
            0 <= i < subs@.len() && *s == subs@[i] && subs@[i].0@ == sub@ && forall|j: int|
                0 <= j < i ==> (#[trigger] subs@[j]).0@ != sub@,
        r is Err <==> forall|i: int| 0 <= i < subs@.len() ==> (#[trigger] subs@[i]).0@ != sub@,
        r matches Err(e) ==> (e matches ResultCode::Error(m) && m@
            == unknown_subcommand_message(sub@, subcommand_names(subs@))),
{
    let mut i: usize = 0;
    while i < subs.len()
        invariant
            i <= subs@.len(),
            forall|j: int| 0 <= j < i ==> (#[trigger] subs@[j]).0@ != sub@,
        decreases subs@.len() - i,
    {
        if same_text(subs[i].0, sub) {
            return Ok(&subs[i]);
        }
        i = i + 1;
    }
    let n = subs.len();
    let ghost names = subcommand_names(subs@);
    let mut listing = String::from_str(subs[0].0);
    if n > 1 {
        listing.append(", ");
        let mut k: usize = 1;
        let mut middle = String::new();
        while k < n - 1
            invariant
                1 <= k <= n - 1,
                n == subs@.len(),
                names == subcommand_names(subs@),
                middle@ == join(names.subrange(1, k as int), ", "@),
            decreases n - 1 - k,
        {
            if k > 1 {
                middle.append(", ");
            }
            middle.append(subs[k].0);
            assert(names.subrange(1, k + 1).drop_last() =~= names.subrange(1, k as int));
            k = k + 1;
        }
        listing.append(middle.as_str());
        listing.append(", or ");
        listing.append(subs[n - 1].0);
    } else {
        assert(names =~= seq![subs@[0].0@]);
    }
    let mut msg = String::from_str("unknown or ambiguous subcommand \"");
    msg.append(sub);
    msg.append("\": must be ");
    msg.append(listing.as_str());
    Err(ResultCode::Error(msg))
}

} // verus!
