//! The value types shared by every part of the interpreter.
use vstd::prelude::*;

verus! {

/// The native integer type that script values are read as.
pub type MoltInteger = i64;

/// A non-`Ok` outcome of an evaluation step: an error, or one of the control
/// signals that travel through the same channel as a normal result.
#[derive(Debug, PartialEq, Eq)]
pub enum ResultCode {
    Error(String),
    Return(String),
    Break,
    Continue,
}

/// What every command and every evaluation step produces.
pub type InterpResult = Result<String, ResultCode>;

/// One entry of an ensemble command's table: the subcommand's name and its
/// handler.
pub struct Subcommand<H>(pub &'static str, pub H);

/// The text of a `ResultCode::Error`, if `r` is one.
pub open spec fn error_text(r: InterpResult) -> Option<Seq<char>> {
    match r {
        Err(ResultCode::Error(m)) => Some(m@),
        _ => None,
    }
}

} // verus!
