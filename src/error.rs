//! Error values reported by the codecs and by argument handling.
use vstd::prelude::*;

verus! {

/// Errors of the command-line layer.
#[derive(Debug)]
pub enum CliError {
    /// An unrecognized argument was provided.
    UnknownArgument { name: String },
    /// A required argument was not provided.
    MissingArgument { name: String },
    /// An argument was provided without its expected value.
    MissingValue { name: String },
    /// An unsupported or unknown format was specified.
    InvalidFormat { name: String },
    /// An I/O error occurred while opening or reading a file.
    IO { message: String },
    /// A codec failed on its input.
    Parser(ParserError),
}

/// Errors of the codecs: malformed input, or a failure of the transport.
#[derive(Debug)]
pub enum ParserError {
    /// The record data is malformed or misses required fields.
    InvalidRecord { message: String },
    /// Reading or writing the underlying stream failed.
    IO { message: String },
}

impl ParserError {
    /// This is a malformed-input error carrying exactly the message `msg`.
    pub open spec fn is_invalid(&self, msg: Seq<char>) -> bool {
        self matches ParserError::InvalidRecord { message } && message@ == msg
    }
}

/// `r` is the executable counterpart of the modelled outcome `m`: the same
/// value on success, a malformed-input error with the same message on failure.
pub open spec fn outcome_matches<T: View>(r: Result<T, ParserError>, m: Result<T::V, Seq<char>>) -> bool {
    match m {
        Ok(v) => r matches Ok(x) && x@ == v,
        Err(msg) => r matches Err(e) && e.is_invalid(msg),
    }
}

/// Builds a malformed-input error with the given message.
pub fn invalid_record(msg: &str) -> (r: ParserError)
    ensures
        r.is_invalid(msg@),
{
    ParserError::InvalidRecord { message: msg.to_string() }
}

} // verus!

verus! {

/// The outcome `rest`, with the records `done` put before its records.
pub open spec fn after<T>(done: Seq<T>, rest: Result<Seq<T>, Seq<char>>) -> Result<Seq<T>, Seq<char>> {
    match rest {
        Ok(rs) => Ok(done + rs),
        Err(m) => Err(m),
    }
}

} // verus!
