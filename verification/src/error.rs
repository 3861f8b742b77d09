use vstd::prelude::*;

verus! {

/// What a failed operation reports.
#[derive(Clone, Copy, Debug, PartialEq, Eq)]
pub enum Error {
    /// A token was demanded past the end of the input.
    TruncatedInput,
    /// A token did not have the expected form; `expected` names the keyword
    /// that was looked for, or says `integer` or `end of input` where one of
    /// those was looked for.
    SyntaxError { expected: &'static str },
    /// A name without its class prefix or without a positive decimal suffix.
    MalformedName,
    /// A numeric invariant of the description is violated.
    Corrupt,
    /// The routed segments of a net do not join all of its nodes.
    DisconnectedNet,
    /// The time budget is used up.
    TimeExpired,
    /// Reading or writing a file failed.
    IoError,
}

} // verus!
