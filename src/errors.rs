//! The failures of a compilation.
use vstd::prelude::*;

verus! {

/// What kind of failure stopped a compilation.
#[derive(Debug, Clone, Copy, PartialEq, Eq, Structural)]
pub enum ErrorKind {
    /// The program is wrong: a variable that no scope declares.
    Compilation,
    /// The syntax tree holds a node kind that the compiler has no rule for.
    UnknownNode,
    /// A fixed-size resource of the target machine ran out (registers, upvalues, constants).
    Exhausted,
    /// The compiler broke one of its own invariants (an unresolved jump, an operand that does not fit).
    Internal,
}

/// A failure, with the message that is shown to the user.
pub struct LKQLError {
    pub kind: ErrorKind,
    pub message: String,
}

impl LKQLError {
    /// An ordinary compilation failure, caused by the program being compiled.
    pub fn new(message: String) -> (r: LKQLError)
        ensures
            r.kind == ErrorKind::Compilation,
            r.message@ == message@,
    {
        LKQLError { kind: ErrorKind::Compilation, message }
    }

    /// A failure of the given kind.
    pub fn with_kind(kind: ErrorKind, message: String) -> (r: LKQLError)
        ensures
            r.kind == kind,
            r.message@ == message@,
    {
        LKQLError { kind, message }
    }
}

} // verus!
