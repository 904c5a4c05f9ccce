use vstd::prelude::*;
use crate::node::Loc;

verus! {

/// The kinds of error the core surfaces.
///
/// `SyntaxError` is raised at compile time, on a malformed tree shape the
/// compiler cannot lower.  The others are raised at run time: `NoMethod`
/// when operand types fall outside an operator's coercion matrix,
/// `Unimplemented` when execution reaches a path the core does not
/// implement, `Name` on naming violations.  `Assertion` is the outcome of a
/// failed `assert` built-in: the embedder is expected to abort the host
/// process with its message rather than report it as an ordinary error.
#[derive(Debug, Clone, Copy, PartialEq, Eq, Structural)]
pub enum RubyErrKind {
    SyntaxError,
    NoMethod,
    Unimplemented,
    Name,
    Assertion,
}

/// An error bubbling out of compilation or execution, with the source
/// position the machine held when it arose.
#[derive(Debug)]
pub struct RubyError {
    pub kind: RubyErrKind,
    pub message: String,
    pub loc: Loc,
}

impl RubyError {
    pub fn new(kind: RubyErrKind, message: String, loc: Loc) -> (e: RubyError)
        ensures
            e.kind == kind,
            e.message == message,
            e.loc == loc,
    {
        RubyError { kind, message, loc }
    }
}

} // verus!
