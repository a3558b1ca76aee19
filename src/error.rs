use vstd::prelude::*;

verus! {

/// The kinds of failure that tree operations report.
#[derive(Clone, Copy, Debug, PartialEq, Eq, Structural)]
pub enum ErrorKind {
    /// An operation applied to the wrong kind of node.
    TypeError,
    /// A handle whose tree or node does not resolve.
    NotFound,
    /// A namespace prefix without a declaration.
    NamespaceError,
    /// An extension point that has no implementation.
    NotImplemented,
    /// Text that is not well-formed XML.
    ParseError,
}

/// An error: its kind, and a message for people.
#[derive(Clone, Debug)]
pub struct Error {
    pub kind: ErrorKind,
    pub message: String,
}

impl Error {
    pub fn new(kind: ErrorKind, message: String) -> (r: Error)
        ensures
            r.kind == kind,
            r.message == message,
    {
        Error { kind, message }
    }
}

} // verus!
