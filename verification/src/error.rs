//! The errors of the compiler and of the virtual machine.

use vstd::prelude::*;
use crate::lex::Span;

verus! {

/// What went wrong.
#[derive(Clone, Copy, Debug, PartialEq, Eq, Structural)]
pub enum ErrorKind {
    /// Two declarations share a signature.
    DuplicateState,
    /// No state `start` without parameters is declared. The error has no
    /// place in the source: no token is at fault.
    NoStart,
    /// A call names a signature that no declaration has.
    NoSuchFunction,
    /// A parameter name occurs twice in one list.
    DuplicateParameter,
    /// More than 256 parameters of one kind.
    TooManyParameters,
    /// More than 65535 declarations.
    TooManyStates,
    /// More than 65536 distinct symbols.
    TooManySymbols,
    /// The skip over an arm does not fit in 16 bits.
    ArmTooLarge,
    /// The last arm matches a literal or a symbol parameter.
    LastArmNotCatchall,
    /// An arm before the last one is a catch-all.
    CatchallNotLast,
    /// A name is neither a symbol parameter nor the catch-all binding.
    UnresolvedName,
    /// A state parameter is called with arguments.
    StateParamNotCallable,
    /// The source is empty.
    EmptyFile,
    /// A tab stands in the source, and tabs are not allowed.
    TabNotAllowed,
    /// A character that starts no token.
    UnexpectedCharacter,
    /// A backslash in a symbol before anything but a backslash or a quote.
    InvalidEscape,
    /// A character in a symbol that cannot be shown as it is.
    WeirdCharacter,
    /// A symbol without its closing quote.
    UnterminatedSymbol,
    /// A token that cannot stand where it stands.
    UnexpectedToken,
    /// The virtual machine met an unknown opcode, ran off the end of the
    /// program, or was handed an argument index that does not exist.
    InvalidBytecode,
}

/// What an error says apart from its message: its kind and its place.
pub struct Failure {
    pub kind: ErrorKind,
    pub span: Option<Span>,
}

/// An error with a message for people and, where there is one, the place in
/// the source that it is about.
#[derive(Debug)]
pub struct Error {
    pub kind: ErrorKind,
    pub msg: String,
    pub span: Option<Span>,
}

impl View for Error {
    type V = Failure;

    open spec fn view(&self) -> Failure {
        Failure { kind: self.kind, span: self.span }
    }
}

impl Error {
    /// A copy.
    pub fn copy(&self) -> (e: Error)
        ensures
            e@ == self@,
            e.msg@ == self.msg@,
    {
        Error { kind: self.kind, msg: self.msg.clone(), span: self.span }
    }

    pub fn new(kind: ErrorKind, msg: String, span: Option<Span>) -> (e: Error)
        ensures
            e.kind == kind,
            e.msg == msg,
            e.span == span,
    {
        Error { kind, msg, span }
    }
}

} // verus!
