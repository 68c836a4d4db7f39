//! The error that catalog-side operations return: a kind and a message.

use vstd::prelude::*;

verus! {

/// What went wrong, without the words.
#[derive(Clone, Copy, Debug, PartialEq, Eq, Structural)]
pub enum ErrorKind {
    SyntaxException,
    BadArguments,
    IllegalDataType,
    UnknownFunction,
    BadDataValueType,
    TooManyUserConnections,
    AbortedSession,
}

/// An error: its kind and a message for the user.
#[derive(Debug)]
pub struct ErrorCode {
    kind: ErrorKind,
    message: String,
}

/// An `ErrorCode` with its message taken by its characters.
pub struct ErrorModel {
    pub kind: ErrorKind,
    pub message: Seq<char>,
}

impl View for ErrorCode {
    type V = ErrorModel;

    closed spec fn view(&self) -> ErrorModel {
        ErrorModel { kind: self.kind, message: self.message@ }
    }
}

impl ErrorCode {
    /// An error of the given kind with the given message.
    pub fn new(kind: ErrorKind, message: String) -> (e: ErrorCode)
        ensures
            e@ == (ErrorModel { kind, message: message@ }),
    {
        ErrorCode { kind, message }
    }

    /// The statement could not be understood.
    pub fn syntax_exception(message: String) -> (e: ErrorCode)
        ensures
            e@ == (ErrorModel { kind: ErrorKind::SyntaxException, message: message@ }),
    {
        ErrorCode { kind: ErrorKind::SyntaxException, message }
    }

    /// An argument is outside what the function accepts.
    pub fn bad_arguments(message: String) -> (e: ErrorCode)
        ensures
            e@ == (ErrorModel { kind: ErrorKind::BadArguments, message: message@ }),
    {
        ErrorCode { kind: ErrorKind::BadArguments, message }
    }

    /// The types cannot be used together.
    pub fn illegal_data_type(message: String) -> (e: ErrorCode)
        ensures
            e@ == (ErrorModel { kind: ErrorKind::IllegalDataType, message: message@ }),
    {
        ErrorCode { kind: ErrorKind::IllegalDataType, message }
    }

    /// The operator or function is not known here.
    pub fn unknown_function(message: String) -> (e: ErrorCode)
        ensures
            e@ == (ErrorModel { kind: ErrorKind::UnknownFunction, message: message@ }),
    {
        ErrorCode { kind: ErrorKind::UnknownFunction, message }
    }

    /// No type can hold the value.
    pub fn bad_data_value_type(message: String) -> (e: ErrorCode)
        ensures
            e@ == (ErrorModel { kind: ErrorKind::BadDataValueType, message: message@ }),
    {
        ErrorCode { kind: ErrorKind::BadDataValueType, message }
    }

    /// Every session slot is taken.
    pub fn too_many_user_connections(message: String) -> (e: ErrorCode)
        ensures
            e@ == (ErrorModel { kind: ErrorKind::TooManyUserConnections, message: message@ }),
    {
        ErrorCode { kind: ErrorKind::TooManyUserConnections, message }
    }

    /// The server is shutting down and takes no new session.
    pub fn aborted_session(message: String) -> (e: ErrorCode)
        ensures
            e@ == (ErrorModel { kind: ErrorKind::AbortedSession, message: message@ }),
    {
        ErrorCode { kind: ErrorKind::AbortedSession, message }
    }

    /// The kind of this error.
    pub fn kind(&self) -> (k: ErrorKind)
        ensures
            k == self@.kind,
    {
        self.kind
    }

    /// The message of this error.
    pub fn message(&self) -> (m: &String)
        ensures
            m@ == self@.message,
    {
        &self.message
    }
}

} // verus!
