//! The error boundary of the library.
use vstd::prelude::*;

verus! {

/// Result type used by the memory engine.
pub type MemoryResult<T> = Result<T, MemoryError>;

/// Typed error boundary for storage, parsing, and invalid caller input. Errors that come from
/// outside carry the text that their source gave them.
#[derive(Clone, Debug, PartialEq, Eq)]
pub enum MemoryError {
    Io(String),
    Sqlite(String),
    Json(String),
    InvalidInput(String),
}

/// What an error says.
pub enum ErrorModel {
    Io(Seq<char>),
    Sqlite(Seq<char>),
    Json(Seq<char>),
    InvalidInput(Seq<char>),
}

impl View for MemoryError {
    type V = ErrorModel;

    open spec fn view(&self) -> ErrorModel {
        match self {
            MemoryError::Io(text) => ErrorModel::Io(text@),
            MemoryError::Sqlite(text) => ErrorModel::Sqlite(text@),
            MemoryError::Json(text) => ErrorModel::Json(text@),
            MemoryError::InvalidInput(text) => ErrorModel::InvalidInput(text@),
        }
    }
}

impl ErrorModel {
    /// The error as one line of text.
    pub open spec fn line(self) -> Seq<char> {
        match self {
            ErrorModel::Io(text) => "io error: "@ + text,
            ErrorModel::Sqlite(text) => "sqlite error: "@ + text,
            ErrorModel::Json(text) => "json error: "@ + text,
            ErrorModel::InvalidInput(text) => "invalid input: "@ + text,
        }
    }
}

/// The error of a result, where there is one.
pub open spec fn failure<T>(result: MemoryResult<T>) -> Option<ErrorModel> {
    match result {
        Ok(_) => None,
        Err(error) => Some(error@),
    }
}

/// The error that reports a problem with the input, where there is a problem.
pub open spec fn rejection(problem: Option<Seq<char>>) -> Option<ErrorModel> {
    match problem {
        None => None,
        Some(text) => Some(ErrorModel::InvalidInput(text)),
    }
}

/// The first problem of two.
pub open spec fn either_problem(
    first: Option<Seq<char>>,
    second: Option<Seq<char>>,
) -> Option<Seq<char>> {
    if first is Some {
        first
    } else {
        second
    }
}

impl MemoryError {
    /// The error that rejects the caller's input.
    pub fn invalid(message: &str) -> (r: Self)
        ensures
            r@ == ErrorModel::InvalidInput(message@),
    {
        MemoryError::InvalidInput(message.to_owned())
    }

    /// The error as one line of text.
    pub fn message(&self) -> (r: String)
        ensures
            r@ == self@.line(),
    {
        match self {
            MemoryError::Io(text) => "io error: ".to_owned().concat(text.as_str()),
            MemoryError::Sqlite(text) => "sqlite error: ".to_owned().concat(text.as_str()),
            MemoryError::Json(text) => "json error: ".to_owned().concat(text.as_str()),
            MemoryError::InvalidInput(text) => "invalid input: ".to_owned().concat(text.as_str()),
        }
    }
}

} // verus!
