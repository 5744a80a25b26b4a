//! The two kinds of failure a group reports.

use vstd::prelude::*;
use vstd::string::*;

verus! {

/// What went wrong, with a message for a human reader.
#[derive(Debug, PartialEq, Eq)]
pub enum Error {
    /// The group was misused: a join was asked of a group with nothing pending.
    ThreadGroupError(String),
    /// A task could not be launched, or ended abnormally.
    ThreadJoinError(String),
}

/// The mathematical content of an [`Error`]: its kind and the characters of
/// its message.
pub enum ErrorView {
    ThreadGroupError(Seq<char>),
    ThreadJoinError(Seq<char>),
}

impl ErrorView {
    /// The name of the kind, as text.
    pub open spec fn variant(self) -> Seq<char> {
        match self {
            ErrorView::ThreadGroupError(_) => "ThreadGroupError"@,
            ErrorView::ThreadJoinError(_) => "ThreadJoinError"@,
        }
    }

    /// The message carried.
    pub open spec fn message(self) -> Seq<char> {
        match self {
            ErrorView::ThreadGroupError(m) => m,
            ErrorView::ThreadJoinError(m) => m,
        }
    }

    /// The kind's name followed by a colon and a space.
    pub open spec fn prefix(self) -> Seq<char> {
        self.variant() + ": "@
    }

    /// The full rendering: prefix, then message.
    pub open spec fn rendered(self) -> Seq<char> {
        self.prefix() + self.message()
    }
}

impl View for Error {
    type V = ErrorView;

    open spec fn view(&self) -> ErrorView {
        match self {
            Error::ThreadGroupError(m) => ErrorView::ThreadGroupError(m@),
            Error::ThreadJoinError(m) => ErrorView::ThreadJoinError(m@),
        }
    }
}

impl Error {
    /// The name of this error's kind.
    pub fn variant(&self) -> (name: String)
        ensures
            name@ == self@.variant(),
    {
        match self {
            Error::ThreadGroupError(_) => String::from_str("ThreadGroupError"),
            Error::ThreadJoinError(_) => String::from_str("ThreadJoinError"),
        }
    }

    /// The text that precedes the message when the error is rendered. Every
    /// kind has one.
    pub fn prefix(&self) -> (text: Option<String>)
        ensures
            text matches Some(p) && p@ == self@.prefix(),
    {
        let mut p = self.variant();
        p.append(": ");
        Some(p)
    }

    /// The message, without the prefix.
    pub fn message(&self) -> (text: &str)
        ensures
            text@ == self@.message(),
    {
        match self {
            Error::ThreadGroupError(m) => m.as_str(),
            Error::ThreadJoinError(m) => m.as_str(),
        }
    }

    /// Renders the error as `"<kind>: <message>"`.
    pub fn to_string(&self) -> (text: String)
        ensures
            text@ == self@.rendered(),
    {
        let mut out = match self.prefix() {
            Some(p) => p,
            None => String::new(),
        };
        out.append(self.message());
        out
    }
}

impl Clone for Error {
    /// A copy with the same kind and the same message.
    fn clone(&self) -> (copy: Error)
        ensures
            copy == *self,
    {
        match self {
            Error::ThreadGroupError(m) => Error::ThreadGroupError(m.clone()),
            Error::ThreadJoinError(m) => Error::ThreadJoinError(m.clone()),
        }
    }
}

} // verus!
