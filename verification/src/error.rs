//! Why a Secretfile could not be read.

use vstd::prelude::*;
use vstd::string::StringExecFns;

verus! {

/// Why a Secretfile could not be read.  Every error ends the reading of the
/// whole file.
#[derive(Debug, Clone, PartialEq, Eq)]
pub enum Error {
    /// A path refers to an environment variable that is not defined.  Holds
    /// the variable's name.
    UndefinedEnvironmentVariable(String),
    /// A line is neither blank, nor a comment, nor of the form
    /// `NAME PATH:KEY`.  Holds the line as it was written.
    MalformedLine(String),
    /// The source could not be read as text: a line of it is not valid UTF-8.
    IoFailure,
}

/// An [`Error`] with its strings as sequences of characters.
pub enum ErrorView {
    UndefinedEnvironmentVariable(Seq<char>),
    MalformedLine(Seq<char>),
    IoFailure,
}

impl View for Error {
    type V = ErrorView;

    open spec fn view(&self) -> ErrorView {
        match self {
            Error::UndefinedEnvironmentVariable(name) => ErrorView::UndefinedEnvironmentVariable(
                name@,
            ),
            Error::MalformedLine(line) => ErrorView::MalformedLine(line@),
            Error::IoFailure => ErrorView::IoFailure,
        }
    }
}

impl ErrorView {
    /// The error in words.
    pub open spec fn message(self) -> Seq<char> {
        match self {
            ErrorView::UndefinedEnvironmentVariable(name) => {
                "Secretfile: Environment variable "@ + name + " is not defined"@
            },
            ErrorView::MalformedLine(line) => "Error parsing Secretfile line: "@ + line,
            ErrorView::IoFailure => "stream did not contain valid UTF-8"@,
        }
    }
}

impl Error {
    /// The error in words, for whoever presents it.
    pub fn message(&self) -> (text: String)
        ensures
            text@ == self@.message(),
    {
        match self {
            Error::UndefinedEnvironmentVariable(name) => {
                let mut text = String::from_str("Secretfile: Environment variable ");
                text.append(name.as_str());
                text.append(" is not defined");
                text
            },
            Error::MalformedLine(line) => {
                let mut text = String::from_str("Error parsing Secretfile line: ");
                text.append(line.as_str());
                text
            },
            Error::IoFailure => String::from_str("stream did not contain valid UTF-8"),
        }
    }
}

} // verus!
