//! The errors that end a merge.
use vstd::prelude::*;
use vstd::string::StringExecFns;

verus! {

/// Why a merge could not be carried out.
#[derive(Debug, Clone, PartialEq, Eq)]
pub enum MergeError {
    /// A key is defined by two files: the key, the file that repeats it, and
    /// the file that defined it first.
    DuplicateKey(String, String, String),
    /// The pattern matched no file.
    NoFileFound(String),
    /// The existing document is not valid TOML; holds the parser's message.
    ParseError(String),
    /// Reading or writing failed; holds the cause.
    IoError(String),
    /// The existing document binds the section's name to a value that is not
    /// a table.
    SectionNotTable,
    /// The merged document could not be written as text; holds the
    /// serializer's message.
    SerializeError(String),
    /// The written document has no line that heads the section, or fewer
    /// lines after it than the section has entries.
    MarkerOutOfRange,
}

/// Mathematical form of a `MergeError`.
pub enum MergeErrorView {
    DuplicateKey(Seq<char>, Seq<char>, Seq<char>),
    NoFileFound(Seq<char>),
    ParseError(Seq<char>),
    IoError(Seq<char>),
    SectionNotTable,
    SerializeError(Seq<char>),
    MarkerOutOfRange,
}

impl View for MergeError {
    type V = MergeErrorView;

    open spec fn view(&self) -> MergeErrorView {
        match self {
            MergeError::DuplicateKey(key, current, previous) => MergeErrorView::DuplicateKey(
                key@,
                current@,
                previous@,
            ),
            MergeError::NoFileFound(pattern) => MergeErrorView::NoFileFound(pattern@),
            MergeError::ParseError(message) => MergeErrorView::ParseError(message@),
            MergeError::IoError(message) => MergeErrorView::IoError(message@),
            MergeError::SectionNotTable => MergeErrorView::SectionNotTable,
            MergeError::SerializeError(message) => MergeErrorView::SerializeError(message@),
            MergeError::MarkerOutOfRange => MergeErrorView::MarkerOutOfRange,
        }
    }
}

impl MergeErrorView {
    /// The text that describes the error to a person.
    pub open spec fn message(self) -> Seq<char> {
        match self {
            MergeErrorView::DuplicateKey(key, current, previous) => "Duplicate key: "@ + key
                + " in "@ + current + " and "@ + previous,
            MergeErrorView::NoFileFound(pattern) => "No file found for the pattern: "@ + pattern,
            MergeErrorView::ParseError(message) => message,
            MergeErrorView::IoError(message) => message,
            MergeErrorView::SectionNotTable => "The env section is not a table"@,
            MergeErrorView::SerializeError(message) => message,
            MergeErrorView::MarkerOutOfRange => "The section was not found in the written document"@,
        }
    }
}

impl MergeError {
    /// The text that describes the error to a person.
    pub fn to_string(&self) -> (s: String)
        ensures
            s@ == self@.message(),
    {
        match self {
            MergeError::DuplicateKey(key, current, previous) => {
                let mut s = String::from_str("Duplicate key: ");
                s.append(key.as_str());
                s.append(" in ");
                s.append(current.as_str());
                s.append(" and ");
                s.append(previous.as_str());
                s
            },
            MergeError::NoFileFound(pattern) => {
                let mut s = String::from_str("No file found for the pattern: ");
                s.append(pattern.as_str());
                s
            },
            MergeError::ParseError(message) => message.clone(),
            MergeError::IoError(message) => message.clone(),
            MergeError::SectionNotTable => String::from_str("The env section is not a table"),
            MergeError::SerializeError(message) => message.clone(),
            MergeError::MarkerOutOfRange => String::from_str(
                "The section was not found in the written document",
            ),
        }
    }
}

} // verus!
