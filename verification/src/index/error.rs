//! What can go wrong with an index.
use crate::text::{decimal, decimal_of, join2, join3};
use vstd::prelude::*;
use vstd::string::*;

verus! {

/// A failure while building, writing or reading an index.
#[allow(inconsistent_fields)]
#[derive(Debug)]
pub enum IndexError {
    Io { path: Option<String>, message: String },
    AlreadyExists(String),
    OutputNotEmpty,
    InvalidArgument(String),
    InvalidFormat { offset: usize, message: String },
    InvalidShard { path: String, line: usize, message: String },
    OutOfOrder,
    Overflow(&'static str),
}

/// The mathematical content of an [`IndexError`].
#[allow(inconsistent_fields)]
pub enum ErrorView {
    Io { path: Option<Seq<char>>, message: Seq<char> },
    AlreadyExists(Seq<char>),
    OutputNotEmpty,
    InvalidArgument(Seq<char>),
    InvalidFormat { offset: usize, message: Seq<char> },
    InvalidShard { path: Seq<char>, line: usize, message: Seq<char> },
    OutOfOrder,
    Overflow(Seq<char>),
}

impl View for IndexError {
    type V = ErrorView;

    open spec fn view(&self) -> ErrorView {
        match *self {
            IndexError::Io { path, message } => ErrorView::Io {
                path: match path {
                    Some(p) => Some(p@),
                    None => None,
                },
                message: message@,
            },
            IndexError::AlreadyExists(path) => ErrorView::AlreadyExists(path@),
            IndexError::OutputNotEmpty => ErrorView::OutputNotEmpty,
            IndexError::InvalidArgument(message) => ErrorView::InvalidArgument(message@),
            IndexError::InvalidFormat { offset, message } => ErrorView::InvalidFormat {
                offset,
                message: message@,
            },
            IndexError::InvalidShard { path, line, message } => ErrorView::InvalidShard {
                path: path@,
                line,
                message: message@,
            },
            IndexError::OutOfOrder => ErrorView::OutOfOrder,
            IndexError::Overflow(what) => ErrorView::Overflow(what@),
        }
    }
}

/// A fault in the bytes of an index.
pub open spec fn format_fault(offset: usize, message: Seq<char>) -> ErrorView {
    ErrorView::InvalidFormat { offset, message }
}

/// The text of an error.
pub open spec fn error_text(e: ErrorView) -> Seq<char> {
    match e {
        ErrorView::Io { path: Some(path), message } => "I/O error for "@ + path + ": "@ + message,
        ErrorView::Io { path: None, message } => "I/O error: "@ + message,
        ErrorView::AlreadyExists(path) => "refusing to overwrite existing path: "@ + path,
        ErrorView::OutputNotEmpty => "refusing to overwrite a non-empty output"@,
        ErrorView::InvalidArgument(message) => "invalid argument: "@ + message,
        ErrorView::InvalidFormat { offset, message } => "invalid index at byte "@ + decimal(
            offset as nat,
        ) + ": "@ + message,
        ErrorView::InvalidShard { path, line, message } => "invalid shard "@ + path + " at line "@
            + decimal(line as nat) + ": "@ + message,
        ErrorView::OutOfOrder => "index keys must be supplied in sorted order"@,
        ErrorView::Overflow(what) => "numeric overflow while computing "@ + what,
    }
}

impl IndexError {
    /// A fault in the bytes of an index.
    pub(crate) fn format(offset: usize, message: &str) -> (r: Self)
        ensures
            r@ == format_fault(offset, message@),
    {
        IndexError::InvalidFormat { offset, message: message.to_owned() }
    }

    /// A fault in a text shard.
    pub(crate) fn shard(path: &str, line: usize, message: &str) -> (r: Self)
        ensures
            r@ == (ErrorView::InvalidShard { path: path@, line, message: message@ }),
    {
        IndexError::InvalidShard { path: path.to_owned(), line, message: message.to_owned() }
    }

    /// An argument that cannot be used.
    pub(crate) fn argument(message: &str) -> (r: Self)
        ensures
            r@ == ErrorView::InvalidArgument(message@),
    {
        IndexError::InvalidArgument(message.to_owned())
    }

    /// The error in words.
    pub fn to_text(&self) -> (r: String)
        ensures
            r@ == error_text(self@),
    {
        match self {
            IndexError::Io { path: Some(path), message } => {
                let mut r = join3("I/O error for ", path.as_str(), ": ");
                r.append(message.as_str());
                r
            },
            IndexError::Io { path: None, message } => join2("I/O error: ", message.as_str()),
            IndexError::AlreadyExists(path) => join2(
                "refusing to overwrite existing path: ",
                path.as_str(),
            ),
            IndexError::OutputNotEmpty => "refusing to overwrite a non-empty output".to_owned(),
            IndexError::InvalidArgument(message) => join2("invalid argument: ", message.as_str()),
            IndexError::InvalidFormat { offset, message } => {
                let mut r = join3(
                    "invalid index at byte ",
                    decimal_of(*offset as u64).as_str(),
                    ": ",
                );
                r.append(message.as_str());
                r
            },
            IndexError::InvalidShard { path, line, message } => {
                let mut r = join3("invalid shard ", path.as_str(), " at line ");
                r.append(decimal_of(*line as u64).as_str());
                r.append(": ");
                r.append(message.as_str());
                r
            },
            IndexError::OutOfOrder => "index keys must be supplied in sorted order".to_owned(),
            IndexError::Overflow(what) => join2("numeric overflow while computing ", what),
        }
    }
}

} // verus!
