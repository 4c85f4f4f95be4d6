//! Errors of the store.
use crate::text::{copied, push_decimal, with_number};
use vstd::prelude::*;
use vstd::string::StringExecFns;

verus! {

/// What can go wrong.
#[derive(Debug)]
pub enum TsinkError {
    /// Persisted data contradicts itself.
    DataCorruption(String),
    /// A request that the configuration rules out.
    InvalidConfiguration(String),
    /// No write slot became free in time.
    WriteTimeout { timeout_ms: u64, workers: usize },
    /// A segment on disk failed validation.
    SegmentValidation { root: String, details: String },
    /// A file that is not there.
    NotFound(String),
    /// Any other failure of the storage underneath.
    Storage(String),
}

/// An error as mathematics: the same cases over character sequences.
pub enum ErrorView {
    DataCorruption(Seq<char>),
    InvalidConfiguration(Seq<char>),
    WriteTimeout { timeout_ms: u64, workers: usize },
    SegmentValidation { root: Seq<char>, details: Seq<char> },
    NotFound(Seq<char>),
    Storage(Seq<char>),
}

impl View for TsinkError {
    type V = ErrorView;

    open spec fn view(&self) -> ErrorView {
        match self {
            TsinkError::DataCorruption(text) => ErrorView::DataCorruption(text@),
            TsinkError::InvalidConfiguration(text) => ErrorView::InvalidConfiguration(text@),
            TsinkError::WriteTimeout { timeout_ms, workers } => ErrorView::WriteTimeout {
                timeout_ms: *timeout_ms,
                workers: *workers,
            },
            TsinkError::SegmentValidation { root, details } => ErrorView::SegmentValidation {
                root: root@,
                details: details@,
            },
            TsinkError::NotFound(text) => ErrorView::NotFound(text@),
            TsinkError::Storage(text) => ErrorView::Storage(text@),
        }
    }
}

/// The text shown for an error.
pub open spec fn error_text(error: ErrorView) -> Seq<char> {
    match error {
        ErrorView::DataCorruption(text) => text,
        ErrorView::InvalidConfiguration(text) => text,
        ErrorView::WriteTimeout { timeout_ms, workers } => "write timed out after "@
            + crate::text::decimal(timeout_ms as nat) + " ms with "@ + crate::text::decimal(
            workers as nat,
        ) + " workers"@,
        ErrorView::SegmentValidation { root, details } => root + ": "@ + details,
        ErrorView::NotFound(text) => text,
        ErrorView::Storage(text) => text,
    }
}

impl TsinkError {
    /// A copy of the error.
    pub fn duplicate(&self) -> (copy: Self)
        ensures
            copy@ == self@,
    {
        match self {
            TsinkError::DataCorruption(text) => TsinkError::DataCorruption(copied(text)),
            TsinkError::InvalidConfiguration(text) => TsinkError::InvalidConfiguration(
                copied(text),
            ),
            TsinkError::WriteTimeout { timeout_ms, workers } => TsinkError::WriteTimeout {
                timeout_ms: *timeout_ms,
                workers: *workers,
            },
            TsinkError::SegmentValidation { root, details } => TsinkError::SegmentValidation {
                root: copied(root),
                details: copied(details),
            },
            TsinkError::NotFound(text) => TsinkError::NotFound(copied(text)),
            TsinkError::Storage(text) => TsinkError::Storage(copied(text)),
        }
    }

    /// The text shown for the error.
    pub fn message(&self) -> (text: String)
        ensures
            text@ == error_text(self@),
    {
        match self {
            TsinkError::DataCorruption(text) => copied(text),
            TsinkError::InvalidConfiguration(text) => copied(text),
            TsinkError::WriteTimeout { timeout_ms, workers } => {
                let mut text = with_number("write timed out after ", *timeout_ms, " ms with ");
                push_decimal(&mut text, *workers as u64);
                text.append(" workers");
                text
            },
            TsinkError::SegmentValidation { root, details } => {
                let mut text = copied(root);
                text.append(": ");
                text.append(details.as_str());
                text
            },
            TsinkError::NotFound(text) => copied(text),
            TsinkError::Storage(text) => copied(text),
        }
    }
}

/// The text of an error shows what the error was made with: its own text, or the root and the
/// details of a segment.
pub proof fn law_message_shows_the_text(text: Seq<char>, details: Seq<char>)
    ensures
        error_text(ErrorView::DataCorruption(text)) == text,
        error_text(ErrorView::InvalidConfiguration(text)) == text,
        error_text(ErrorView::NotFound(text)) == text,
        error_text(ErrorView::Storage(text)) == text,
        error_text(ErrorView::SegmentValidation { root: text, details }) == text + ": "@ + details,
{
}

} // verus!
