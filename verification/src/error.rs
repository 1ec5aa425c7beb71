//! The ways in which a run fails.

use vstd::prelude::*;
use vstd::string::*;

verus! {

/// Why a snapshot could not be made.
#[derive(Debug)]
pub enum SnapshotError {
    /// Reading the tree or a file, or writing a part, failed; the text is
    /// what the system reported.
    Io(String),
    /// The configuration was refused; the text says why.
    InvalidArgument(String),
    /// No file matched: there is nothing to snapshot.
    NoFiles,
}

/// Mathematical value of a [`SnapshotError`].
pub enum SnapshotErrorView {
    Io(Seq<char>),
    InvalidArgument(Seq<char>),
    NoFiles,
}

impl View for SnapshotError {
    type V = SnapshotErrorView;

    open spec fn view(&self) -> SnapshotErrorView {
        match self {
            SnapshotError::Io(text) => SnapshotErrorView::Io(text@),
            SnapshotError::InvalidArgument(text) => SnapshotErrorView::InvalidArgument(text@),
            SnapshotError::NoFiles => SnapshotErrorView::NoFiles,
        }
    }
}

/// The message that an error shows to a reader.
pub open spec fn message_text(error: SnapshotErrorView) -> Seq<char> {
    match error {
        SnapshotErrorView::Io(text) => "IO error: "@ + text,
        SnapshotErrorView::InvalidArgument(text) => "Invalid argument: "@ + text,
        SnapshotErrorView::NoFiles => "No files to snapshot"@,
    }
}

impl SnapshotError {
    /// The message that the error shows to a reader.
    pub fn message(&self) -> (text: String)
        ensures
            text@ == message_text(self@),
    {
        match self {
            SnapshotError::Io(detail) => {
                let mut text = String::from_str("IO error: ");
                text.append(detail.as_str());
                text
            },
            SnapshotError::InvalidArgument(detail) => {
                let mut text = String::from_str("Invalid argument: ");
                text.append(detail.as_str());
                text
            },
            SnapshotError::NoFiles => String::from_str("No files to snapshot"),
        }
    }
}

} // verus!
