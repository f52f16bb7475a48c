//! The ways in which a command can fail, and the text shown for each.

use vstd::prelude::*;

verus! {

/// Why a listing or a move to the trash failed.
#[derive(Clone, Debug, PartialEq, Eq)]
pub enum ErrorKind {
    /// The path is missing, or is not a directory.
    InvalidDirectory,
    /// The directory at `path` is there but could not be opened for listing.
    ReadFailure { path: String },
    /// The platform could not move `path` to the trash; `cause` is its account of why.
    TrashFailure { path: String, cause: String },
}

/// What an [`ErrorKind`] stands for.
pub ghost enum ErrorModel {
    InvalidDirectory,
    ReadFailure { path: Seq<char> },
    TrashFailure { path: Seq<char>, cause: Seq<char> },
}

impl View for ErrorKind {
    type V = ErrorModel;

    open spec fn view(&self) -> ErrorModel {
        match self {
            ErrorKind::InvalidDirectory => ErrorModel::InvalidDirectory,
            ErrorKind::ReadFailure { path } => ErrorModel::ReadFailure { path: path@ },
            ErrorKind::TrashFailure { path, cause } => ErrorModel::TrashFailure {
                path: path@,
                cause: cause@,
            },
        }
    }
}

/// The text shown to the user for an error.
pub open spec fn message_text(e: ErrorModel) -> Seq<char> {
    match e {
        ErrorModel::InvalidDirectory => "Invalid directory"@,
        ErrorModel::ReadFailure { path } => "Failed to read directory "@ + path,
        ErrorModel::TrashFailure { path, cause } => path + ": "@ + cause,
    }
}

/// The text of a failed move to the trash starts with the path that was to be moved.
pub proof fn lemma_trash_message_names_path(path: Seq<char>, cause: Seq<char>)
    ensures
        path.is_prefix_of(message_text(ErrorModel::TrashFailure { path, cause })),
{
}

/// The text of a failed listing ends with the directory that could not be read.
pub proof fn lemma_read_message_names_path(path: Seq<char>)
    ensures
        path.is_suffix_of(message_text(ErrorModel::ReadFailure { path })),
{
}

impl ErrorKind {
    /// The text shown to the user for this error.
    pub fn message(&self) -> (text: String)
        ensures
            text@ == message_text(self@),
    {
        match self {
            ErrorKind::InvalidDirectory => String::from_str("Invalid directory"),
            ErrorKind::ReadFailure { path } => {
                let mut text = String::from_str("Failed to read directory ");
                text.append(path.as_str());
                text
            },
            ErrorKind::TrashFailure { path, cause } => {
                let mut text = path.clone();
                text.append(": ");
                text.append(cause.as_str());
                text
            },
        }
    }
}

} // verus!
