//! The trash mover: what a command reports once the platform has answered a
//! request to move a file to the trash.

use crate::error::{message_text, ErrorKind, ErrorModel};
use vstd::prelude::*;

verus! {

/// What moving `path` to the trash comes to, given the platform's answer:
/// success as it is, and a failure with the path and the platform's account
/// of it.
pub open spec fn trash_outcome(path: Seq<char>, answer: Result<(), Seq<char>>) -> Result<
    (),
    ErrorModel,
> {
    match answer {
        Ok(_) => Ok(()),
        Err(cause) => Err(ErrorModel::TrashFailure { path, cause }),
    }
}

/// The platform's answer, with a failure's description as its characters.
pub open spec fn answer_model(answer: Result<(), String>) -> Result<(), Seq<char>> {
    match answer {
        Ok(_) => Ok(()),
        Err(cause) => Err(cause@),
    }
}

/// Reports a move of `path` to the trash.
///
/// `answer` is what the platform's trash facility returned for `path`: `Ok`
/// once the file is in the trash, or the description of what went wrong. A
/// failure becomes a `TrashFailure` that carries both the path and that
/// description. Nothing is tried again.
pub fn trash_file(path: &str, answer: Result<(), String>) -> (result: Result<(), ErrorKind>)
    ensures
        match trash_outcome(path@, answer_model(answer)) {
            Ok(_) => result is Ok,
            Err(error) => result matches Err(kind) && kind@ == error,
        },
{
    match answer {
        Ok(_) => Ok(()),
        Err(cause) => Err(ErrorKind::TrashFailure { path: String::from_str(path), cause }),
    }
}

/// Reports a move of `path` to the trash, as the command that the user
/// interface calls: what [`trash_file`] gives, with an error as its text,
/// which is the path, a colon and a space, and the platform's description.
pub fn trash_image(path: &str, answer: Result<(), String>) -> (result: Result<(), String>)
    ensures
        match trash_outcome(path@, answer_model(answer)) {
            Ok(_) => result is Ok,
            Err(error) => result matches Err(text) && text@ == message_text(error),
        },
        answer matches Err(cause) ==> result matches Err(text) && text@ == path@ + ": "@ + cause@
            && path@.is_prefix_of(text@),
{
    match trash_file(path, answer) {
        Ok(_) => Ok(()),
        Err(kind) => Err(kind.message()),
    }
}

} // verus!
