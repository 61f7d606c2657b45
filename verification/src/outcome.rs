//! What the caller is told about the two steps that lie outside the
//! library: the choice of a folder and the hand-over to the clipboard.

use vstd::prelude::*;
use vstd::string::*;

verus! {

/// The message for a folder choice that ended without a folder.
pub open spec fn nothing_selected() -> Seq<char> {
    "No folder selected"@
}

/// The message for a document that reached the clipboard.
pub open spec fn copied() -> Seq<char> {
    "Copied to clipboard!"@
}

/// Turns the outcome of the folder choice into the chosen path, or into
/// the error that says that nothing was selected.
pub fn folder_choice(picked: Option<String>) -> (r: Result<String, String>)
    ensures
        match picked {
            Some(path) => r == Ok::<String, String>(path),
            None => r matches Err(msg) && msg@ == nothing_selected(),
        },
{
    match picked {
        Some(path) => Ok(path),
        None => Err(String::from_str("No folder selected")),
    }
}

/// Turns the outcome of writing to the clipboard into the report for the
/// caller: the confirmation, or the cause of the failure as it came.
pub fn copy_report(written: Result<(), String>) -> (r: Result<String, String>)
    ensures
        match written {
            Ok(_) => r matches Ok(msg) && msg@ == copied(),
            Err(cause) => r == Err::<String, String>(cause),
        },
{
    match written {
        Ok(_) => Ok(String::from_str("Copied to clipboard!")),
        Err(cause) => Err(cause),
    }
}

} // verus!
