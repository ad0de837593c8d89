//! The one decision the surrounding command-line layer delegates: whether a
//! positional path argument is accepted, and how a failing run is classified.

use vstd::prelude::*;

verus! {

/// Why a run fails. Every error is fatal to the current run: nothing is
/// retried, and output already written stays written.
#[derive(Clone, Copy, PartialEq, Eq, Structural, Debug)]
pub enum StreamError {
    /// A named path does not name an existing regular file.
    SourceUnavailable,
    /// Pulling the next line from the source failed mid-stream.
    ReadFailure,
    /// Pushing bytes to the sink failed mid-stream.
    WriteFailure,
}

/// Accept a positional path argument exactly when it names an existing
/// regular file. `is_file` is that fact about `raw_path`, established by the
/// caller's probe of the file system before any streaming begins.
pub fn parse_path(raw_path: String, is_file: bool) -> (r: Result<String, StreamError>)
    ensures
        is_file ==> r == Ok::<String, StreamError>(raw_path),
        !is_file ==> r == Err::<String, StreamError>(StreamError::SourceUnavailable),
{
    if is_file {
        Ok(raw_path)
    } else {
        Err(StreamError::SourceUnavailable)
    }
}

} // verus!
