//! What the user is told while the program runs.

use crate::text::decimal;
use crate::text::to_decimal;
use vstd::prelude::*;

verus! {

/// The line when the repository has been fetched.
pub const CLONED_LINE: &'static str = "Clone successful.\n";

/// The line when the files are about to be collected.
pub const PROCESSING_LINE: &'static str = "Processing repository...\n";

/// The lines when the digest has been printed.
pub const DONE_LINES: &'static str = "\nDone. Digest printed to standard output.\n";

/// The line when the repository is about to be fetched. It names the repository only: the access
/// token is not told.
pub fn cloning_line(repo: &str) -> (line: String)
    ensures
        line@ == "Cloning "@ + repo@ + "...\n"@,
{
    let mut line = "Cloning ".to_owned();
    line.append(repo);
    line.append("...\n");
    line
}

/// The line when the files have been collected.
pub fn found_line(files: usize) -> (line: String)
    ensures
        line@ == "Found "@ + decimal(files as nat) + " files to include.\n"@,
{
    let mut line = "Found ".to_owned();
    line.append(to_decimal(files as u128).as_str());
    line.append(" files to include.\n");
    line
}

} // verus!
