//! The command-line surface: which package to display, how many levels,
//! and whether to follow optional dependencies only.

use vstd::prelude::*;

verus! {

/// The command-line arguments: the package to display, the number of
/// levels to show (default one), and whether to scan optional
/// dependencies only (default off; the two modes are mutually exclusive,
/// there is no mode that shows both).
pub struct Cli {
    pub crate_: String,
    pub levels: usize,
    pub optional: bool,
}

/// The depth budget handed to the fetcher: always one more than the
/// levels the command line asked for.
pub fn requested_depth(levels: usize) -> (r: usize)
    requires
        levels < usize::MAX,
    ensures
        r == levels + 1,
{
    levels + 1
}

} // verus!
