//! The one question that the library asks of its surroundings.

use vstd::prelude::*;

verus! {

/// Whether standard output is a terminal: the answer of `atty::is` for
/// `atty::Stream::Stdout`. It depends on where the process writes to, so
/// nothing is claimed of it.
#[verifier::external_body]
pub(crate) fn stdout_is_terminal() -> (r: bool) {
    atty::is(atty::Stream::Stdout)
}

} // verus!
