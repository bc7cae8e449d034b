//! Messages by code. The localizer here knows no language: it answers every
//! code with the code itself.

use vstd::prelude::*;

verus! {

/// A localizer that answers with the message code.
#[derive(Clone, Copy, Debug, PartialEq, Eq, Structural)]
pub struct NoopLoc;

impl NoopLoc {
    /// The message for `code`: the code itself, whatever the arguments.
    pub fn msg(&self, code: &str, _args: &[(&str, &str)]) -> (s: String)
        ensures
            s@ == code@,
    {
        code.to_owned()
    }
}

} // verus!
