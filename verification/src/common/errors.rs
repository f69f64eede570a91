//! Errors of path operations.
use vstd::prelude::*;

verus! {

/// An error returned from [`Path::strip_prefix`](crate::common::Path::strip_prefix) if the prefix
/// was not found
#[derive(Copy, Clone, Debug, PartialEq, Eq)]
pub struct StripPrefixError(pub(crate) ());

impl StripPrefixError {
    /// Describes the error
    pub fn to_string(&self) -> (res: String)
        ensures
            res@ == "prefix not found"@,
    {
        String::from_str("prefix not found")
    }
}

} // verus!
