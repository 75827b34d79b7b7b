//! The library's version.
use vstd::prelude::*;

verus! {

/// Returns the crate version string.
pub fn version() -> (v: &'static str)
    ensures
        v@ == "0.1.0"@,
{
    "0.1.0"
}

} // verus!
