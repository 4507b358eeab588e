//! Values that must never reach a log or a screen in the clear.

use vstd::prelude::*;
use vstd::string::StringExecFns;

verus! {

/// A secret-bearing value whose every rendering is `[REDACTED]`.
pub struct Redacted<T>(pub T);

impl<T> Redacted<T> {
    /// The display rendering.
    pub fn to_string(&self) -> (s: String)
        ensures
            s@ == "[REDACTED]"@,
    {
        String::from_str("[REDACTED]")
    }

    /// The debug rendering.
    pub fn debug_string(&self) -> (s: String)
        ensures
            s@ == "[REDACTED]"@,
    {
        String::from_str("[REDACTED]")
    }
}

} // verus!
