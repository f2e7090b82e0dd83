//! The operating systems whose rules differ.

use vstd::prelude::*;

verus! {

/// The system a decision is made for.
#[derive(Clone, Copy, Debug, PartialEq, Eq, Structural)]
pub enum Platform {
    Linux,
    MacOs,
    Windows,
}

impl Platform {
    /// The byte between two names of a path.
    pub open spec fn separator_spec(self) -> u8 {
        if self is Windows {
            92
        } else {
            47
        }
    }

    /// The byte between two names of a path: a backslash on Windows, a slash
    /// elsewhere.
    pub fn separator(self) -> (r: u8)
        ensures
            r == self.separator_spec(),
    {
        match self {
            Platform::Windows => 92,
            Platform::Linux | Platform::MacOs => 47,
        }
    }
}

} // verus!
