use vstd::prelude::*;

verus! {

/// Error raised while validating the application settings: a requested
/// search path could not be resolved to an existing absolute directory.
pub enum ArgsError {
    InvalidPath(String),
}

impl ArgsError {
    /// The offending path.
    pub fn path(&self) -> (r: &String)
        ensures
            self matches ArgsError::InvalidPath(p) && r == &p,
    {
        match self {
            ArgsError::InvalidPath(p) => p,
        }
    }
}

} // verus!
