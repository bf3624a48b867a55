use vstd::prelude::*;

verus! {

/// Why a broker operation was refused.
#[derive(Debug, Clone, Copy, PartialEq, Eq, Structural)]
pub enum Error {
    /// The subscription named in the call does not exist.
    NotFound,
    /// A subscription of that name exists already.
    AlreadyExists,
}

impl Error {
    /// The error's name, as callers print it.
    pub fn as_str(&self) -> (r: &'static str)
        ensures
            *self == Error::NotFound ==> r@ == "NotFound"@,
            *self == Error::AlreadyExists ==> r@ == "AlreadyExists"@,
    {
        match self {
            Error::NotFound => "NotFound",
            Error::AlreadyExists => "AlreadyExists",
        }
    }
}

} // verus!
