use vstd::prelude::*;

verus! {

/// Error type of this crate.  Each kind carries a human-readable message.
#[derive(Clone, Debug, PartialEq)]
pub enum Error {
    InvalidGraph(String),
    InvalidHardware(String),
    InvalidNode(String),
    InvalidLength(String),
    InvalidShape(String),
    OutOfRange(String),
    NotSupported(String),
}

impl Error {
    /// The message carried by this error.
    pub open spec fn spec_message(&self) -> Seq<char> {
        match self {
            Error::InvalidGraph(m) => m@,
            Error::InvalidHardware(m) => m@,
            Error::InvalidNode(m) => m@,
            Error::InvalidLength(m) => m@,
            Error::InvalidShape(m) => m@,
            Error::OutOfRange(m) => m@,
            Error::NotSupported(m) => m@,
        }
    }

    /// Returns the human-readable message carried by this error.
    pub fn message(&self) -> (r: String)
        ensures
            r@ == self.spec_message(),
    {
        match self {
            Error::InvalidGraph(m) => m.clone(),
            Error::InvalidHardware(m) => m.clone(),
            Error::InvalidNode(m) => m.clone(),
            Error::InvalidLength(m) => m.clone(),
            Error::InvalidShape(m) => m.clone(),
            Error::OutOfRange(m) => m.clone(),
            Error::NotSupported(m) => m.clone(),
        }
    }
}

} // verus!
