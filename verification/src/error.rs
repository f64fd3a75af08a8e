use vstd::prelude::*;

verus! {

/// The failure taxonomy of the codec.
///
/// `Io` reports that the byte source or sink failed; during decoding it
/// means that the input ended before the term was complete, which callers
/// may want to distinguish for framing purposes.  `Message` reports a data
/// or syntax failure — a term that cannot be represented on the wire, or
/// wire bytes that do not form a term — and carries a description of the
/// offending value.
#[derive(Debug, PartialEq, Eq, Clone)]
pub enum Error {
    Io(String),
    Message(String),
}

impl Error {
    /// The description carried by the error, for display purposes.
    pub fn describe(&self) -> (r: &str)
        ensures
            r@ == match self {
                Error::Io(m) => m@,
                Error::Message(m) => m@,
            },
    {
        match self {
            Error::Io(m) => m.as_str(),
            Error::Message(m) => m.as_str(),
        }
    }
}

} // verus!
