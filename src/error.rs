use vstd::prelude::*;

verus! {

/// std's `io::Error`, carried through unchanged inside [`Error::Io`].
#[verifier::external_type_specification]
#[verifier::external_body]
pub struct ExIoError(std::io::Error);

/// The two ways a cache operation fails.
#[derive(Debug)]
pub enum Error {
    /// A filesystem call failed; the error is passed on as it came.
    Io(std::io::Error),
    /// The cache root on disk does not have the expected layout.
    FileCache(String),
}

impl From<std::io::Error> for Error {
    fn from(e: std::io::Error) -> Error {
        Error::Io(e)
    }
}

impl vstd::std_specs::convert::FromSpecImpl<std::io::Error> for Error {
    open spec fn obeys_from_spec() -> bool {
        true
    }

    open spec fn from_spec(e: std::io::Error) -> Error {
        Error::Io(e)
    }
}

} // verus!
