use vstd::prelude::*;

verus! {

#[verifier::external_type_specification]
#[verifier::external_body]
pub struct ExIoError(std::io::Error);

/// What can go wrong while writing or reading a LEB128 value.
#[derive(Debug)]
pub enum Error {
    /// The value read so far is above the bound the caller gave, or does not
    /// fit in 64 bits.
    ResultTooLarge,
    /// The byte sink failed; its error is handed on unchanged.
    Io(std::io::Error),
}

impl Error {
    /// A short text for the error: "result too large", or the sink's own
    /// message for an I/O failure.
    pub fn message(&self) -> (r: String)
        ensures
            self is ResultTooLarge ==> r@ == "result too large"@,
            self is Io ==> vstd::string::to_string_from_display_ensures::<std::io::Error>(
                &self->Io_0,
                r,
            ),
    {
        match self {
            Error::ResultTooLarge => "result too large".to_owned(),
            Error::Io(err) => err.to_string(),
        }
    }
}

impl From<std::io::Error> for Error {
    fn from(err: std::io::Error) -> (r: Error)
        ensures
            r == Error::Io(err),
    {
        Error::Io(err)
    }
}

impl vstd::std_specs::convert::FromSpecImpl<std::io::Error> for Error {
    open spec fn obeys_from_spec() -> bool {
        true
    }

    open spec fn from_spec(err: std::io::Error) -> Error {
        Error::Io(err)
    }
}

} // verus!
