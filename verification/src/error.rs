//! The error of the PLC monitor's connection.

use vstd::prelude::*;

verus! {

/// `std::io::Error`, carried through unchanged.
#[verifier::external_type_specification]
#[verifier::external_body]
pub struct ExIoError(std::io::Error);

/// The monitor lost its connection: the data store disconnected.
pub enum CustError {
    Disconnect(std::io::Error),
}

impl From<std::io::Error> for CustError {
    fn from(e: std::io::Error) -> (r: CustError) {
        CustError::Disconnect(e)
    }
}

impl vstd::std_specs::convert::FromSpecImpl<std::io::Error> for CustError {
    open spec fn obeys_from_spec() -> bool {
        true
    }

    open spec fn from_spec(e: std::io::Error) -> CustError {
        CustError::Disconnect(e)
    }
}

impl CustError {
    /// The text the error is shown with.
    pub fn message(&self) -> (text: String)
        ensures
            text@ == "data store disconnected"@,
    {
        String::from_str("data store disconnected")
    }

    /// The underlying I/O error.
    pub fn source(&self) -> (e: &std::io::Error)
        ensures
            *self == CustError::Disconnect(*e),
    {
        match self {
            CustError::Disconnect(e) => e,
        }
    }
}

} // verus!
