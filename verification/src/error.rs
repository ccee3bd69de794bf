//! The two ways in which driving a strip can fail.

use vstd::prelude::*;
use vstd::std_specs::convert::FromSpecImpl;

verus! {

/// `std::io::Error`, carried through unread.
#[verifier::external_type_specification]
#[verifier::external_body]
pub struct ExIoError(std::io::Error);

/// Why an operation on a strip failed.
#[derive(Debug)]
pub enum LEDError {
    /// The transport refused to bind, to resolve the peer or to send.
    IOError(std::io::Error),
    /// A frame held `received` colours where the strip has `expected` LEDs.
    SizeError { received: usize, expected: usize },
}

impl From<std::io::Error> for LEDError {
    fn from(error: std::io::Error) -> (result: LEDError) {
        LEDError::IOError(error)
    }
}

impl FromSpecImpl<std::io::Error> for LEDError {
    open spec fn obeys_from_spec() -> bool {
        true
    }

    open spec fn from_spec(error: std::io::Error) -> LEDError {
        LEDError::IOError(error)
    }
}

} // verus!
