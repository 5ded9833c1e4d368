//! The crate-wide error type.
use vstd::prelude::*;

verus! {

/// Declares `std::io::Error`, which the bus operations report, to the verifier.
#[verifier::external_type_specification]
#[verifier::external_body]
pub struct ExIoError(std::io::Error);

/// Errors of the driver.
#[derive(Debug)]
pub enum DriverError {
    /// An I/O error reported by the underlying bus.
    Io(std::io::Error),
    /// The driver is not initialised (after a failed recovery).
    NotInitialized,
}

impl From<std::io::Error> for DriverError {
    fn from(e: std::io::Error) -> (r: Self) {
        DriverError::Io(e)
    }
}

impl vstd::std_specs::convert::FromSpecImpl<std::io::Error> for DriverError {
    open spec fn obeys_from_spec() -> bool {
        true
    }

    open spec fn from_spec(v: std::io::Error) -> Self {
        DriverError::Io(v)
    }
}

} // verus!
