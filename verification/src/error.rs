//! One error type for the crate. Verifiers never return it: a malformed proof verifies `false`.

use vstd::prelude::*;

verus! {

/// Why an input was refused.
#[derive(Debug, PartialEq, Eq)]
pub enum Error {
    Invalid(String),
}

pub type Result<T> = core::result::Result<T, Error>;

/// The refusal with this message.
pub fn invalid<T>(msg: &str) -> (r: Result<T>)
    ensures
        r matches Err(Error::Invalid(m)) && m@ == msg@,
{
    Err(Error::Invalid(msg.to_string()))
}

} // verus!
