//! The failures a circuit build can end in.

use vstd::prelude::*;

verus! {

/// Why a build or a proof attempt was abandoned.
#[derive(Clone, Copy, Debug, PartialEq, Eq, Structural)]
pub enum Error {
    /// A required message section (circuit header or constraints) is absent.
    MissingField,
    /// A term refers to the given variable id, which nothing binds: it is
    /// not 0, and the circuit declares no instance or private variable of
    /// that id.
    UnknownVariable(u64),
    /// A value buffer is not the canonical encoding of a field element.
    InvalidScalarEncoding,
    /// The generator capacity is exhausted, or the wire values of a prover's
    /// gate cannot be had: a private variable of the circuit has no witness
    /// value.
    AllocationFailure,
}

impl Error {
    /// A short human-readable description.
    pub fn message(&self) -> (r: &'static str)
        ensures
            r@ == self.message_spec(),
    {
        match self {
            Error::MissingField => "missing message section",
            Error::UnknownVariable(_) => "unknown variable",
            Error::InvalidScalarEncoding => "invalid scalar encoding",
            Error::AllocationFailure => "gate allocation failed",
        }
    }

    /// The text of [`Error::message`].
    pub open spec fn message_spec(&self) -> Seq<char> {
        match self {
            Error::MissingField => "missing message section"@,
            Error::UnknownVariable(_) => "unknown variable"@,
            Error::InvalidScalarEncoding => "invalid scalar encoding"@,
            Error::AllocationFailure => "gate allocation failed"@,
        }
    }
}

} // verus!
