//! The circuit as it arrives: instance variables, private variables and
//! rank-1 constraints, with every value still in its little-endian bytes.

use vstd::prelude::*;
use crate::error::Error;

verus! {

/// A variable of the circuit with its value: an instance variable (public)
/// or a private one (part of the witness). The id 0 stands for the constant
/// one and belongs to no variable.
#[derive(Clone, Debug, PartialEq, Eq)]
pub struct CircuitVariable {
    pub id: u64,
    /// The value, little-endian; empty where none was assigned.
    pub value: Vec<u8>,
}

/// A coefficient applied to the variable with the given id.
#[derive(Clone, Debug, PartialEq, Eq)]
pub struct Term {
    pub id: u64,
    /// The coefficient, little-endian.
    pub value: Vec<u8>,
}

/// A rank-1 constraint: the combination `a` times the combination `b`
/// equals the combination `c`.
#[derive(Clone, Debug, PartialEq, Eq)]
pub struct Constraint {
    pub a: Vec<Term>,
    pub b: Vec<Term>,
    pub c: Vec<Term>,
}

/// The decoded sections of a message exchange. A section that was not
/// received is `None`.
#[derive(Clone, Debug, PartialEq, Eq)]
pub struct Messages {
    /// The instance variables of the circuit header.
    pub instance_variables: Option<Vec<CircuitVariable>>,
    /// The private variables that the circuit header announces, with the
    /// values of the witness section. A variable for which no witness value
    /// came has an empty value.
    pub private_variables: Option<Vec<CircuitVariable>>,
    /// The constraints section.
    pub constraints: Option<Vec<Constraint>>,
}

/// The three collections of a complete exchange.
pub struct Circuit<'a> {
    pub instance: &'a Vec<CircuitVariable>,
    pub private: &'a Vec<CircuitVariable>,
    pub constraints: &'a Vec<Constraint>,
}

/// The three collections as mathematics.
pub struct CircuitView {
    pub instance: Seq<CircuitVariable>,
    pub private: Seq<CircuitVariable>,
    pub constraints: Seq<Constraint>,
}

impl<'a> View for Circuit<'a> {
    type V = CircuitView;

    open spec fn view(&self) -> CircuitView {
        CircuitView {
            instance: self.instance@,
            private: self.private@,
            constraints: self.constraints@,
        }
    }
}

impl Messages {
    /// Whether every required section is there.
    pub open spec fn complete(&self) -> bool {
        &&& self.instance_variables.is_some()
        &&& self.private_variables.is_some()
        &&& self.constraints.is_some()
    }

    /// The collections of a complete exchange.
    pub open spec fn circuit_view(&self) -> CircuitView {
        CircuitView {
            instance: self.instance_variables.unwrap()@,
            private: self.private_variables.unwrap()@,
            constraints: self.constraints.unwrap()@,
        }
    }

    /// Hands out the three collections, or fails with `MissingField` when
    /// the circuit header or the constraints section is absent.
    pub fn circuit(&self) -> (r: Result<Circuit<'_>, Error>)
        ensures
            match r {
                Ok(circuit) => self.complete() && circuit@ == self.circuit_view(),
                Err(e) => !self.complete() && e == Error::MissingField,
            },
    {
        match (&self.instance_variables, &self.private_variables, &self.constraints) {
            (Some(instance), Some(private), Some(constraints)) => Ok(
                Circuit { instance, private, constraints },
            ),
            _ => Err(Error::MissingField),
        }
    }
}

} // verus!
