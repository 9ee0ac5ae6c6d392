//! Making and checking a proof for a circuit given as messages.

use vstd::prelude::*;
use bulletproofs::r1cs::R1CSProof;
use crate::constraint_system::{ConstraintSystem, Phase, SystemView};
use crate::error::Error;
use crate::backend::padding_covered;
use crate::gadget::{build_error, gadget_from_messages, required_gates};
use crate::messages::Messages;

verus! {

/// The system that a proof attempt starts from: no gates, no constraints,
/// inputs closed, generators for `generators_count` gates.
pub open spec fn fresh_system(prover: bool, generators_count: usize) -> SystemView {
    SystemView {
        prover,
        phase: Phase::InputsDeclared,
        capacity: generators_count as nat,
        gates: 0,
        wires: Seq::empty(),
        constraints: Seq::empty(),
    }
}

/// Makes a proof that the witness in `messages` satisfies the constraints in
/// `messages`, with generators for `generators_count` gates.
///
/// The circuit is built on a fresh proving system; the build fails as
/// [`build_error`] says, a missing section first. Once the build has
/// succeeded the backend makes the proof. It pads the number of gates to the
/// next power of two, and a proof comes back exactly when
/// `generators_count` covers that; otherwise the result is
/// `AllocationFailure` too. Whether the witness satisfies the constraints
/// plays no part: a proof made from a witness that does not is one that
/// [`verify`] rejects.
pub fn prove(messages: &Messages, generators_count: usize) -> (r: Result<R1CSProof, Error>)
    ensures
        ({
            let failure = build_error(fresh_system(true, generators_count), messages, true);
            let covered = padding_covered(
                generators_count as nat,
                required_gates(messages.circuit_view()),
            );
            match r {
                Ok(_) => failure.is_none() && covered,
                Err(e) => failure == Some(e) || (failure.is_none() && !covered && e
                    == Error::AllocationFailure),
            }
        }),
{
    let mut cs = ConstraintSystem::new_prover(generators_count);
    cs.finalize_inputs();
    gadget_from_messages(&mut cs, messages, true)?;
    cs.prove()
}

/// Checks `proof` against the constraints in `messages`, with generators for
/// `generators_count` gates.
///
/// The circuit is built on a fresh verifying system; the build fails as
/// [`build_error`] says, a missing section first, and that is the only way
/// to an error. Once the build has succeeded the result is `Ok`, and it says
/// whether the backend accepted the proof: a proof that does not fit the
/// circuit or the generators is not an error but `false`. The backend pads
/// the number of gates to the next power of two and accepts nothing when
/// `generators_count` does not cover that.
pub fn verify(messages: &Messages, proof: &R1CSProof, generators_count: usize) -> (r: Result<
    bool,
    Error,
>)
    ensures
        match r {
            Ok(accepted) => {
                let gates = required_gates(messages.circuit_view());
                &&& build_error(fresh_system(false, generators_count), messages, false).is_none()
                &&& gates <= isize::MAX && !padding_covered(generators_count as nat, gates)
                    ==> !accepted
            },
            Err(e) => build_error(fresh_system(false, generators_count), messages, false) == Some(
                e,
            ),
        },
{
    let mut cs = ConstraintSystem::new_verifier(generators_count);
    cs.finalize_inputs();
    gadget_from_messages(&mut cs, messages, false)?;
    Ok(cs.verify(proof))
}

} // verus!
