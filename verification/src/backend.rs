//! The Bulletproofs backend: the only place where proofs are made and checked.
//!
//! Everything here is trusted. A finished constraint system is handed over as
//! plain data, the backend replays it gate by gate and constraint by
//! constraint, and produces or checks a proof.

use vstd::prelude::*;
use vstd::arithmetic::power2::pow2;
use bulletproofs::r1cs;
use bulletproofs::r1cs::LinearCombination as BackendCombination;
use bulletproofs::{BulletproofGens, PedersenGens};
use curve25519_dalek_ng::scalar::Scalar as BackendScalar;
use merlin::Transcript;
use crate::linear::{terms_allocated, LinearCombination, Terms, Variable};
use crate::scalar::Scalar;

verus! {

/// A proof of satisfiability, as the backend makes it. Opaque; its bytes are
/// had from the backend's own `to_bytes`.
#[verifier::external_type_specification]
#[verifier::external_body]
pub struct ExR1CSProof(r1cs::R1CSProof);

/// The backend's error.
#[verifier::external_type_specification]
#[verifier::external_body]
pub struct ExR1CSError(r1cs::R1CSError);

/// The backend's own linear combination, a list of terms.
#[verifier::external_type_specification]
#[verifier::external_body]
pub struct ExBackendCombination(BackendCombination);

/// The terms that a backend combination holds, in order, each variable as
/// this crate's handle and each coefficient as the number it denotes.
pub uninterp spec fn combination_terms(lc: BackendCombination) -> Terms;

/// Whether generators for `capacity` gates cover `gates` gates once the
/// backend has padded their number to a power of two: some power of two is
/// at least `gates` and at most `capacity`.
pub open spec fn padding_covered(capacity: nat, gates: nat) -> bool {
    exists|e: nat| gates <= #[trigger] pow2(e) <= capacity
}

/// Trusted: collecting `(Variable, Scalar)` pairs into a
/// `bulletproofs::r1cs::LinearCombination` keeps them as its terms, in order.
/// Each handle becomes the backend variable of the same kind and gate index,
/// each coefficient the backend scalar with the same canonical bytes.
#[verifier::external_body]
pub(crate) fn backend_combination(lc: &LinearCombination) -> (r: BackendCombination)
    ensures
        combination_terms(r) == lc@,
{
    lc.terms().iter().map(|t| {
        let var = match t.0 {
            Variable::One => r1cs::Variable::One(),
            Variable::MultiplierLeft(i) => r1cs::Variable::MultiplierLeft(i),
            Variable::MultiplierRight(i) => r1cs::Variable::MultiplierRight(i),
            Variable::MultiplierOutput(i) => r1cs::Variable::MultiplierOutput(i),
        };
        (var, BackendScalar::from_bytes_mod_order(t.1.to_bytes()))
    }).collect()
}

/// Trusted: builds the generators for `capacity` gates and `parties` parties
/// and a transcript under `label`, feeds a `bulletproofs::r1cs::Prover` one
/// multiplier per entry of `wires` (left and right inputs; the backend takes
/// their product as the output) and every constraint, and calls
/// `Prover::prove`.
///
/// The proof is randomised and nothing is said of it. Whether one comes
/// back depends on the arguments alone: the backend pads the number of
/// multipliers to the next power of two and returns an error when `capacity`
/// is below that, and it has no other error to return, since every
/// multiplier comes with its inputs and no constraint is deferred. The wire
/// values are a vector, so their number can always be padded. The
/// generators take memory in proportion to `capacity`.
/// The precondition keeps the backend from indexing a gate that was never
/// allocated, and gives it the share of generators that it takes.
#[verifier::external_body]
pub(crate) fn backend_prove(
    label: &'static str,
    capacity: usize,
    parties: usize,
    wires: &Vec<(Scalar, Scalar, Scalar)>,
    constraints: Vec<BackendCombination>,
) -> (r: Result<r1cs::R1CSProof, r1cs::R1CSError>)
    requires
        parties >= 1,
        forall|k: int|
            0 <= k < constraints@.len() ==> terms_allocated(
                combination_terms(#[trigger] constraints@[k]),
                wires@.len(),
            ),
    ensures
        r is Ok <==> padding_covered(capacity as nat, wires@.len()),
{
    let pedersen = PedersenGens::default();
    let generators = BulletproofGens::new(capacity, parties);
    let mut prover = r1cs::Prover::new(&pedersen, Transcript::new(label.as_bytes()));
    for w in wires.iter() {
        let left = BackendScalar::from_bytes_mod_order(w.0.to_bytes());
        let right = BackendScalar::from_bytes_mod_order(w.1.to_bytes());
        r1cs::ConstraintSystem::allocate_multiplier(&mut prover, Some((left, right)))?;
    }
    for lc in constraints {
        r1cs::ConstraintSystem::constrain(&mut prover, lc);
    }
    prover.prove(&generators)
}

/// Trusted: builds the same generators and transcript as the prover's side,
/// feeds a `bulletproofs::r1cs::Verifier` `gates` multipliers and every
/// constraint, and calls `Verifier::verify`.
///
/// Whether the backend accepts is its own affair. What holds of every
/// outcome is its refusal: before it accepts a proof it pads the number of
/// multipliers to the next power of two and returns an error when `capacity`
/// is below that. The precondition keeps the backend from indexing a gate
/// that was never allocated, and gives it the share of generators that it
/// takes.
#[verifier::external_body]
pub(crate) fn backend_verify(
    label: &'static str,
    capacity: usize,
    parties: usize,
    gates: usize,
    constraints: Vec<BackendCombination>,
    proof: &r1cs::R1CSProof,
) -> (r: Result<(), r1cs::R1CSError>)
    requires
        parties >= 1,
        forall|k: int|
            0 <= k < constraints@.len() ==> terms_allocated(
                combination_terms(#[trigger] constraints@[k]),
                gates as nat,
            ),
    ensures
        gates <= isize::MAX && !padding_covered(capacity as nat, gates as nat) ==> r is Err,
{
    let pedersen = PedersenGens::default();
    let generators = BulletproofGens::new(capacity, parties);
    let mut verifier = r1cs::Verifier::new(Transcript::new(label.as_bytes()));
    for _ in 0..gates {
        let _ = r1cs::ConstraintSystem::allocate_multiplier(&mut verifier, None);
    }
    for lc in constraints {
        r1cs::ConstraintSystem::constrain(&mut verifier, lc);
    }
    verifier.verify(proof, &pedersen, &generators)
}

} // verus!
