use zkif_bulletproofs::constraint_system::{ConstraintSystem, Phase};
use zkif_bulletproofs::error::Error;
use zkif_bulletproofs::linear::{LinearCombination, Variable};
use zkif_bulletproofs::scalar::{scalar_from_zkif, Scalar};

fn scalar(value: u64) -> Scalar {
    scalar_from_zkif(&value.to_le_bytes()).unwrap()
}

#[test]
fn a_system_goes_through_its_phases() {
    let mut cs = ConstraintSystem::new_prover(4);
    assert!(cs.is_prover());
    assert_eq!(cs.phase(), Phase::Created);
    assert_eq!(cs.capacity(), 4);
    cs.finalize_inputs();
    assert_eq!(cs.phase(), Phase::InputsDeclared);
    let wires = cs.allocate(Some((scalar(2), scalar(3), scalar(6)))).unwrap();
    assert_eq!(cs.phase(), Phase::GatesAllocated);
    assert_eq!(
        wires,
        (
            Variable::MultiplierLeft(0),
            Variable::MultiplierRight(0),
            Variable::MultiplierOutput(0)
        )
    );
    assert_eq!(cs.gate_count(), 1);
    assert_eq!(cs.gate_wires(0), (scalar(2), scalar(3), scalar(6)));
}

#[test]
fn gates_are_numbered_in_allocation_order() {
    let mut cs = ConstraintSystem::new_verifier(3);
    assert!(!cs.is_prover());
    cs.finalize_inputs();
    for index in 0..3 {
        let (left, right, output) = cs.allocate(None).unwrap();
        assert_eq!(left, Variable::MultiplierLeft(index));
        assert_eq!(right, Variable::MultiplierRight(index));
        assert_eq!(output, Variable::MultiplierOutput(index));
    }
    assert_eq!(cs.gate_count(), 3);
}

#[test]
fn allocation_fails_when_capacity_is_exhausted() {
    let mut cs = ConstraintSystem::new_verifier(2);
    cs.finalize_inputs();
    assert!(cs.allocate(None).is_ok());
    assert!(cs.allocate(None).is_ok());
    assert_eq!(cs.allocate(None), Err(Error::AllocationFailure));
    assert_eq!(cs.gate_count(), 2);

    let mut none = ConstraintSystem::new_prover(0);
    none.finalize_inputs();
    let values = Some((Scalar::one(), Scalar::one(), Scalar::one()));
    assert_eq!(none.allocate(values), Err(Error::AllocationFailure));
    assert_eq!(none.gate_count(), 0);
    assert_eq!(none.phase(), Phase::InputsDeclared);
}

#[test]
fn the_proving_side_needs_wire_values() {
    let mut cs = ConstraintSystem::new_prover(2);
    cs.finalize_inputs();
    assert_eq!(cs.allocate(None), Err(Error::AllocationFailure));
    assert_eq!(cs.gate_count(), 0);
}

#[test]
fn the_verifying_side_ignores_wire_values() {
    let mut cs = ConstraintSystem::new_verifier(2);
    cs.finalize_inputs();
    assert!(cs.allocate(Some((scalar(2), scalar(3), scalar(6)))).is_ok());
    assert_eq!(cs.gate_count(), 1);
}

#[test]
fn constraints_are_kept_in_order() {
    let mut cs = ConstraintSystem::new_verifier(2);
    cs.finalize_inputs();
    let (left, _, output) = cs.allocate(None).unwrap();
    cs.constrain(LinearCombination::from_variable(left));
    cs.constrain(LinearCombination::from_variable(output).scale(&scalar(5)));
    assert_eq!(cs.constraint_count(), 2);
    assert_eq!(cs.constraint(0).terms(), &vec![(Variable::MultiplierLeft(0), scalar(1))]);
    assert_eq!(cs.constraint(1).terms(), &vec![(Variable::MultiplierOutput(0), scalar(5))]);
    assert_eq!(cs.gate_count(), 1);
}

#[test]
fn a_satisfied_system_proves_and_verifies() {
    // One gate 2 * 3 = 6 with the constraint output - 6 = 0.
    let mut prover = ConstraintSystem::new_prover(1);
    prover.finalize_inputs();
    let (_, _, output) = prover.allocate(Some((scalar(2), scalar(3), scalar(6)))).unwrap();
    prover.constrain(
        LinearCombination::from_variable(output).subtract(&LinearCombination::from_scalar(scalar(6))),
    );
    let proof = prover.prove().unwrap();

    let mut verifier = ConstraintSystem::new_verifier(1);
    verifier.finalize_inputs();
    let (_, _, output) = verifier.allocate(None).unwrap();
    verifier.constrain(
        LinearCombination::from_variable(output).subtract(&LinearCombination::from_scalar(scalar(6))),
    );
    assert!(verifier.verify(&proof));

    // The same proof against another statement: output - 7 = 0.
    let mut other = ConstraintSystem::new_verifier(1);
    other.finalize_inputs();
    let (_, _, output) = other.allocate(None).unwrap();
    other.constrain(
        LinearCombination::from_variable(output).subtract(&LinearCombination::from_scalar(scalar(7))),
    );
    assert!(!other.verify(&proof));
}

#[test]
fn an_unsatisfied_system_gives_a_proof_that_is_rejected() {
    let mut prover = ConstraintSystem::new_prover(1);
    prover.finalize_inputs();
    let (_, _, output) = prover.allocate(Some((scalar(2), scalar(3), scalar(6)))).unwrap();
    prover.constrain(
        LinearCombination::from_variable(output).subtract(&LinearCombination::from_scalar(scalar(7))),
    );
    let proof = prover.prove().unwrap();

    let mut verifier = ConstraintSystem::new_verifier(1);
    verifier.finalize_inputs();
    let (_, _, output) = verifier.allocate(None).unwrap();
    verifier.constrain(
        LinearCombination::from_variable(output).subtract(&LinearCombination::from_scalar(scalar(7))),
    );
    assert!(!verifier.verify(&proof));
}

#[test]
fn the_backend_wants_a_power_of_two_of_generators() {
    // Three gates are padded to four by the backend.
    let mut prover = ConstraintSystem::new_prover(3);
    prover.finalize_inputs();
    for _ in 0..3 {
        prover.allocate(Some((scalar(1), scalar(1), scalar(1)))).unwrap();
    }
    assert_eq!(prover.prove().err(), Some(Error::AllocationFailure));
}

#[test]
fn combinations_are_evaluated_on_the_wires() {
    let mut cs = ConstraintSystem::new_prover(2);
    cs.finalize_inputs();
    let (left, right, output) = cs.allocate(Some((scalar(2), scalar(3), scalar(6)))).unwrap();
    // 5 + 2 * left + 7 * right - output = 5 + 4 + 21 - 6
    let lc = LinearCombination::from_scalar(scalar(5))
        .add(&LinearCombination::from_variable(left).scale(&scalar(2)))
        .add(&LinearCombination::from_variable(right).scale(&scalar(7)))
        .subtract(&LinearCombination::from_variable(output));
    assert_eq!(cs.eval(&lc), scalar(24));
    assert_eq!(cs.eval(&LinearCombination::new()), scalar(0));
    assert_eq!(cs.eval(&lc.negate()), scalar(24).neg());
}

#[test]
fn multiplying_allocates_a_gate_and_ties_its_inputs() {
    let mut cs = ConstraintSystem::new_prover(2);
    cs.finalize_inputs();
    let five = LinearCombination::from_scalar(scalar(5));
    let (left, right, output) = cs.multiply(five, LinearCombination::from_scalar(scalar(7))).unwrap();
    assert_eq!(cs.gate_count(), 1);
    assert_eq!(cs.gate_wires(0), (scalar(5), scalar(7), scalar(35)));
    assert_eq!(cs.constraint_count(), 2);
    let minus_one = scalar(1).neg();
    assert_eq!(cs.constraint(0).terms(), &vec![(Variable::One, scalar(5)), (left, minus_one)]);
    assert_eq!(cs.constraint(1).terms(), &vec![(Variable::One, scalar(7)), (right, minus_one)]);

    // The output of one gate feeds the next: 35 * (35 + 1).
    let product = LinearCombination::from_variable(output);
    let successor = LinearCombination::from_variable(output).add(&LinearCombination::from_scalar(scalar(1)));
    let (_, _, second) = cs.multiply(product, successor).unwrap();
    assert_eq!(second, Variable::MultiplierOutput(1));
    assert_eq!(cs.gate_wires(1), (scalar(35), scalar(36), scalar(1260)));
    for k in 0..cs.constraint_count() {
        assert_eq!(cs.eval(cs.constraint(k)), scalar(0));
    }

    // No room for a third gate.
    let one = LinearCombination::from_scalar(scalar(1));
    assert_eq!(
        cs.multiply(one, LinearCombination::from_scalar(scalar(1))),
        Err(Error::AllocationFailure)
    );
    assert_eq!(cs.gate_count(), 2);
    assert_eq!(cs.constraint_count(), 4);
}

#[test]
fn the_verifying_side_multiplies_without_values() {
    let mut cs = ConstraintSystem::new_verifier(1);
    cs.finalize_inputs();
    let five = LinearCombination::from_scalar(scalar(5));
    let (left, _, _) = cs.multiply(five, LinearCombination::from_scalar(scalar(7))).unwrap();
    assert_eq!(left, Variable::MultiplierLeft(0));
    assert_eq!(cs.gate_count(), 1);
    assert_eq!(cs.constraint_count(), 2);
}

#[test]
fn generators_short_of_the_padding_accept_nothing() {
    // A proof for three gates, made with generators for four.
    let mut prover = ConstraintSystem::new_prover(4);
    prover.finalize_inputs();
    for _ in 0..3 {
        prover.allocate(Some((scalar(2), scalar(3), scalar(6)))).unwrap();
    }
    let proof = prover.prove().unwrap();

    let mut covered = ConstraintSystem::new_verifier(4);
    covered.finalize_inputs();
    for _ in 0..3 {
        covered.allocate(None).unwrap();
    }
    assert!(covered.verify(&proof));

    // Three generators hold the gates but not their padding to four.
    let mut short = ConstraintSystem::new_verifier(3);
    short.finalize_inputs();
    for _ in 0..3 {
        short.allocate(None).unwrap();
    }
    assert!(!short.verify(&proof));
}
