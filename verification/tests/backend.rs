use zkif_bulletproofs::error::Error;
use zkif_bulletproofs::messages::{CircuitVariable, Constraint, Messages, Term};
use zkif_bulletproofs::{prove, verify};
use zkinterface::producers::examples;
use zkinterface::zkinterface_generated::zkinterface::Message;
use zkinterface::Reader;

/// Reads the sections out of the exchange-format buffers.
fn messages_from_reader(reader: &Reader) -> Messages {
    let variables = |vars: Vec<zkinterface::consumers::reader::Variable>| {
        vars.iter()
            .map(|var| CircuitVariable { id: var.id, value: var.value.to_vec() })
            .collect::<Vec<_>>()
    };
    let terms = |terms: &[zkinterface::consumers::reader::Term]| {
        terms.iter().map(|term| Term { id: term.id, value: term.value.to_vec() }).collect::<Vec<_>>()
    };
    let has_constraints =
        reader.into_iter().any(|root| root.message_type() == Message::ConstraintSystem);
    Messages {
        instance_variables: reader.instance_variables().map(variables),
        private_variables: reader.private_variables().map(variables),
        constraints: if has_constraints {
            Some(
                reader
                    .iter_constraints()
                    .map(|c| Constraint { a: terms(&c.a), b: terms(&c.b), c: terms(&c.c) })
                    .collect(),
            )
        } else {
            None
        },
    }
}

fn example_verifier_reader() -> Reader {
    let mut buf = Vec::<u8>::new();
    examples::example_circuit_header().write_into(&mut buf).unwrap();
    examples::example_constraints().write_into(&mut buf).unwrap();
    let mut msg = Reader::new();
    msg.push_message(buf).unwrap();
    msg
}

fn example_prover_reader() -> Reader {
    let mut msg = example_verifier_reader();
    let mut buf = Vec::<u8>::new();
    examples::example_witness().write_into(&mut buf).unwrap();
    msg.push_message(buf).unwrap();
    msg
}

#[test]
fn test_zkinterface_backend() {
    // Load test messages common to the prover and verifier: Circuit and Constraints.
    let verifier_messages = messages_from_reader(&example_verifier_reader());

    // Prover uses an additional message: Witness.
    let prover_messages = messages_from_reader(&example_prover_reader());

    // Prove using the witness.
    let proof = prove(&prover_messages, 128).unwrap();

    // Verify using the circuit and the proof.
    verify(&verifier_messages, &proof, 128).unwrap();
}

#[test]
fn example_proof_is_accepted() {
    let verifier_messages = messages_from_reader(&example_verifier_reader());
    let prover_messages = messages_from_reader(&example_prover_reader());
    let proof = prove(&prover_messages, 8).unwrap();
    assert_eq!(verify(&verifier_messages, &proof, 8), Ok(true));
}

#[test]
fn missing_constraints_section_is_reported() {
    let mut buf = Vec::<u8>::new();
    examples::example_circuit_header().write_into(&mut buf).unwrap();
    examples::example_witness().write_into(&mut buf).unwrap();
    let mut reader = Reader::new();
    reader.push_message(buf).unwrap();
    let messages = messages_from_reader(&reader);
    assert!(messages.constraints.is_none());
    assert_eq!(prove(&messages, 128).err(), Some(Error::MissingField));

    let full = messages_from_reader(&example_prover_reader());
    let proof = prove(&full, 128).unwrap();
    assert_eq!(verify(&messages, &proof, 128), Err(Error::MissingField));
}

fn var(id: u64, value: u32) -> CircuitVariable {
    CircuitVariable { id, value: value.to_le_bytes().to_vec() }
}

fn constraint(a: &[(u64, u8)], b: &[(u64, u8)], c: &[(u64, u8)]) -> Constraint {
    let terms = |list: &[(u64, u8)]| {
        list.iter().map(|t| Term { id: t.0, value: vec![t.1] }).collect::<Vec<_>>()
    };
    Constraint { a: terms(a), b: terms(b), c: terms(c) }
}

#[test]
fn the_reader_hands_over_the_example() {
    let messages = messages_from_reader(&example_prover_reader());
    assert_eq!(messages.instance_variables, Some(vec![var(1, 3), var(2, 4), var(3, 25)]));
    assert_eq!(messages.private_variables, Some(vec![var(4, 9), var(5, 16)]));
    assert_eq!(
        messages.constraints,
        Some(vec![
            constraint(&[(1, 1)], &[(1, 1)], &[(4, 1)]),
            constraint(&[(2, 1)], &[(2, 1)], &[(5, 1)]),
            constraint(&[(0, 1)], &[(4, 1), (5, 1)], &[(3, 1)]),
        ])
    );
    // Without the witness section the private variables have no values.
    let public = messages_from_reader(&example_verifier_reader());
    assert_eq!(
        public.private_variables,
        Some(vec![
            CircuitVariable { id: 4, value: vec![] },
            CircuitVariable { id: 5, value: vec![] }
        ])
    );
}

#[test]
fn a_true_statement_verifies_with_any_sufficient_power_of_two() {
    let verifier_messages = messages_from_reader(&example_verifier_reader());
    let prover_messages = messages_from_reader(&example_prover_reader());
    for count in [8, 16, 64] {
        let proof = prove(&prover_messages, count).unwrap();
        assert_eq!(verify(&verifier_messages, &proof, count), Ok(true));
    }
}

#[test]
fn too_few_generators_are_an_allocation_failure() {
    let verifier_messages = messages_from_reader(&example_verifier_reader());
    let prover_messages = messages_from_reader(&example_prover_reader());
    let proof = prove(&prover_messages, 8).unwrap();
    // The example needs five gates.
    for count in 0..5 {
        assert_eq!(prove(&prover_messages, count).err(), Some(Error::AllocationFailure));
        assert_eq!(verify(&verifier_messages, &proof, count), Err(Error::AllocationFailure));
    }
    // Five to seven cover the gates but not the backend's padding to eight.
    for count in 5..8 {
        assert_eq!(prove(&prover_messages, count).err(), Some(Error::AllocationFailure));
        assert_eq!(verify(&verifier_messages, &proof, count), Ok(false));
    }
}

#[test]
fn a_flipped_bit_in_the_first_private_value_is_rejected() {
    let verifier_messages = messages_from_reader(&example_verifier_reader());
    for bit in [0, 3, 7, 9, 31] {
        let mut prover_messages = messages_from_reader(&example_prover_reader());
        prover_messages.private_variables.as_mut().unwrap()[0].value[bit / 8] ^= 1 << (bit % 8);
        let proof = prove(&prover_messages, 8).unwrap();
        assert_eq!(verify(&verifier_messages, &proof, 8), Ok(false));
    }
}

#[test]
fn a_flipped_bit_in_the_second_private_value_is_rejected() {
    let verifier_messages = messages_from_reader(&example_verifier_reader());
    for bit in [1, 4, 8, 16, 30] {
        let mut prover_messages = messages_from_reader(&example_prover_reader());
        prover_messages.private_variables.as_mut().unwrap()[1].value[bit / 8] ^= 1 << (bit % 8);
        let proof = prove(&prover_messages, 8).unwrap();
        assert_eq!(verify(&verifier_messages, &proof, 8), Ok(false));
    }
}

#[test]
fn a_proof_for_other_public_values_is_rejected() {
    let prover_messages = messages_from_reader(&example_prover_reader());
    let proof = prove(&prover_messages, 8).unwrap();
    let mut other = messages_from_reader(&example_verifier_reader());
    other.instance_variables.as_mut().unwrap()[2] = var(3, 26);
    assert_eq!(verify(&other, &proof, 8), Ok(false));
    // A proof made with other generators does not fit either.
    let verifier_messages = messages_from_reader(&example_verifier_reader());
    let wide = prove(&prover_messages, 16).unwrap();
    assert_eq!(verify(&verifier_messages, &wide, 16), Ok(true));
}

/// a = 3, b = 4, c = 5, zero = 0, with a^2 + b^2 = c^2 + zero^2 written as
/// two sums of squares of three constraints each, one constraint that
/// equates the sums and one that pins zero.
fn pythagoras() -> Messages {
    Messages {
        instance_variables: Some(vec![]),
        private_variables: Some(vec![
            var(1, 3),   // a
            var(2, 4),   // b
            var(3, 5),   // c
            var(4, 0),   // zero
            var(5, 9),   // a^2
            var(6, 16),  // b^2
            var(7, 25),  // a^2 + b^2
            var(8, 25),  // c^2
            var(9, 0),   // zero^2
            var(10, 25), // c^2 + zero^2
        ]),
        constraints: Some(vec![
            constraint(&[(1, 1)], &[(1, 1)], &[(5, 1)]),
            constraint(&[(2, 1)], &[(2, 1)], &[(6, 1)]),
            constraint(&[(5, 1), (6, 1)], &[(0, 1)], &[(7, 1)]),
            constraint(&[(3, 1)], &[(3, 1)], &[(8, 1)]),
            constraint(&[(4, 1)], &[(4, 1)], &[(9, 1)]),
            constraint(&[(8, 1), (9, 1)], &[(0, 1)], &[(10, 1)]),
            constraint(&[(0, 1)], &[(7, 1)], &[(10, 1)]),
            constraint(&[(0, 1)], &[(4, 1)], &[]),
        ]),
    }
}

#[test]
fn sums_of_squares_are_proved_equal() {
    let messages = pythagoras();
    assert_eq!(messages.constraints.as_ref().unwrap().len(), 3 + 3 + 1 + 1);
    let mut cs = zkif_bulletproofs::constraint_system::ConstraintSystem::new_prover(32);
    cs.finalize_inputs();
    assert_eq!(zkif_bulletproofs::gadget_from_messages(&mut cs, &messages, true), Ok(()));
    // One gate per constraint and one per variable; three ties per constraint.
    assert_eq!(cs.gate_count(), 3 + 3 + 1 + 1 + 10);
    assert_eq!(cs.constraint_count(), 3 * (3 + 3 + 1 + 1));

    let proof = prove(&messages, 32).unwrap();
    assert_eq!(verify(&messages, &proof, 32), Ok(true));
}

#[test]
fn unequal_sums_of_squares_are_rejected() {
    let mut messages = pythagoras();
    // c = 6 with every square and sum kept consistent but the equation broken.
    {
        let private = messages.private_variables.as_mut().unwrap();
        private[2] = var(3, 6);
        private[7] = var(8, 36);
        private[9] = var(10, 36);
    }
    let proof = prove(&messages, 32).unwrap();
    assert_eq!(verify(&messages, &proof, 32), Ok(false));
}

#[test]
fn there_is_no_proof_without_a_witness() {
    // The reader gives the private variables no values where no witness came.
    let messages = messages_from_reader(&example_verifier_reader());
    assert_eq!(prove(&messages, 128).err(), Some(Error::AllocationFailure));
}

#[test]
fn a_proof_is_owed_whatever_the_witness_says() {
    // xx = 10 is not 3 * 3: a proof comes back all the same, and is rejected.
    let mut messages = messages_from_reader(&example_prover_reader());
    messages.private_variables.as_mut().unwrap()[0] = var(4, 10);
    let proof = prove(&messages, 128).unwrap();
    let verifier_messages = messages_from_reader(&example_verifier_reader());
    assert_eq!(verify(&verifier_messages, &proof, 128), Ok(false));
}

#[test]
fn an_undeclared_variable_is_unknown_to_both() {
    let mut messages = messages_from_reader(&example_prover_reader());
    messages.constraints.as_mut().unwrap()[2].b.push(Term { id: 40, value: vec![1] });
    assert_eq!(prove(&messages, 128).err(), Some(Error::UnknownVariable(40)));
    let proof = prove(&messages_from_reader(&example_prover_reader()), 128).unwrap();
    assert_eq!(verify(&messages, &proof, 128), Err(Error::UnknownVariable(40)));
}
