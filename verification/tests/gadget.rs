use std::collections::HashMap;
use zkif_bulletproofs::constraint_system::{ConstraintSystem, Phase};
use zkif_bulletproofs::error::Error;
use zkif_bulletproofs::gadget::{
    allocate_constraint_gates, allocate_residual_gates, assign_values, assign_witness,
    bind_instance, check_terms, convert_zkif_lc, declared_variables, eval_zkif_lc, gate_wire,
    tie_gates,
};
use zkif_bulletproofs::gadget_from_messages;
use zkif_bulletproofs::linear::{LinearCombination, Variable};
use zkif_bulletproofs::messages::{CircuitVariable, Constraint, Messages, Term};
use zkif_bulletproofs::scalar::{scalar_from_zkif, Scalar};

fn scalar(value: u64) -> Scalar {
    scalar_from_zkif(&value.to_le_bytes()).unwrap()
}

fn var(id: u64, value: u32) -> CircuitVariable {
    CircuitVariable { id, value: value.to_le_bytes().to_vec() }
}

fn term(id: u64, coefficient: u8) -> Term {
    Term { id, value: vec![coefficient] }
}

fn constraint(a: &[(u64, u8)], b: &[(u64, u8)], c: &[(u64, u8)]) -> Constraint {
    let terms = |list: &[(u64, u8)]| list.iter().map(|t| term(t.0, t.1)).collect::<Vec<_>>();
    Constraint { a: terms(a), b: terms(b), c: terms(c) }
}

/// x = 3, y = 4, zz = 25 public; xx = 9, yy = 16 private;
/// x * x = xx, y * y = yy, 1 * (xx + yy) = zz.
fn example() -> Messages {
    Messages {
        instance_variables: Some(vec![var(1, 3), var(2, 4), var(3, 25)]),
        private_variables: Some(vec![var(4, 9), var(5, 16)]),
        constraints: Some(vec![
            constraint(&[(1, 1)], &[(1, 1)], &[(4, 1)]),
            constraint(&[(2, 1)], &[(2, 1)], &[(5, 1)]),
            constraint(&[(0, 1)], &[(4, 1), (5, 1)], &[(3, 1)]),
        ]),
    }
}

/// A 32-byte buffer that writes a number above the group order.
fn not_canonical() -> Vec<u8> {
    vec![0xff; 32]
}

fn system(prover: bool, capacity: usize) -> ConstraintSystem {
    let mut cs = if prover {
        ConstraintSystem::new_prover(capacity)
    } else {
        ConstraintSystem::new_verifier(capacity)
    };
    cs.finalize_inputs();
    cs
}

fn constraints_of(cs: &ConstraintSystem) -> Vec<Vec<(Variable, Scalar)>> {
    (0..cs.constraint_count()).map(|k| cs.constraint(k).terms().clone()).collect()
}

#[test]
fn the_example_is_laid_out_on_five_gates() {
    let mut cs = system(true, 8);
    assert_eq!(gadget_from_messages(&mut cs, &example(), true), Ok(()));
    assert_eq!(cs.gate_count(), 5);
    assert_eq!(cs.phase(), Phase::GatesAllocated);

    // One gate per constraint, with the values of a, b and c on its wires.
    assert_eq!(cs.gate_wires(0), (scalar(3), scalar(3), scalar(9)));
    assert_eq!(cs.gate_wires(1), (scalar(4), scalar(4), scalar(16)));
    assert_eq!(cs.gate_wires(2), (scalar(1), scalar(25), scalar(25)));
    // One gate per private variable, its value on the left wire.
    assert_eq!(cs.gate_wires(3), (scalar(9), scalar(0), scalar(0)));
    assert_eq!(cs.gate_wires(4), (scalar(16), scalar(0), scalar(0)));

    let minus_one = scalar(1).neg();
    assert_eq!(
        constraints_of(&cs),
        vec![
            vec![(Variable::One, scalar(3)), (Variable::MultiplierLeft(0), minus_one)],
            vec![(Variable::One, scalar(3)), (Variable::MultiplierRight(0), minus_one)],
            vec![(Variable::MultiplierLeft(3), scalar(1)), (Variable::MultiplierOutput(0), minus_one)],
            vec![(Variable::One, scalar(4)), (Variable::MultiplierLeft(1), minus_one)],
            vec![(Variable::One, scalar(4)), (Variable::MultiplierRight(1), minus_one)],
            vec![(Variable::MultiplierLeft(4), scalar(1)), (Variable::MultiplierOutput(1), minus_one)],
            vec![(Variable::One, scalar(1)), (Variable::MultiplierLeft(2), minus_one)],
            vec![
                (Variable::MultiplierLeft(3), scalar(1)),
                (Variable::MultiplierLeft(4), scalar(1)),
                (Variable::MultiplierRight(2), minus_one),
            ],
            vec![(Variable::One, scalar(25)), (Variable::MultiplierOutput(2), minus_one)],
        ]
    );
}

#[test]
fn both_sides_build_the_same_system() {
    let mut prover = system(true, 8);
    let mut verifier = system(false, 8);
    assert_eq!(gadget_from_messages(&mut prover, &example(), true), Ok(()));
    // The verifying side has no use for the witness.
    let mut public = example();
    public.private_variables = Some(vec![
        CircuitVariable { id: 4, value: vec![] },
        CircuitVariable { id: 5, value: vec![] },
    ]);
    assert_eq!(gadget_from_messages(&mut verifier, &public, false), Ok(()));
    assert_eq!(prover.gate_count(), verifier.gate_count());
    assert_eq!(constraints_of(&prover), constraints_of(&verifier));

    // And so does a second run of either side.
    let mut again = system(true, 8);
    assert_eq!(gadget_from_messages(&mut again, &example(), true), Ok(()));
    assert_eq!(constraints_of(&again), constraints_of(&prover));
    for gate in 0..5 {
        assert_eq!(again.gate_wires(gate), prover.gate_wires(gate));
    }
}

#[test]
fn a_missing_section_fails_before_any_gate() {
    let missing = Messages { constraints: None, ..example() };
    let mut cs = system(true, 8);
    assert_eq!(gadget_from_messages(&mut cs, &missing, true), Err(Error::MissingField));
    assert_eq!(cs.gate_count(), 0);
    assert_eq!(cs.constraint_count(), 0);

    let missing = Messages { instance_variables: None, ..example() };
    assert_eq!(gadget_from_messages(&mut cs, &missing, false), Err(Error::MissingField));
    let missing = Messages { private_variables: None, ..example() };
    assert_eq!(gadget_from_messages(&mut cs, &missing, false), Err(Error::MissingField));
    assert_eq!(missing.circuit().err(), Some(Error::MissingField));
    assert!(example().circuit().is_ok());
}

#[test]
fn too_small_a_capacity_fails_and_leaves_the_system_alone() {
    let mut cs = system(true, 4);
    assert_eq!(gadget_from_messages(&mut cs, &example(), true), Err(Error::AllocationFailure));
    assert_eq!(cs.gate_count(), 0);
    assert_eq!(cs.constraint_count(), 0);
    assert_eq!(cs.phase(), Phase::InputsDeclared);

    let mut verifier = system(false, 2);
    assert_eq!(
        gadget_from_messages(&mut verifier, &example(), false),
        Err(Error::AllocationFailure)
    );
    assert_eq!(verifier.gate_count(), 0);

    // Exactly enough is enough.
    let mut exact = system(true, 5);
    assert_eq!(gadget_from_messages(&mut exact, &example(), true), Ok(()));
    assert_eq!(exact.gate_count(), 5);
}

#[test]
fn a_failed_build_keeps_what_was_there_before() {
    let mut cs = system(true, 5);
    let (left, _, _) = cs.allocate(Some((scalar(2), scalar(3), scalar(6)))).unwrap();
    cs.constrain(LinearCombination::from_variable(left));
    // Five more gates do not fit beside the first.
    assert_eq!(gadget_from_messages(&mut cs, &example(), true), Err(Error::AllocationFailure));
    assert_eq!(cs.gate_count(), 1);
    assert_eq!(cs.gate_wires(0), (scalar(2), scalar(3), scalar(6)));
    assert_eq!(constraints_of(&cs), vec![vec![(Variable::MultiplierLeft(0), scalar(1))]]);
    assert_eq!(cs.phase(), Phase::GatesAllocated);
}

#[test]
fn a_build_after_earlier_gates_counts_on_from_them() {
    let mut cs = system(false, 8);
    cs.allocate(None).unwrap();
    assert_eq!(gadget_from_messages(&mut cs, &example(), false), Ok(()));
    assert_eq!(cs.gate_count(), 6);
    let minus_one = scalar(1).neg();
    assert_eq!(
        cs.constraint(0).terms(),
        &vec![(Variable::One, scalar(3)), (Variable::MultiplierLeft(1), minus_one)]
    );
    assert_eq!(
        cs.constraint(2).terms(),
        &vec![(Variable::MultiplierLeft(4), scalar(1)), (Variable::MultiplierOutput(1), minus_one)]
    );
}

#[test]
fn an_unknown_variable_fails_and_leaves_the_system_alone() {
    let mut messages = example();
    messages.constraints.as_mut().unwrap()[1].b = vec![term(77, 1)];
    // Either path finds the id unbound when it ties the wires.
    let mut verifier = system(false, 8);
    assert_eq!(
        gadget_from_messages(&mut verifier, &messages, false),
        Err(Error::UnknownVariable(77))
    );
    assert_eq!(verifier.gate_count(), 0);
    assert_eq!(verifier.constraint_count(), 0);
    let mut cs = system(true, 8);
    assert_eq!(gadget_from_messages(&mut cs, &messages, true), Err(Error::UnknownVariable(77)));
    assert_eq!(cs.gate_count(), 0);
    assert_eq!(cs.constraint_count(), 0);
}

#[test]
fn the_first_unknown_variable_is_named() {
    let mut messages = example();
    {
        let constraints = messages.constraints.as_mut().unwrap();
        constraints[2].a = vec![term(91, 1)];
        constraints[1].c = vec![term(5, 1), term(92, 1)];
        constraints[1].b = vec![term(2, 1), term(93, 1), term(94, 1)];
    }
    for prover in [true, false] {
        let mut cs = system(prover, 8);
        assert_eq!(
            gadget_from_messages(&mut cs, &messages, prover),
            Err(Error::UnknownVariable(93))
        );
    }
}

#[test]
fn an_unknown_variable_comes_after_the_gates() {
    let mut messages = example();
    messages.constraints.as_mut().unwrap()[0].a = vec![term(77, 1)];
    // Too little room for the gates: that is found first, on either path.
    for prover in [true, false] {
        let mut cs = system(prover, 4);
        assert_eq!(
            gadget_from_messages(&mut cs, &messages, prover),
            Err(Error::AllocationFailure)
        );
    }
    // A declared variable without its witness value: that is found when its
    // gate is filled, before the wires are tied.
    messages.private_variables.as_mut().unwrap()[1].value = vec![];
    let mut cs = system(true, 8);
    assert_eq!(gadget_from_messages(&mut cs, &messages, true), Err(Error::AllocationFailure));
    let mut verifier = system(false, 8);
    assert_eq!(
        gadget_from_messages(&mut verifier, &messages, false),
        Err(Error::UnknownVariable(77))
    );
}

#[test]
fn failures_come_in_the_order_of_the_passes() {
    // The last constraint has a coefficient that is no field element.
    let mut messages = example();
    messages.constraints.as_mut().unwrap()[2].c[0].value = not_canonical();
    // With room for one gate the second allocation fails before the third
    // constraint is looked at, on either path.
    let mut cs = system(true, 1);
    assert_eq!(gadget_from_messages(&mut cs, &messages, true), Err(Error::AllocationFailure));
    let mut verifier = system(false, 1);
    assert_eq!(
        gadget_from_messages(&mut verifier, &messages, false),
        Err(Error::AllocationFailure)
    );
    // With room for all, the proving path reads the coefficient for the third
    // gate, the verifying path when it ties that gate.
    let mut cs = system(true, 8);
    assert_eq!(gadget_from_messages(&mut cs, &messages, true), Err(Error::InvalidScalarEncoding));
    let mut verifier = system(false, 8);
    assert_eq!(
        gadget_from_messages(&mut verifier, &messages, false),
        Err(Error::InvalidScalarEncoding)
    );
    // An unbound id in an earlier term comes before it.
    messages.constraints.as_mut().unwrap()[0].b = vec![term(77, 1)];
    assert_eq!(
        gadget_from_messages(&mut verifier, &messages, false),
        Err(Error::UnknownVariable(77))
    );
    // Values are decoded before any gate is allocated.
    let mut messages = example();
    messages.instance_variables.as_mut().unwrap()[0].value = not_canonical();
    let mut none = system(false, 0);
    assert_eq!(gadget_from_messages(&mut none, &messages, false), Err(Error::InvalidScalarEncoding));
    assert_eq!(none.gate_count(), 0);
}

#[test]
fn a_private_variable_without_a_value_fails_the_proving_path() {
    // The witness gives no value for yy.
    let mut messages = example();
    messages.private_variables.as_mut().unwrap()[1].value = vec![];
    let mut cs = system(true, 8);
    assert_eq!(gadget_from_messages(&mut cs, &messages, true), Err(Error::AllocationFailure));
    assert_eq!(cs.gate_count(), 0);
    assert_eq!(cs.constraint_count(), 0);
    // The verifying path does not ask for it.
    let mut verifier = system(false, 8);
    assert_eq!(gadget_from_messages(&mut verifier, &messages, false), Ok(()));
    assert_eq!(verifier.gate_count(), 5);

    // A variable that no constraint names still needs its value for its gate.
    let mut messages = example();
    messages.private_variables.as_mut().unwrap().push(CircuitVariable { id: 6, value: vec![] });
    let mut cs = system(true, 8);
    assert_eq!(gadget_from_messages(&mut cs, &messages, true), Err(Error::AllocationFailure));
    assert_eq!(cs.gate_count(), 0);

    // A value of zero is a value.
    let mut messages = example();
    messages.private_variables.as_mut().unwrap().push(var(6, 0));
    let mut cs = system(true, 8);
    assert_eq!(gadget_from_messages(&mut cs, &messages, true), Ok(()));
    assert_eq!(cs.gate_wires(5), (scalar(0), scalar(0), scalar(0)));
}

#[test]
fn private_values_are_read_by_the_proving_path_only() {
    let mut messages = example();
    messages.private_variables.as_mut().unwrap()[1].value = not_canonical();
    let mut prover = system(true, 8);
    assert_eq!(
        gadget_from_messages(&mut prover, &messages, true),
        Err(Error::InvalidScalarEncoding)
    );
    let mut verifier = system(false, 8);
    assert_eq!(gadget_from_messages(&mut verifier, &messages, false), Ok(()));
    assert_eq!(verifier.gate_count(), 5);
}

#[test]
fn a_proving_system_cannot_be_built_on_the_verifying_path() {
    let mut cs = system(true, 8);
    assert_eq!(gadget_from_messages(&mut cs, &example(), false), Err(Error::AllocationFailure));
    assert_eq!(cs.gate_count(), 0);
    // Nothing to allocate, nothing to fail.
    let empty = Messages {
        instance_variables: Some(vec![]),
        private_variables: Some(vec![]),
        constraints: Some(vec![]),
    };
    assert_eq!(gadget_from_messages(&mut cs, &empty, false), Ok(()));
    assert_eq!(cs.gate_count(), 0);
    assert_eq!(cs.phase(), Phase::InputsDeclared);
}

#[test]
fn bound_and_repeated_private_variables_get_no_gate() {
    let mut messages = example();
    // Id 2 is an instance variable, id 0 the constant, id 4 comes twice.
    messages.private_variables =
        Some(vec![var(4, 9), var(2, 4), var(0, 1), var(5, 16), var(4, 9), var(6, 1)]);
    let mut cs = system(true, 8);
    assert_eq!(gadget_from_messages(&mut cs, &messages, true), Ok(()));
    // Three constraints, then ids 4, 5 and 6.
    assert_eq!(cs.gate_count(), 6);
    assert_eq!(cs.gate_wires(3).0, scalar(9));
    assert_eq!(cs.gate_wires(4).0, scalar(16));
    assert_eq!(cs.gate_wires(5).0, scalar(1));
}

#[test]
fn terms_are_evaluated_on_the_witness() {
    let mut values = HashMap::new();
    values.insert(1, scalar(3));
    values.insert(4, scalar(9));
    // 2 * 3 + 3 * 9 = 33
    let terms = vec![term(1, 2), term(4, 3)];
    assert_eq!(eval_zkif_lc(&values, &terms), Ok(scalar(33)));
    assert_eq!(eval_zkif_lc(&values, &[]), Ok(scalar(0)));
    let bad = vec![term(1, 2), Term { id: 4, value: not_canonical() }];
    assert_eq!(eval_zkif_lc(&values, &bad), Err(Error::InvalidScalarEncoding));
}

#[test]
fn a_term_without_a_value_cannot_be_evaluated() {
    let mut values = HashMap::new();
    values.insert(1, scalar(3));
    let missing = term(9, 5);
    let invalid = Term { id: 1, value: not_canonical() };
    let missing_and_invalid = Term { id: 9, value: not_canonical() };
    let error = |terms: &[Term]| eval_zkif_lc(&values, terms).err();
    assert_eq!(error(&[term(1, 2), missing.clone()]), Some(Error::AllocationFailure));
    assert_eq!(error(&[missing.clone(), invalid.clone()]), Some(Error::AllocationFailure));
    assert_eq!(error(&[invalid, missing]), Some(Error::InvalidScalarEncoding));
    assert_eq!(error(&[missing_and_invalid]), Some(Error::AllocationFailure));
}

#[test]
fn terms_are_rewritten_over_the_bindings() {
    let mut bindings = HashMap::new();
    bindings.insert(0, LinearCombination::from_variable(Variable::One));
    bindings.insert(1, LinearCombination::from_scalar(scalar(3)));
    bindings.insert(4, LinearCombination::from_variable(Variable::MultiplierLeft(7)));
    let lc = convert_zkif_lc(&bindings, &[term(1, 2), term(4, 5), term(0, 9)]).unwrap();
    assert_eq!(
        lc.terms(),
        &vec![
            (Variable::One, scalar(6)),
            (Variable::MultiplierLeft(7), scalar(5)),
            (Variable::One, scalar(9)),
        ]
    );
    assert!(convert_zkif_lc(&bindings, &[]).unwrap().terms().is_empty());
}

#[test]
fn the_first_bad_term_decides_the_error() {
    let mut bindings = HashMap::new();
    bindings.insert(1, LinearCombination::from_scalar(scalar(3)));
    let invalid = Term { id: 1, value: not_canonical() };
    let unknown = term(8, 1);
    let unknown_and_invalid = Term { id: 8, value: not_canonical() };
    let error = |terms: &[Term]| convert_zkif_lc(&bindings, terms).err();
    assert_eq!(error(&[term(1, 1), unknown.clone()]), Some(Error::UnknownVariable(8)));
    assert_eq!(error(&[invalid.clone(), unknown.clone()]), Some(Error::InvalidScalarEncoding));
    assert_eq!(error(&[unknown, invalid]), Some(Error::UnknownVariable(8)));
    assert_eq!(error(&[unknown_and_invalid]), Some(Error::UnknownVariable(8)));
}

#[test]
fn instance_variables_are_bound_to_constants() {
    let bindings = bind_instance(&vec![var(1, 3), var(2, 4), var(1, 5)]).unwrap();
    assert_eq!(bindings.len(), 3);
    assert_eq!(bindings[&0].terms(), &vec![(Variable::One, scalar(1))]);
    // The later value for id 1 stands.
    assert_eq!(bindings[&1].terms(), &vec![(Variable::One, scalar(5))]);
    assert_eq!(bindings[&2].terms(), &vec![(Variable::One, scalar(4))]);
    let bad = vec![CircuitVariable { id: 1, value: not_canonical() }];
    assert_eq!(bind_instance(&bad).err(), Some(Error::InvalidScalarEncoding));
}

#[test]
fn values_are_assigned_in_order() {
    let mut values = HashMap::new();
    values.insert(0, scalar(1));
    assert_eq!(assign_values(&mut values, &vec![var(4, 9), var(5, 16), var(4, 10)]), Ok(()));
    assert_eq!(values.len(), 3);
    assert_eq!(values[&4], scalar(10));
    assert_eq!(values[&5], scalar(16));
    // An empty instance value is zero.
    assert_eq!(assign_values(&mut values, &vec![CircuitVariable { id: 7, value: vec![] }]), Ok(()));
    assert_eq!(values[&7], scalar(0));
    let bad = vec![CircuitVariable { id: 6, value: not_canonical() }];
    assert_eq!(assign_values(&mut values, &bad), Err(Error::InvalidScalarEncoding));
}

#[test]
fn witness_values_are_assigned_where_there_are_any() {
    let mut values = HashMap::new();
    values.insert(0, scalar(1));
    let private = vec![
        var(4, 9),
        CircuitVariable { id: 5, value: vec![] },
        var(6, 0),
        CircuitVariable { id: 4, value: vec![] },
    ];
    assert_eq!(assign_witness(&mut values, &private), Ok(()));
    assert_eq!(values.len(), 3);
    assert_eq!(values[&4], scalar(9));
    assert_eq!(values[&6], scalar(0));
    assert!(!values.contains_key(&5));
    let bad = vec![CircuitVariable { id: 8, value: not_canonical() }];
    assert_eq!(assign_witness(&mut values, &bad), Err(Error::InvalidScalarEncoding));
}

#[test]
fn the_passes_can_be_run_one_by_one() {
    let circuit = example();
    let instance = circuit.instance_variables.unwrap();
    let private = circuit.private_variables.unwrap();
    let constraints = circuit.constraints.unwrap();
    let mut cs = system(true, 8);
    let mut id_to_lc = bind_instance(&instance).unwrap();
    let mut id_to_value = HashMap::new();
    id_to_value.insert(0, scalar(1));
    assign_values(&mut id_to_value, &instance).unwrap();
    assign_witness(&mut id_to_value, &private).unwrap();

    let declared = declared_variables(&instance, &private);
    let gates =
        allocate_constraint_gates(&mut cs, &id_to_value, &declared, &constraints, true).unwrap();
    assert_eq!(cs.gate_count(), 3);
    assert_eq!(gates.left, vec![
        Variable::MultiplierLeft(0),
        Variable::MultiplierLeft(1),
        Variable::MultiplierLeft(2)
    ]);
    assert_eq!(gates.right[1], Variable::MultiplierRight(1));
    assert_eq!(gates.output[2], Variable::MultiplierOutput(2));

    assert_eq!(
        allocate_residual_gates(&mut cs, &mut id_to_lc, &id_to_value, &private, true),
        Ok(())
    );
    assert_eq!(cs.gate_count(), 5);
    assert_eq!(id_to_lc[&4].terms(), &vec![(Variable::MultiplierLeft(3), scalar(1))]);
    assert_eq!(id_to_lc[&5].terms(), &vec![(Variable::MultiplierLeft(4), scalar(1))]);

    assert_eq!(tie_gates(&mut cs, &id_to_lc, &constraints, &gates), Ok(()));
    assert_eq!(cs.constraint_count(), 9);
}

#[test]
fn a_residual_variable_without_a_value_fails_the_proving_path() {
    let mut cs = system(true, 8);
    let mut id_to_lc = bind_instance(&vec![]).unwrap();
    let id_to_value = HashMap::new();
    assert_eq!(
        allocate_residual_gates(&mut cs, &mut id_to_lc, &id_to_value, &vec![var(4, 9)], true),
        Err(Error::AllocationFailure)
    );
}

#[test]
fn a_satisfying_witness_satisfies_the_gates_and_the_constraints() {
    let mut cs = system(true, 8);
    assert_eq!(gadget_from_messages(&mut cs, &example(), true), Ok(()));
    for gate in 0..cs.gate_count() {
        let (left, right, output) = cs.gate_wires(gate);
        assert_eq!(left.mul(&right), output);
    }
    for k in 0..cs.constraint_count() {
        assert_eq!(cs.eval(cs.constraint(k)), scalar(0));
    }
}

#[test]
fn a_violating_witness_breaks_a_gate_and_nothing_else() {
    let mut messages = example();
    // xx = 10 is not 3 * 3.
    messages.private_variables.as_mut().unwrap()[0] = var(4, 10);
    let mut cs = system(true, 8);
    assert_eq!(gadget_from_messages(&mut cs, &messages, true), Ok(()));
    let broken: Vec<usize> = (0..cs.gate_count())
        .filter(|&gate| {
            let (left, right, output) = cs.gate_wires(gate);
            left.mul(&right) != output
        })
        .collect();
    // x * x = xx fails, and so does 1 * (xx + yy) = zz.
    assert_eq!(broken, vec![0, 2]);
    for k in 0..cs.constraint_count() {
        assert_eq!(cs.eval(cs.constraint(k)), scalar(0));
    }
}

#[test]
fn the_example_gadget_squares_and_adds() {
    let mut cs = system(true, 2);
    assert_eq!(zkif_bulletproofs::gadget::example_gadget(&mut cs), Ok(()));
    assert_eq!(cs.gate_count(), 2);
    assert_eq!(cs.gate_wires(0), (scalar(3), scalar(3), scalar(9)));
    assert_eq!(cs.gate_wires(1), (scalar(4), scalar(4), scalar(16)));
    assert_eq!(cs.constraint_count(), 5);
    assert_eq!(
        cs.constraint(4).terms(),
        &vec![
            (Variable::MultiplierOutput(0), scalar(1)),
            (Variable::MultiplierOutput(1), scalar(1)),
            (Variable::One, scalar(25).neg()),
        ]
    );
    for k in 0..5 {
        assert_eq!(cs.eval(cs.constraint(k)), scalar(0));
    }
    let proof = cs.prove().unwrap();

    let mut verifier = system(false, 2);
    assert_eq!(zkif_bulletproofs::gadget::example_gadget(&mut verifier), Ok(()));
    assert!(verifier.verify(&proof));
}

#[test]
fn the_example_gadget_needs_two_gates() {
    let mut cs = system(true, 3);
    cs.allocate(Some((scalar(1), scalar(1), scalar(1)))).unwrap();
    cs.allocate(Some((scalar(1), scalar(1), scalar(1)))).unwrap();
    assert_eq!(
        zkif_bulletproofs::gadget::example_gadget(&mut cs),
        Err(Error::AllocationFailure)
    );
    assert_eq!(cs.gate_count(), 2);
    assert_eq!(cs.constraint_count(), 0);
}

#[test]
fn a_verifying_system_takes_the_proving_path_too() {
    let mut cs = system(false, 8);
    assert_eq!(gadget_from_messages(&mut cs, &example(), true), Ok(()));
    assert_eq!(cs.gate_count(), 5);
    let mut verifier = system(false, 8);
    assert_eq!(gadget_from_messages(&mut verifier, &example(), false), Ok(()));
    assert_eq!(constraints_of(&cs), constraints_of(&verifier));
}

#[test]
fn the_declared_variables_are_collected() {
    let declared = declared_variables(&vec![var(1, 3), var(2, 4)], &vec![var(4, 9), var(2, 0)]);
    let mut ids: Vec<u64> = declared.into_iter().collect();
    ids.sort();
    assert_eq!(ids, vec![0, 1, 2, 4]);
    assert_eq!(declared_variables(&vec![], &vec![]).len(), 1);
}

#[test]
fn a_gate_carries_the_value_of_its_terms() {
    let mut values = HashMap::new();
    values.insert(1, scalar(3));
    values.insert(4, scalar(9));
    let declared = declared_variables(&vec![var(1, 3)], &vec![var(4, 9), var(5, 16)]);
    // 2 * 3 + 3 * 9 = 33
    assert_eq!(gate_wire(&values, &declared, &[term(1, 2), term(4, 3)]), Ok(scalar(33)));
    // A declared variable without a value.
    assert_eq!(
        gate_wire(&values, &declared, &[term(1, 2), term(5, 1)]),
        Err(Error::AllocationFailure)
    );
    // An undeclared variable is for the equality pass: zero for now.
    assert_eq!(gate_wire(&values, &declared, &[term(1, 2), term(77, 1)]), Ok(scalar(0)));
    // What comes after it in the list is still looked at.
    assert_eq!(
        gate_wire(&values, &declared, &[term(77, 1), term(5, 1)]),
        Err(Error::AllocationFailure)
    );
    let invalid = Term { id: 1, value: not_canonical() };
    assert_eq!(
        gate_wire(&values, &declared, &[term(77, 1), invalid.clone()]),
        Err(Error::InvalidScalarEncoding)
    );
    assert_eq!(check_terms(&values, &declared, &[term(77, 1), term(1, 1)]), Ok(()));
    assert_eq!(check_terms(&values, &declared, &[term(5, 1)]), Err(Error::AllocationFailure));
    assert_eq!(
        check_terms(&values, &declared, &[invalid, term(5, 1)]),
        Err(Error::InvalidScalarEncoding)
    );
    let unknown_and_invalid = Term { id: 77, value: not_canonical() };
    assert_eq!(
        check_terms(&values, &declared, &[unknown_and_invalid]),
        Err(Error::InvalidScalarEncoding)
    );
}
