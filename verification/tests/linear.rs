use zkif_bulletproofs::linear::{LinearCombination, Variable};
use zkif_bulletproofs::scalar::{scalar_from_zkif, Scalar};

fn scalar(value: u64) -> Scalar {
    scalar_from_zkif(&value.to_le_bytes()).unwrap()
}

#[test]
fn empty_combination_has_no_terms() {
    assert!(LinearCombination::new().terms().is_empty());
}

#[test]
fn constants_and_variables_are_single_terms() {
    let seven = LinearCombination::from_scalar(scalar(7));
    assert_eq!(seven.terms(), &vec![(Variable::One, scalar(7))]);
    let wire = LinearCombination::from_variable(Variable::MultiplierRight(2));
    assert_eq!(wire.terms(), &vec![(Variable::MultiplierRight(2), Scalar::one())]);
}

#[test]
fn sum_keeps_the_terms_of_both_in_order() {
    let a = LinearCombination::from_scalar(scalar(7));
    let b = LinearCombination::from_variable(Variable::MultiplierLeft(0));
    let sum = a.add(&b).add(&LinearCombination::from_scalar(scalar(1)));
    assert_eq!(
        sum.terms(),
        &vec![
            (Variable::One, scalar(7)),
            (Variable::MultiplierLeft(0), scalar(1)),
            (Variable::One, scalar(1)),
        ]
    );
}

#[test]
fn difference_negates_the_subtrahend() {
    let a = LinearCombination::from_scalar(scalar(7));
    let b = LinearCombination::from_variable(Variable::MultiplierOutput(3));
    let difference = a.subtract(&b);
    assert_eq!(
        difference.terms(),
        &vec![(Variable::One, scalar(7)), (Variable::MultiplierOutput(3), scalar(1).neg())]
    );
    // The negated coefficient is the group order minus one.
    let minus_one = difference.terms()[1].1;
    assert_eq!(minus_one.add(&Scalar::one()), Scalar::zero());
}

#[test]
fn scaling_multiplies_every_coefficient() {
    let lc = LinearCombination::from_scalar(scalar(7))
        .add(&LinearCombination::from_variable(Variable::MultiplierLeft(1)));
    let scaled = lc.scale(&scalar(6));
    assert_eq!(
        scaled.terms(),
        &vec![(Variable::One, scalar(42)), (Variable::MultiplierLeft(1), scalar(6))]
    );
    // The operand is not consumed.
    assert_eq!(lc.terms().len(), 2);
}

#[test]
fn negation_negates_every_coefficient() {
    let lc = LinearCombination::from_scalar(scalar(5))
        .add(&LinearCombination::from_variable(Variable::MultiplierLeft(1)));
    let negated = lc.negate();
    assert_eq!(
        negated.terms(),
        &vec![(Variable::One, scalar(5).neg()), (Variable::MultiplierLeft(1), scalar(1).neg())]
    );
    assert_eq!(negated.negate().terms(), lc.terms());
}
