//! Variables of a gate-based constraint system and linear combinations of them.
//!
//! Nothing here allocates a gate: the operations only combine handles that a
//! constraint system gave out.

use vstd::prelude::*;
use crate::field::{
    field_sub,
    lemma_add_laws,
    lemma_distributes,
    lemma_field_closed,
    lemma_mul_laws,
    lemma_neg_laws,
};
use crate::scalar::{field_add, field_mul, field_neg, Scalar};

verus! {

/// A handle on the constant one or on one wire of a multiplication gate.
#[derive(Clone, Copy, Debug, PartialEq, Eq, Structural)]
pub enum Variable {
    /// The constant 1.
    One,
    /// The left input of a gate, by its index.
    MultiplierLeft(usize),
    /// The right input of a gate, by its index.
    MultiplierRight(usize),
    /// The output of a gate, by its index.
    MultiplierOutput(usize),
}

/// The values on the three wires of one gate.
pub struct Wires {
    pub left: nat,
    pub right: nat,
    pub output: nat,
}

impl Variable {
    /// Whether the handle is the constant or names a wire of one of the first `gates` gates.
    pub open spec fn allocated(self, gates: nat) -> bool {
        match self {
            Variable::One => true,
            Variable::MultiplierLeft(i) => i < gates,
            Variable::MultiplierRight(i) => i < gates,
            Variable::MultiplierOutput(i) => i < gates,
        }
    }

    /// The value the handle stands for under an assignment of the wires; a
    /// wire that is not assigned counts as zero.
    pub open spec fn value(self, wires: Seq<Wires>) -> nat {
        match self {
            Variable::One => 1,
            Variable::MultiplierLeft(i) => if i < wires.len() { wires[i as int].left } else { 0 },
            Variable::MultiplierRight(i) => if i < wires.len() { wires[i as int].right } else { 0 },
            Variable::MultiplierOutput(i) => if i < wires.len() { wires[i as int].output } else { 0 },
        }
    }
}

/// The terms of a combination as mathematics: each coefficient by its value.
pub type Terms = Seq<(Variable, nat)>;

/// The value of a sum of terms under an assignment of the wires.
pub open spec fn evaluate(terms: Terms, wires: Seq<Wires>) -> nat
    decreases terms.len(),
{
    if terms.len() == 0 {
        0
    } else {
        field_add(
            evaluate(terms.drop_last(), wires),
            field_mul(terms.last().1, terms.last().0.value(wires)),
        )
    }
}

/// Every variable of the terms is allocated among the first `gates` gates.
pub open spec fn terms_allocated(terms: Terms, gates: nat) -> bool {
    forall|i: int| 0 <= i < terms.len() ==> (#[trigger] terms[i]).0.allocated(gates)
}

/// The terms with every coefficient multiplied by `factor`.
pub open spec fn scaled(terms: Terms, factor: nat) -> Terms {
    Seq::new(terms.len(), |i: int| (terms[i].0, field_mul(terms[i].1, factor)))
}

/// The terms with every coefficient replaced by its additive inverse.
pub open spec fn negated(terms: Terms) -> Terms {
    Seq::new(terms.len(), |i: int| (terms[i].0, field_neg(terms[i].1)))
}

/// An affine combination of variables: a list of terms, each a variable with
/// a coefficient. The order of the terms does not matter to its value.
#[derive(Clone, Debug, PartialEq, Eq)]
pub struct LinearCombination {
    terms: Vec<(Variable, Scalar)>,
}

impl View for LinearCombination {
    type V = Terms;

    open spec fn view(&self) -> Terms {
        Seq::new(self.terms_spec().len(), |i: int| (self.terms_spec()[i].0, self.terms_spec()[i].1@))
    }
}

impl LinearCombination {
    /// The stored terms.
    pub closed spec fn terms_spec(&self) -> Seq<(Variable, Scalar)> {
        self.terms@
    }

    /// The empty combination, the additive identity.
    pub fn new() -> (r: LinearCombination)
        ensures
            r@ == Terms::empty(),
    {
        let r = LinearCombination { terms: Vec::new() };
        assert(r@ =~= Terms::empty());
        r
    }

    /// The constant `value`.
    pub fn from_scalar(value: Scalar) -> (r: LinearCombination)
        ensures
            r@ == seq![(Variable::One, value@)],
    {
        let mut terms = Vec::new();
        terms.push((Variable::One, value));
        let r = LinearCombination { terms };
        assert(r@ =~= seq![(Variable::One, value@)]);
        r
    }

    /// The variable `var` with coefficient one.
    pub fn from_variable(var: Variable) -> (r: LinearCombination)
        ensures
            r@ == seq![(var, 1nat)],
    {
        let mut terms = Vec::new();
        terms.push((var, Scalar::one()));
        let r = LinearCombination { terms };
        assert(r@ =~= seq![(var, 1nat)]);
        r
    }

    /// The terms, in the order in which they were added.
    pub fn terms(&self) -> (r: &Vec<(Variable, Scalar)>)
        ensures
            r@ == self.terms_spec(),
    {
        &self.terms
    }

    /// The sum: the terms of `self` followed by those of `other`.
    pub fn add(self, other: &LinearCombination) -> (r: LinearCombination)
        ensures
            r@ == self@ + other@,
    {
        let mut terms = self.terms;
        let ghost before = terms@;
        let mut i: usize = 0;
        while i < other.terms.len()
            invariant
                i <= other.terms.len(),
                terms@ == before + other.terms@.take(i as int),
            decreases other.terms.len() - i,
        {
            terms.push(other.terms[i]);
            assert(other.terms@.take(i as int + 1) =~= other.terms@.take(i as int).push(
                other.terms@[i as int],
            ));
            assert(terms@ =~= before + other.terms@.take(i as int + 1));
            i += 1;
        }
        assert(other.terms@.take(i as int) =~= other.terms@);
        let r = LinearCombination { terms };
        assert(r@ =~= self@ + other@);
        r
    }

    /// The difference: the terms of `self` followed by those of `other` with
    /// their coefficients negated.
    pub fn subtract(self, other: &LinearCombination) -> (r: LinearCombination)
        ensures
            r@ == self@ + negated(other@),
    {
        let mut terms = self.terms;
        let ghost before = terms@;
        let mut i: usize = 0;
        while i < other.terms.len()
            invariant
                i <= other.terms.len(),
                terms@.len() == before.len() + i,
                forall|k: int| 0 <= k < before.len() ==> terms@[k] == before[k],
                forall|k: int|
                    before.len() <= k < before.len() + i ==> (#[trigger] terms@[k]).0
                        == other.terms@[k - before.len()].0 && terms@[k].1@ == field_neg(
                        other.terms@[k - before.len()].1@,
                    ),
            decreases other.terms.len() - i,
        {
            let term = other.terms[i];
            terms.push((term.0, term.1.neg()));
            i += 1;
        }
        let r = LinearCombination { terms };
        assert(r@ =~= self@ + negated(other@));
        r
    }

    /// The combination with every coefficient multiplied by `factor`.
    pub fn scale(&self, factor: &Scalar) -> (r: LinearCombination)
        ensures
            r@ == scaled(self@, factor@),
    {
        let mut terms: Vec<(Variable, Scalar)> = Vec::new();
        let mut i: usize = 0;
        while i < self.terms.len()
            invariant
                i <= self.terms.len(),
                terms@.len() == i,
                forall|k: int|
                    0 <= k < i ==> (#[trigger] terms@[k]).0 == self.terms@[k].0 && terms@[k].1@
                        == field_mul(self.terms@[k].1@, factor@),
            decreases self.terms.len() - i,
        {
            let term = self.terms[i];
            terms.push((term.0, term.1.mul(factor)));
            i += 1;
        }
        let r = LinearCombination { terms };
        assert(r@ =~= scaled(self@, factor@));
        r
    }

    /// The combination with every coefficient negated.
    pub fn negate(&self) -> (r: LinearCombination)
        ensures
            r@ == negated(self@),
    {
        let zero = LinearCombination::new();
        let r = zero.subtract(self);
        assert(r@ =~= negated(self@));
        r
    }
}

/// Evaluation results are reduced field elements.
pub proof fn lemma_evaluate_reduced(terms: Terms, wires: Seq<Wires>)
    ensures
        evaluate(terms, wires) < crate::scalar::group_order(),
    decreases terms.len(),
{
    crate::scalar::lemma_order_bounds();
    if terms.len() > 0 {
        lemma_field_closed(
            evaluate(terms.drop_last(), wires),
            field_mul(terms.last().1, terms.last().0.value(wires)),
        );
    }
}

/// A sum of combinations evaluates to the sum of their values.
pub proof fn law_add_evaluates(a: Terms, b: Terms, wires: Seq<Wires>)
    ensures
        evaluate(a + b, wires) == field_add(evaluate(a, wires), evaluate(b, wires)),
    decreases b.len(),
{
    lemma_evaluate_reduced(a, wires);
    if b.len() == 0 {
        assert(a + b =~= a);
        lemma_add_laws(evaluate(a, wires), 0, 0);
    } else {
        assert((a + b).drop_last() =~= a + b.drop_last());
        law_add_evaluates(a, b.drop_last(), wires);
        lemma_add_laws(
            evaluate(a, wires),
            evaluate(b.drop_last(), wires),
            field_mul(b.last().1, b.last().0.value(wires)),
        );
    }
}

/// A scaled combination evaluates to the scaled value.
pub proof fn law_scale_evaluates(a: Terms, factor: nat, wires: Seq<Wires>)
    ensures
        evaluate(scaled(a, factor), wires) == field_mul(evaluate(a, wires), factor),
    decreases a.len(),
{
    if a.len() == 0 {
        lemma_mul_laws(factor, 0, 0);
    } else {
        assert(scaled(a, factor).drop_last() =~= scaled(a.drop_last(), factor));
        law_scale_evaluates(a.drop_last(), factor, wires);
        let c = a.last().1;
        let v = a.last().0.value(wires);
        lemma_distributes(evaluate(a.drop_last(), wires), field_mul(c, v), factor);
        lemma_mul_laws(c, factor, v);
        lemma_mul_laws(c, v, factor);
        lemma_mul_laws(factor, v, 0);
    }
}

/// A negated combination evaluates to the additive inverse of the value.
pub proof fn law_negate_evaluates(a: Terms, wires: Seq<Wires>)
    ensures
        evaluate(negated(a), wires) == field_neg(evaluate(a, wires)),
    decreases a.len(),
{
    crate::scalar::lemma_order_bounds();
    if a.len() == 0 {
        vstd::arithmetic::div_mod::lemma_small_mod(0, crate::scalar::group_order());
        vstd::arithmetic::div_mod::lemma_mod_self_0(crate::scalar::group_order() as int);
    } else {
        assert(negated(a).drop_last() =~= negated(a.drop_last()));
        law_negate_evaluates(a.drop_last(), wires);
        let c = a.last().1;
        let v = a.last().0.value(wires);
        lemma_neg_laws(c, v);
        lemma_neg_laws(evaluate(a.drop_last(), wires), field_mul(c, v));
    }
}

/// A difference of combinations evaluates to the difference of their values.
pub proof fn law_subtract_evaluates(a: Terms, b: Terms, wires: Seq<Wires>)
    ensures
        evaluate(a + negated(b), wires) == field_sub(evaluate(a, wires), evaluate(b, wires)),
{
    law_add_evaluates(a, negated(b), wires);
    law_negate_evaluates(b, wires);
}

/// Only the wires of allocated gates matter: assigning further gates leaves
/// the value of a combination over the first ones unchanged.
pub proof fn lemma_evaluate_prefix(terms: Terms, wires: Seq<Wires>, more: Seq<Wires>)
    requires
        terms_allocated(terms, wires.len()),
    ensures
        evaluate(terms, wires + more) == evaluate(terms, wires),
    decreases terms.len(),
{
    if terms.len() > 0 {
        assert(terms_allocated(terms.drop_last(), wires.len()));
        lemma_evaluate_prefix(terms.drop_last(), wires, more);
        assert(terms[terms.len() - 1].0.allocated(wires.len()));
    }
}

/// A single term evaluates to its coefficient times the value of its variable.
pub proof fn lemma_evaluate_single(var: Variable, coeff: nat, wires: Seq<Wires>)
    ensures
        evaluate(seq![(var, coeff)], wires) == field_mul(coeff, var.value(wires)),
{
    let terms = seq![(var, coeff)];
    assert(terms.drop_last() =~= Terms::empty());
    assert(terms.last() == (var, coeff));
    reveal_with_fuel(evaluate, 2);
    lemma_field_closed(coeff, var.value(wires));
    lemma_add_laws(field_mul(coeff, var.value(wires)), 0, 0);
}

} // verus!
