//! A constraint system built from multiplication gates, on which a circuit is laid out.
//!
//! A system is created for the proving or for the verifying side, takes its
//! inputs, then multiplication gates and linear constraints, and is finally
//! consumed to make or to check a proof.

use vstd::prelude::*;
use bulletproofs::r1cs;
use bulletproofs::r1cs::LinearCombination as BackendCombination;
use crate::backend::{
    backend_combination,
    backend_prove,
    backend_verify,
    combination_terms,
    padding_covered,
};
use crate::error::Error;
use crate::linear::{
    evaluate,
    lemma_evaluate_prefix,
    lemma_evaluate_single,
    law_subtract_evaluates,
    negated,
    terms_allocated,
    LinearCombination,
    Terms,
    Variable,
    Wires,
};
use crate::field::{lemma_difference_zero, lemma_field_closed, lemma_mul_laws};
use crate::scalar::{field_mul, group_order, Scalar};

verus! {

/// The label that binds every transcript of this crate.
pub const TRANSCRIPT_LABEL: &'static str = "zkInterfaceGadget";

/// For how many parties the generators are made: a proof has one prover.
pub const PARTIES: usize = 1;

/// Where a constraint system stands in its life. The last step, making or
/// checking the proof, consumes the system.
#[derive(Clone, Copy, Debug, PartialEq, Eq, Structural)]
pub enum Phase {
    /// Fresh: inputs may still be declared.
    Created,
    /// Inputs are closed; no gate has been allocated yet.
    InputsDeclared,
    /// At least one gate has been allocated.
    GatesAllocated,
}

/// A constraint system as mathematics.
pub struct SystemView {
    /// Whether this is the proving side, which holds wire values.
    pub prover: bool,
    pub phase: Phase,
    /// How many gates the generators cover.
    pub capacity: nat,
    /// How many gates have been allocated.
    pub gates: nat,
    /// The wire values of the gates, on the proving side; empty on the other.
    pub wires: Seq<Wires>,
    /// The combinations that must evaluate to zero.
    pub constraints: Seq<Terms>,
}

impl SystemView {
    /// The internal invariant of a system.
    pub open spec fn wf(self) -> bool {
        &&& self.gates <= self.capacity <= usize::MAX
        &&& self.wires.len() == if self.prover { self.gates } else { 0 }
        &&& forall|i: int|
            0 <= i < self.wires.len() ==> {
                &&& (#[trigger] self.wires[i]).left < group_order()
                &&& self.wires[i].right < group_order()
                &&& self.wires[i].output < group_order()
            }
        &&& forall|k: int|
            0 <= k < self.constraints.len() ==> terms_allocated(
                #[trigger] self.constraints[k],
                self.gates,
            )
        &&& match self.phase {
            Phase::Created => self.gates == 0 && self.constraints.len() == 0,
            Phase::InputsDeclared => self.gates == 0,
            Phase::GatesAllocated => self.gates > 0,
        }
    }

    /// Whether an assignment of the wires satisfies the system: the output of
    /// every gate is the product of its inputs, and every constraint
    /// evaluates to zero.
    pub open spec fn satisfied_by(self, wires: Seq<Wires>) -> bool {
        &&& forall|i: int|
            0 <= i < wires.len() ==> field_mul((#[trigger] wires[i]).left, wires[i].right)
                == wires[i].output
        &&& forall|k: int|
            0 <= k < self.constraints.len() ==> evaluate(#[trigger] self.constraints[k], wires)
                == 0
    }

    /// Whether the wire values that the proving side holds satisfy the system.
    pub open spec fn satisfied(self) -> bool {
        self.satisfied_by(self.wires)
    }

    /// Whether this system is `earlier` with gates, wire values and
    /// constraints added at the end, and nothing else changed.
    pub open spec fn extends(self, earlier: SystemView) -> bool {
        &&& self.prover == earlier.prover
        &&& self.capacity == earlier.capacity
        &&& self.gates >= earlier.gates
        &&& self.wires.len() >= earlier.wires.len()
        &&& self.wires.take(earlier.wires.len() as int) == earlier.wires
        &&& self.constraints.len() >= earlier.constraints.len()
        &&& self.constraints.take(earlier.constraints.len() as int) == earlier.constraints
    }

    /// The system after one more gate. The proving side records the wire
    /// values; the verifying side has none to record.
    pub open spec fn with_gate(self, wires: Option<Wires>) -> SystemView {
        SystemView {
            phase: Phase::GatesAllocated,
            gates: self.gates + 1,
            wires: match wires {
                Some(values) if self.prover => self.wires.push(values),
                _ => self.wires,
            },
            ..self
        }
    }

    /// The system after one more constraint.
    pub open spec fn with_constraint(self, terms: Terms) -> SystemView {
        SystemView { constraints: self.constraints.push(terms), ..self }
    }
}

/// The wire values as the backend commits them: the inputs of every gate as
/// they are, and their product as its output, whatever output was recorded.
pub open spec fn committed(wires: Seq<Wires>) -> Seq<Wires> {
    Seq::new(
        wires.len(),
        |i: int|
            Wires {
                left: wires[i].left,
                right: wires[i].right,
                output: field_mul(wires[i].left, wires[i].right),
            },
    )
}

/// What the backend commits of a satisfied system is what was recorded:
/// every recorded output is the product of its inputs already.
pub proof fn law_committed_satisfied(sys: SystemView)
    requires
        sys.satisfied(),
    ensures
        committed(sys.wires) == sys.wires,
{
    assert(committed(sys.wires) =~= sys.wires);
}

/// Extending a system twice extends it.
pub proof fn lemma_extends_transitive(first: SystemView, second: SystemView, third: SystemView)
    requires
        second.extends(first),
        third.extends(second),
    ensures
        third.extends(first),
{
    assert(third.wires.take(first.wires.len() as int) =~= third.wires.take(
        second.wires.len() as int,
    ).take(first.wires.len() as int));
    assert(third.constraints.take(first.constraints.len() as int) =~= third.constraints.take(
        second.constraints.len() as int,
    ).take(first.constraints.len() as int));
}

/// The wire values of a gate that multiplies two combinations: their values
/// on the wires so far, and the product of the two.
pub open spec fn product_wires(left: Terms, right: Terms, wires: Seq<Wires>) -> Wires {
    Wires {
        left: evaluate(left, wires),
        right: evaluate(right, wires),
        output: field_mul(evaluate(left, wires), evaluate(right, wires)),
    }
}

/// The system after a gate that multiplies two combinations: that gate, then
/// the two constraints that tie its inputs to the combinations.
pub open spec fn multiplied(sys: SystemView, left: Terms, right: Terms) -> SystemView {
    let gate = sys.gates as usize;
    sys.with_gate(Some(product_wires(left, right, sys.wires))).with_constraint(
        left + negated(seq![(Variable::MultiplierLeft(gate), 1nat)]),
    ).with_constraint(right + negated(seq![(Variable::MultiplierRight(gate), 1nat)]))
}

/// The wire values of a gate as mathematics.
pub open spec fn wires_view(w: (Scalar, Scalar, Scalar)) -> Wires {
    Wires { left: w.0@, right: w.1@, output: w.2@ }
}

/// The wire values handed to an allocation as mathematics.
pub open spec fn assignment_view(assignment: Option<(Scalar, Scalar, Scalar)>) -> Option<Wires> {
    match assignment {
        Some(w) => Some(wires_view(w)),
        None => None,
    }
}

/// A constraint system for one side of a proof.
pub struct ConstraintSystem {
    prover: bool,
    phase: Phase,
    capacity: usize,
    gates: usize,
    wires: Vec<(Scalar, Scalar, Scalar)>,
    constraints: Vec<LinearCombination>,
}

impl View for ConstraintSystem {
    type V = SystemView;

    closed spec fn view(&self) -> SystemView {
        SystemView {
            prover: self.prover,
            phase: self.phase,
            capacity: self.capacity as nat,
            gates: self.gates as nat,
            wires: Seq::new(self.wires@.len(), |i: int| wires_view(self.wires@[i])),
            constraints: Seq::new(self.constraints@.len(), |k: int| self.constraints@[k]@),
        }
    }
}

impl ConstraintSystem {
    /// Whether the system satisfies its internal invariant.
    pub open spec fn wf(&self) -> bool {
        self@.wf()
    }

    /// A fresh system for the proving side, with generators for `capacity` gates.
    pub fn new_prover(capacity: usize) -> (r: ConstraintSystem)
        ensures
            r.wf(),
            r@ == (SystemView {
                prover: true,
                phase: Phase::Created,
                capacity: capacity as nat,
                gates: 0,
                wires: Seq::empty(),
                constraints: Seq::empty(),
            }),
    {
        let r = ConstraintSystem {
            prover: true,
            phase: Phase::Created,
            capacity,
            gates: 0,
            wires: Vec::new(),
            constraints: Vec::new(),
        };
        assert(r@.wires =~= Seq::empty());
        assert(r@.constraints =~= Seq::empty());
        r
    }

    /// A fresh system for the verifying side, with generators for `capacity` gates.
    pub fn new_verifier(capacity: usize) -> (r: ConstraintSystem)
        ensures
            r.wf(),
            r@ == (SystemView {
                prover: false,
                phase: Phase::Created,
                capacity: capacity as nat,
                gates: 0,
                wires: Seq::empty(),
                constraints: Seq::empty(),
            }),
    {
        let r = ConstraintSystem {
            prover: false,
            phase: Phase::Created,
            capacity,
            gates: 0,
            wires: Vec::new(),
            constraints: Vec::new(),
        };
        assert(r@.wires =~= Seq::empty());
        assert(r@.constraints =~= Seq::empty());
        r
    }

    /// Whether this is the proving side.
    pub fn is_prover(&self) -> (r: bool)
        ensures
            r == self@.prover,
    {
        self.prover
    }

    /// The phase the system is in.
    pub fn phase(&self) -> (r: Phase)
        ensures
            r == self@.phase,
    {
        self.phase
    }

    /// How many gates the generators cover.
    pub fn capacity(&self) -> (r: usize)
        ensures
            r == self@.capacity,
    {
        self.capacity
    }

    /// How many gates have been allocated.
    pub fn gate_count(&self) -> (r: usize)
        ensures
            r == self@.gates,
    {
        self.gates
    }

    /// How many constraints have been registered.
    pub fn constraint_count(&self) -> (r: usize)
        ensures
            r == self@.constraints.len(),
    {
        self.constraints.len()
    }

    /// The `index`-th registered constraint.
    pub fn constraint(&self, index: usize) -> (r: &LinearCombination)
        requires
            index < self@.constraints.len(),
        ensures
            r@ == self@.constraints[index as int],
    {
        &self.constraints[index]
    }

    /// The wire values that the proving side holds for gate `index`:
    /// left, right and output.
    pub fn gate_wires(&self, index: usize) -> (r: (Scalar, Scalar, Scalar))
        requires
            self.wf(),
            self@.prover,
            index < self@.gates,
        ensures
            wires_view(r) == self@.wires[index as int],
    {
        self.wires[index]
    }

    /// Closes the declaration of inputs. Gates can be allocated from here on.
    pub fn finalize_inputs(&mut self)
        requires
            old(self).wf(),
            old(self)@.phase == Phase::Created,
        ensures
            final(self).wf(),
            final(self)@ == (SystemView { phase: Phase::InputsDeclared, ..old(self)@ }),
    {
        self.phase = Phase::InputsDeclared;
    }

    /// Allocates one multiplication gate and returns its left, right and
    /// output wires.
    ///
    /// The proving side records `assignment` as the wire values of that
    /// gate; the verifying side ignores it. The recorded output is not what
    /// a proof commits: the backend is handed the two inputs and commits
    /// their product ([`committed`]), which is the recorded output exactly
    /// where that gate is satisfied. The call fails, leaving the system as it
    /// was, when the capacity is exhausted or when the proving side is given
    /// no values.
    pub fn allocate(&mut self, assignment: Option<(Scalar, Scalar, Scalar)>) -> (r: Result<
        (Variable, Variable, Variable),
        Error,
    >)
        requires
            old(self).wf(),
            old(self)@.phase != Phase::Created,
        ensures
            final(self).wf(),
            match r {
                Ok(vars) => {
                    &&& old(self)@.gates < old(self)@.capacity
                    &&& old(self)@.prover ==> assignment.is_some()
                    &&& vars.0 == Variable::MultiplierLeft(old(self)@.gates as usize)
                    &&& vars.1 == Variable::MultiplierRight(old(self)@.gates as usize)
                    &&& vars.2 == Variable::MultiplierOutput(old(self)@.gates as usize)
                    &&& final(self)@ == old(self)@.with_gate(assignment_view(assignment))
                },
                Err(e) => {
                    &&& e == Error::AllocationFailure
                    &&& old(self)@.gates >= old(self)@.capacity || (old(self)@.prover
                        && assignment.is_none())
                    &&& final(self)@ == old(self)@
                },
            },
    {
        if self.gates >= self.capacity {
            return Err(Error::AllocationFailure);
        }
        let index = self.gates;
        if self.prover {
            match assignment {
                None => {
                    return Err(Error::AllocationFailure);
                },
                Some(values) => {
                    proof {
                        values.0.lemma_in_field();
                        values.1.lemma_in_field();
                        values.2.lemma_in_field();
                    }
                    self.wires.push(values);
                },
            }
        }
        self.gates = index + 1;
        self.phase = Phase::GatesAllocated;
        proof {
            let before = old(self)@;
            let after = self@;
            if before.prover {
                assert(after.wires =~= before.wires.push(wires_view(assignment.unwrap())));
            } else {
                assert(after.wires =~= before.wires);
            }
            assert(after.constraints =~= before.constraints);
            assert forall|k: int| 0 <= k < after.constraints.len() implies terms_allocated(
                #[trigger] after.constraints[k],
                after.gates,
            ) by {
                assert(terms_allocated(before.constraints[k], before.gates));
            }
        }
        Ok(
            (
                Variable::MultiplierLeft(index),
                Variable::MultiplierRight(index),
                Variable::MultiplierOutput(index),
            ),
        )
    }

    /// Registers that `lc` must evaluate to zero. Wire values are untouched.
    ///
    /// Every variable of `lc` must have been given out by this system.
    pub fn constrain(&mut self, lc: LinearCombination)
        requires
            old(self).wf(),
            old(self)@.phase != Phase::Created,
            terms_allocated(lc@, old(self)@.gates),
        ensures
            final(self).wf(),
            final(self)@ == old(self)@.with_constraint(lc@),
    {
        self.constraints.push(lc);
        proof {
            assert(self@.constraints =~= old(self)@.constraints.push(lc@));
            assert(self@.wires =~= old(self)@.wires);
        }
    }

    /// The value that the proving side holds for a variable.
    fn variable_value(&self, var: Variable) -> (r: Scalar)
        requires
            self.wf(),
            self@.prover,
            var.allocated(self@.gates),
        ensures
            r@ == var.value(self@.wires),
    {
        match var {
            Variable::One => Scalar::one(),
            Variable::MultiplierLeft(i) => self.wires[i].0,
            Variable::MultiplierRight(i) => self.wires[i].1,
            Variable::MultiplierOutput(i) => self.wires[i].2,
        }
    }

    /// The value of a combination on the wire values of the proving side.
    pub fn eval(&self, lc: &LinearCombination) -> (r: Scalar)
        requires
            self.wf(),
            self@.prover,
            terms_allocated(lc@, self@.gates),
        ensures
            r@ == evaluate(lc@, self@.wires),
    {
        let terms = lc.terms();
        let mut sum = Scalar::zero();
        let mut i: usize = 0;
        assert(lc@.take(0) =~= Terms::empty());
        while i < terms.len()
            invariant
                i <= terms.len(),
                self.wf(),
                self@.prover,
                terms_allocated(lc@, self@.gates),
                terms@ == lc.terms_spec(),
                sum@ == evaluate(lc@.take(i as int), self@.wires),
            decreases terms.len() - i,
        {
            let term = terms[i];
            assert(lc@[i as int] == (term.0, term.1@));
            let value = self.variable_value(term.0);
            sum = sum.add(&term.1.mul(&value));
            proof {
                let next = lc@.take(i as int + 1);
                assert(next.drop_last() =~= lc@.take(i as int));
                assert(next.last() == lc@[i as int]);
            }
            i += 1;
        }
        assert(lc@.take(i as int) =~= lc@);
        sum
    }

    /// Allocates a gate that multiplies two combinations, and returns its
    /// left, right and output wires.
    ///
    /// The proving side computes the wire values from the values it holds.
    /// Two constraints tie the inputs of this gate to `left` and `right`, so
    /// that the output wire stands for their product. Fails, leaving the
    /// system as it was, when the capacity is exhausted.
    pub fn multiply(&mut self, left: LinearCombination, right: LinearCombination) -> (r: Result<
        (Variable, Variable, Variable),
        Error,
    >)
        requires
            old(self).wf(),
            old(self)@.phase != Phase::Created,
            terms_allocated(left@, old(self)@.gates),
            terms_allocated(right@, old(self)@.gates),
        ensures
            final(self).wf(),
            match r {
                Ok(vars) => {
                    &&& old(self)@.gates < old(self)@.capacity
                    &&& vars.0 == Variable::MultiplierLeft(old(self)@.gates as usize)
                    &&& vars.1 == Variable::MultiplierRight(old(self)@.gates as usize)
                    &&& vars.2 == Variable::MultiplierOutput(old(self)@.gates as usize)
                    &&& final(self)@ == multiplied(old(self)@, left@, right@)
                },
                Err(e) => {
                    &&& e == Error::AllocationFailure
                    &&& old(self)@.gates >= old(self)@.capacity
                    &&& final(self)@ == old(self)@
                },
            },
    {
        let assignment = if self.prover {
            let l = self.eval(&left);
            let r = self.eval(&right);
            Some((l, r, l.mul(&r)))
        } else {
            None
        };
        let (l_var, r_var, o_var) = self.allocate(assignment)?;
        proof {
            assert forall|i: int| 0 <= i < left@.len() implies (#[trigger] left@[i]).0.allocated(
                self@.gates,
            ) by {
                assert(left@[i].0.allocated(old(self)@.gates));
            }
            assert forall|i: int| 0 <= i < right@.len() implies (#[trigger] right@[i]).0.allocated(
                self@.gates,
            ) by {
                assert(right@[i].0.allocated(old(self)@.gates));
            }
        }
        self.constrain(left.subtract(&LinearCombination::from_variable(l_var)));
        self.constrain(right.subtract(&LinearCombination::from_variable(r_var)));
        assert(self@ =~= multiplied(old(self)@, left@, right@));
        Ok((l_var, r_var, o_var))
    }

    /// Takes the system back to an earlier count of gates and constraints.
    pub(crate) fn rollback(&mut self, gates: usize, constraints: usize)
        requires
            old(self).wf(),
            old(self)@.phase != Phase::Created,
            gates <= old(self)@.gates,
            constraints <= old(self)@.constraints.len(),
            forall|k: int|
                0 <= k < constraints ==> terms_allocated(
                    #[trigger] old(self)@.constraints[k],
                    gates as nat,
                ),
        ensures
            final(self).wf(),
            final(self)@ == (SystemView {
                phase: if gates == 0 { Phase::InputsDeclared } else { Phase::GatesAllocated },
                gates: gates as nat,
                wires: if old(self)@.prover {
                    old(self)@.wires.take(gates as int)
                } else {
                    old(self)@.wires
                },
                constraints: old(self)@.constraints.take(constraints as int),
                ..old(self)@
            }),
    {
        if self.prover {
            self.wires.truncate(gates);
        }
        self.constraints.truncate(constraints);
        self.gates = gates;
        self.phase = if gates == 0 { Phase::InputsDeclared } else { Phase::GatesAllocated };
        proof {
            let before = old(self)@;
            if before.prover {
                assert(self@.wires =~= before.wires.take(gates as int));
            } else {
                assert(self@.wires =~= before.wires);
            }
            assert(self@.constraints =~= before.constraints.take(constraints as int));
        }
    }

    /// The constraints in the backend's own form.
    fn backend_constraints(&self) -> (r: Vec<BackendCombination>)
        ensures
            r@.len() == self@.constraints.len(),
            forall|k: int|
                0 <= k < r@.len() ==> combination_terms(#[trigger] r@[k]) == self@.constraints[k],
    {
        let mut out: Vec<BackendCombination> = Vec::new();
        let mut k: usize = 0;
        while k < self.constraints.len()
            invariant
                k <= self.constraints.len(),
                out@.len() == k,
                forall|j: int|
                    0 <= j < k ==> combination_terms(#[trigger] out@[j]) == self.constraints@[j]@,
            decreases self.constraints.len() - k,
        {
            out.push(backend_combination(&self.constraints[k]));
            k += 1;
        }
        out
    }

    /// Consumes the proving side's system and makes a proof.
    ///
    /// The backend is handed the left and right value of every gate and
    /// commits their product as the output; the outputs that `allocate`
    /// recorded are not handed over. So the proof is made of
    /// [`committed`]`(wires)`: of the recorded values where they satisfy the
    /// system ([`law_committed_satisfied`]), and otherwise of values that
    /// differ from them in the outputs. The backend pads the number of gates
    /// to the next power of two: a proof is made exactly when the capacity
    /// covers that, and the refusal is reported as `AllocationFailure`.
    /// Whether the proof verifies is for the verifying side to find out.
    pub fn prove(self) -> (r: Result<r1cs::R1CSProof, Error>)
        requires
            self.wf(),
            self@.prover,
            self@.phase != Phase::Created,
        ensures
            r is Ok <==> padding_covered(self@.capacity, self@.gates),
            r matches Err(e) ==> e == Error::AllocationFailure,
    {
        let constraints = self.backend_constraints();
        prove_outcome(
            backend_prove(TRANSCRIPT_LABEL, self.capacity, PARTIES, &self.wires, constraints),
        )
    }

    /// Consumes the verifying side's system and checks a proof against it.
    /// Returns whether the backend accepted the proof.
    ///
    /// The backend pads the number of gates to the next power of two: where
    /// the capacity does not cover that, no proof is accepted.
    pub fn verify(self, proof: &r1cs::R1CSProof) -> (r: bool)
        requires
            self.wf(),
            !self@.prover,
            self@.phase != Phase::Created,
        ensures
            self@.gates <= isize::MAX && !padding_covered(self@.capacity, self@.gates) ==> !r,
    {
        let constraints = self.backend_constraints();
        verify_outcome(
            backend_verify(
                TRANSCRIPT_LABEL,
                self.capacity,
                PARTIES,
                self.gates,
                constraints,
                proof,
            ),
        )
    }
}

/// Multiplying keeps satisfaction. On the proving side a gate that
/// multiplies two combinations is satisfied by construction, and so are the
/// two constraints that come with it: the system is satisfied after the
/// gate exactly when it was before.
pub proof fn law_multiply_satisfied(sys: SystemView, left: Terms, right: Terms)
    requires
        sys.wf(),
        sys.prover,
        sys.gates < sys.capacity,
        terms_allocated(left, sys.gates),
        terms_allocated(right, sys.gates),
    ensures
        multiplied(sys, left, right).wf(),
        multiplied(sys, left, right).satisfied() <==> sys.satisfied(),
{
    let after = multiplied(sys, left, right);
    assert(after.wf()) by {
        crate::linear::lemma_evaluate_reduced(left, sys.wires);
        crate::linear::lemma_evaluate_reduced(right, sys.wires);
        lemma_field_closed(evaluate(left, sys.wires), evaluate(right, sys.wires));
        assert forall|k: int| 0 <= k < after.constraints.len() implies terms_allocated(
            #[trigger] after.constraints[k],
            after.gates,
        ) by {
            if k < sys.constraints.len() {
                assert(terms_allocated(sys.constraints[k], sys.gates));
            }
        }
    }
    let gate = sys.gates as usize;
    let added = product_wires(left, right, sys.wires);
    let wires = after.wires;
    let left_wire = Variable::MultiplierLeft(gate);
    let right_wire = Variable::MultiplierRight(gate);
    assert(wires =~= sys.wires + seq![added]);
    assert(wires[sys.gates as int] == added);
    crate::linear::lemma_evaluate_reduced(left, sys.wires);
    crate::linear::lemma_evaluate_reduced(right, sys.wires);
    lemma_field_closed(added.left, added.right);
    lemma_evaluate_prefix(left, sys.wires, seq![added]);
    lemma_evaluate_prefix(right, sys.wires, seq![added]);
    assert(evaluate(after.constraints[sys.constraints.len() as int], wires) == 0) by {
        law_subtract_evaluates(left, seq![(left_wire, 1nat)], wires);
        lemma_evaluate_single(left_wire, 1, wires);
        lemma_mul_laws(added.left, 0, 0);
        lemma_difference_zero(added.left, added.left);
    }
    assert(evaluate(after.constraints[sys.constraints.len() as int + 1], wires) == 0) by {
        law_subtract_evaluates(right, seq![(right_wire, 1nat)], wires);
        lemma_evaluate_single(right_wire, 1, wires);
        lemma_mul_laws(added.right, 0, 0);
        lemma_difference_zero(added.right, added.right);
    }
    assert forall|k: int| 0 <= k < sys.constraints.len() implies evaluate(
        #[trigger] sys.constraints[k],
        wires,
    ) == evaluate(sys.constraints[k], sys.wires) by {
        lemma_evaluate_prefix(sys.constraints[k], sys.wires, seq![added]);
    }
    if after.satisfied() {
        assert forall|i: int| 0 <= i < sys.wires.len() implies field_mul(
            (#[trigger] sys.wires[i]).left,
            sys.wires[i].right,
        ) == sys.wires[i].output by {
            assert(wires[i] == sys.wires[i]);
        }
        assert forall|k: int| 0 <= k < sys.constraints.len() implies evaluate(
            #[trigger] sys.constraints[k],
            sys.wires,
        ) == 0 by {
            assert(after.constraints[k] == sys.constraints[k]);
        }
    }
    if sys.satisfied() {
        assert forall|i: int| 0 <= i < wires.len() implies field_mul(
            (#[trigger] wires[i]).left,
            wires[i].right,
        ) == wires[i].output by {
            if i < sys.wires.len() {
                assert(wires[i] == sys.wires[i]);
            }
        }
        assert forall|k: int| 0 <= k < after.constraints.len() implies evaluate(
            #[trigger] after.constraints[k],
            wires,
        ) == 0 by {
            if k < sys.constraints.len() {
                assert(after.constraints[k] == sys.constraints[k]);
            }
        }
    }
}

/// What the proving side reports for a backend result: the proof, or an
/// allocation failure whatever the backend's reason.
pub fn prove_outcome(result: Result<r1cs::R1CSProof, r1cs::R1CSError>) -> (r: Result<
    r1cs::R1CSProof,
    Error,
>)
    ensures
        match result {
            Ok(proof) => r == Ok::<r1cs::R1CSProof, Error>(proof),
            Err(_) => r == Err::<r1cs::R1CSProof, Error>(Error::AllocationFailure),
        },
{
    match result {
        Ok(proof) => Ok(proof),
        Err(_) => Err(Error::AllocationFailure),
    }
}

/// What the verifying side reports for a backend result: whether the
/// backend accepted, whatever its reason to refuse.
pub fn verify_outcome(result: Result<(), r1cs::R1CSError>) -> (r: bool)
    ensures
        r == result.is_ok(),
{
    match result {
        Ok(()) => true,
        Err(_) => false,
    }
}

} // verus!
