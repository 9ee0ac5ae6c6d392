//! The translation of a rank-1 constraint system onto multiplication gates.
//!
//! Every constraint gets one gate, every private variable that nothing else
//! binds gets one more, and linear constraints tie each gate's wires to the
//! combinations that the constraint names. Both sides of a proof run the
//! same passes in the same order and so agree on every wire.

use vstd::prelude::*;
use std::collections::{HashMap, HashSet};
use crate::constraint_system::{
    lemma_extends_transitive,
    multiplied,
    ConstraintSystem,
    Phase,
    SystemView,
};
use crate::error::Error;
use crate::linear::{negated, scaled, terms_allocated, LinearCombination, Terms, Variable, Wires};
use crate::messages::{Circuit, CircuitVariable, CircuitView, Constraint, Messages, Term};
use crate::scalar::{decode_spec, field_add, field_mul, scalar_from_zkif, Scalar};

verus! {

broadcast use vstd::std_specs::hash::group_hash_axioms;

/// The coefficient of a term; zero where its bytes do not decode.
pub open spec fn coefficient(term: Term) -> nat {
    match decode_spec(term.value@) {
        Some(value) => value,
        None => 0,
    }
}

/// Whether the coefficient of every term decodes.
pub open spec fn terms_decodable(terms: Seq<Term>) -> bool {
    forall|i: int| 0 <= i < terms.len() ==> decode_spec((#[trigger] terms[i]).value@).is_some()
}

/// The assignment that a map of scalars stands for.
pub open spec fn values_view(values: Map<u64, Scalar>) -> Map<u64, nat> {
    Map::new(|id: u64| values.contains_key(id), |id: u64| values[id]@)
}

/// The bindings that a map of combinations stands for.
pub open spec fn bindings_view(bindings: Map<u64, LinearCombination>) -> Map<u64, Terms> {
    Map::new(|id: u64| bindings.contains_key(id), |id: u64| bindings[id]@)
}

/// The value of a list of terms under an assignment of the variables: the
/// sum of each coefficient times its variable's value.
pub open spec fn witness_sum(values: Map<u64, nat>, terms: Seq<Term>) -> nat
    decreases terms.len(),
{
    if terms.len() == 0 {
        0
    } else {
        field_add(
            witness_sum(values, terms.drop_last()),
            field_mul(coefficient(terms.last()), values[terms.last().id]),
        )
    }
}

/// The first reason for which a list of terms cannot be evaluated, going
/// through the terms in order: a term whose variable has no value, so that
/// the wire values of a gate cannot be had (`AllocationFailure`), or whose
/// coefficient does not decode.
pub open spec fn evaluation_error(valued: Set<u64>, terms: Seq<Term>) -> Option<Error>
    decreases terms.len(),
{
    if terms.len() == 0 {
        None
    } else if !valued.contains(terms[0].id) {
        Some(Error::AllocationFailure)
    } else if decode_spec(terms[0].value@).is_none() {
        Some(Error::InvalidScalarEncoding)
    } else {
        evaluation_error(valued, terms.drop_first())
    }
}

/// The variables over which a term can be taken when gates are filled:
/// those that have a value, and those that nothing declares. A term over an
/// undeclared variable is left for the equality pass to report.
pub open spec fn evaluable_ids(valued: Set<u64>, declared: Set<u64>) -> Set<u64> {
    Set::new(|id: u64| valued.contains(id) || !declared.contains(id))
}

/// The value that a gate carries for a list of terms: the value of the list
/// on the witness, or zero where the list cannot be evaluated.
pub open spec fn gate_value(values: Map<u64, nat>, terms: Seq<Term>) -> nat {
    if evaluation_error(values.dom(), terms).is_none() {
        witness_sum(values, terms)
    } else {
        0
    }
}

/// The ids of a list of variables.
pub open spec fn ids_of(vars: Seq<CircuitVariable>) -> Set<u64> {
    Set::new(|id: u64| exists|i: int| 0 <= i < vars.len() && (#[trigger] vars[i]).id == id)
}

/// The first reason for which a list of terms cannot be converted, going
/// through the terms in order: a term whose variable is not bound, or whose
/// coefficient does not decode.
pub open spec fn conversion_error(bound: Set<u64>, terms: Seq<Term>) -> Option<Error>
    decreases terms.len(),
{
    if terms.len() == 0 {
        None
    } else if !bound.contains(terms[0].id) {
        Some(Error::UnknownVariable(terms[0].id))
    } else if decode_spec(terms[0].value@).is_none() {
        Some(Error::InvalidScalarEncoding)
    } else {
        conversion_error(bound, terms.drop_first())
    }
}

/// The combination that a list of terms names: for each term, the binding
/// of its variable scaled by its coefficient, all added up.
pub open spec fn converted(bindings: Map<u64, Terms>, terms: Seq<Term>) -> Terms
    decreases terms.len(),
{
    if terms.len() == 0 {
        Seq::empty()
    } else {
        converted(bindings, terms.drop_last()) + scaled(
            bindings[terms.last().id],
            coefficient(terms.last()),
        )
    }
}

/// The value of an instance or private variable; zero where its bytes do
/// not decode.
pub open spec fn variable_value(var: CircuitVariable) -> nat {
    match decode_spec(var.value@) {
        Some(value) => value,
        None => 0,
    }
}

/// Whether the value of every variable decodes.
pub open spec fn values_decodable(vars: Seq<CircuitVariable>) -> bool {
    forall|i: int| 0 <= i < vars.len() ==> decode_spec((#[trigger] vars[i]).value@).is_some()
}

/// Whether every coefficient of every constraint decodes.
pub open spec fn constraints_decodable(constraints: Seq<Constraint>) -> bool {
    forall|k: int|
        0 <= k < constraints.len() ==> {
            &&& terms_decodable((#[trigger] constraints[k]).a@)
            &&& terms_decodable(constraints[k].b@)
            &&& terms_decodable(constraints[k].c@)
        }
}

/// An assignment extended by the values of `vars`, in order; a later value
/// for an id replaces an earlier one.
pub open spec fn assign(values: Map<u64, nat>, vars: Seq<CircuitVariable>) -> Map<u64, nat>
    decreases vars.len(),
{
    if vars.len() == 0 {
        values
    } else {
        assign(values, vars.drop_last()).insert(vars.last().id, variable_value(vars.last()))
    }
}

/// An assignment extended by the witness values of `vars`, in order. A
/// variable whose value is empty has no witness value and adds nothing.
pub open spec fn assign_present(values: Map<u64, nat>, vars: Seq<CircuitVariable>) -> Map<
    u64,
    nat,
>
    decreases vars.len(),
{
    if vars.len() == 0 {
        values
    } else if vars.last().value@.len() == 0 {
        assign_present(values, vars.drop_last())
    } else {
        assign_present(values, vars.drop_last()).insert(
            vars.last().id,
            variable_value(vars.last()),
        )
    }
}

/// The bindings before any gate is allocated: id 0 is the constant one, and
/// each instance variable is the constant that its value writes.
pub open spec fn seed_bindings(instance: Seq<CircuitVariable>) -> Map<u64, Terms>
    decreases instance.len(),
{
    if instance.len() == 0 {
        map![0u64 => seq![(Variable::One, 1nat)]]
    } else {
        seed_bindings(instance.drop_last()).insert(
            instance.last().id,
            seq![(Variable::One, variable_value(instance.last()))],
        )
    }
}

/// The wire values of the gates allocated for the constraints: the values
/// of the three lists of terms of each.
pub open spec fn constraint_wires(values: Map<u64, nat>, constraints: Seq<Constraint>) -> Seq<
    Wires,
> {
    Seq::new(
        constraints.len(),
        |k: int|
            Wires {
                left: gate_value(values, constraints[k].a@),
                right: gate_value(values, constraints[k].b@),
                output: gate_value(values, constraints[k].c@),
            },
    )
}

/// The ids that get a gate of their own: the private variables that are not
/// in `bound`, each once, in the order of their first occurrence.
pub open spec fn residual_ids(bound: Set<u64>, private: Seq<CircuitVariable>) -> Seq<u64>
    decreases private.len(),
{
    if private.len() == 0 {
        Seq::empty()
    } else {
        let earlier = residual_ids(bound, private.drop_last());
        let id = private.last().id;
        if bound.contains(id) || earlier.contains(id) {
            earlier
        } else {
            earlier.push(id)
        }
    }
}

/// The wire values of the gates allocated for residual variables: the
/// variable's value on the left, zero on the right and at the output.
pub open spec fn residual_wires(values: Map<u64, nat>, ids: Seq<u64>) -> Seq<Wires> {
    Seq::new(ids.len(), |j: int| Wires { left: values[ids[j]], right: 0, output: 0 })
}

/// The bindings after each of `ids` is bound to the left wire of a gate of
/// its own, the gates counted from `first_gate`.
pub open spec fn bind_residual(bindings: Map<u64, Terms>, ids: Seq<u64>, first_gate: nat) -> Map<
    u64,
    Terms,
>
    decreases ids.len(),
{
    if ids.len() == 0 {
        bindings
    } else {
        bind_residual(bindings, ids.drop_last(), first_gate).insert(
            ids.last(),
            seq![(Variable::MultiplierLeft((first_gate + ids.len() - 1) as usize), 1nat)],
        )
    }
}

/// Whether every binding only names the constant or wires of the first
/// `gates` gates.
pub open spec fn bindings_allocated(bindings: Map<u64, Terms>, gates: nat) -> bool {
    forall|id: u64| #[trigger] bindings.contains_key(id) ==> terms_allocated(bindings[id], gates)
}

/// Whether the variable of every term is bound.
pub open spec fn terms_bound(bound: Set<u64>, terms: Seq<Term>) -> bool {
    forall|i: int| 0 <= i < terms.len() ==> bound.contains((#[trigger] terms[i]).id)
}

/// Whether the variable of every term of every constraint is bound.
pub open spec fn all_bound(bound: Set<u64>, constraints: Seq<Constraint>) -> bool {
    forall|k: int|
        0 <= k < constraints.len() ==> {
            &&& terms_bound(bound, (#[trigger] constraints[k]).a@)
            &&& terms_bound(bound, constraints[k].b@)
            &&& terms_bound(bound, constraints[k].c@)
        }
}

/// The combination that must vanish for `wire` to carry the value of a list
/// of terms: the converted terms minus the wire.
pub open spec fn tie(bindings: Map<u64, Terms>, terms: Seq<Term>, wire: Variable) -> Terms {
    converted(bindings, terms) + negated(seq![(wire, 1nat)])
}

/// The linear constraints of the equality pass: for each constraint in
/// order, its three lists of terms tied to the left, right and output wire
/// of its gate.
pub open spec fn tied(
    bindings: Map<u64, Terms>,
    constraints: Seq<Constraint>,
    left: Seq<Variable>,
    right: Seq<Variable>,
    output: Seq<Variable>,
) -> Seq<Terms>
    decreases constraints.len(),
{
    if constraints.len() == 0 {
        Seq::empty()
    } else {
        let k = constraints.len() - 1;
        tied(bindings, constraints.drop_last(), left, right, output) + seq![
            tie(bindings, constraints[k].a@, left[k]),
            tie(bindings, constraints[k].b@, right[k]),
            tie(bindings, constraints[k].c@, output[k]),
        ]
    }
}

/// The left wires of `count` gates counted from `first_gate`.
pub open spec fn left_wires(first_gate: nat, count: nat) -> Seq<Variable> {
    Seq::new(count, |k: int| Variable::MultiplierLeft((first_gate + k) as usize))
}

/// The right wires of `count` gates counted from `first_gate`.
pub open spec fn right_wires(first_gate: nat, count: nat) -> Seq<Variable> {
    Seq::new(count, |k: int| Variable::MultiplierRight((first_gate + k) as usize))
}

/// The output wires of `count` gates counted from `first_gate`.
pub open spec fn output_wires(first_gate: nat, count: nat) -> Seq<Variable> {
    Seq::new(count, |k: int| Variable::MultiplierOutput((first_gate + k) as usize))
}

/// The wires of the gates allocated for the constraints, one of each kind
/// per constraint, in the order of the constraints.
pub struct GateVariables {
    pub left: Vec<Variable>,
    pub right: Vec<Variable>,
    pub output: Vec<Variable>,
}

/// The first reason for which the wire values of a constraint's gate cannot
/// be had: its lists `a`, `b` and `c` are gone through in this order, and a
/// term fails when its variable is declared but has no value, or when its
/// coefficient does not decode.
pub open spec fn constraint_error(
    valued: Set<u64>,
    declared: Set<u64>,
    constraint: Constraint,
) -> Option<Error> {
    let evaluable = evaluable_ids(valued, declared);
    if evaluation_error(evaluable, constraint.a@).is_some() {
        evaluation_error(evaluable, constraint.a@)
    } else if evaluation_error(evaluable, constraint.b@).is_some() {
        evaluation_error(evaluable, constraint.b@)
    } else {
        evaluation_error(evaluable, constraint.c@)
    }
}

/// Why the pass that allocates one gate per constraint fails, if it does.
///
/// The constraints are taken in order. On the proving path the wire values
/// of a constraint's gate are evaluated first: a declared variable without
/// a value is an `AllocationFailure`, while a variable that nothing declares
/// is passed over here and reported when the wires are tied. Then its gate
/// is allocated, which fails when no room is left among `room` gates, or
/// when a proving system is fed off the proving path (`mismatch`).
pub open spec fn gate_pass_error(
    constraints: Seq<Constraint>,
    valued: Set<u64>,
    declared: Set<u64>,
    prover: bool,
    room: nat,
    mismatch: bool,
) -> Option<Error>
    decreases constraints.len(),
{
    if constraints.len() == 0 {
        None
    } else if prover && constraint_error(valued, declared, constraints[0]).is_some() {
        constraint_error(valued, declared, constraints[0])
    } else if room == 0 || mismatch {
        Some(Error::AllocationFailure)
    } else {
        gate_pass_error(
            constraints.drop_first(),
            valued,
            declared,
            prover,
            (room - 1) as nat,
            mismatch,
        )
    }
}

/// Whether the pass that allocates one gate per residual variable fails:
/// there is no room for all of them among `room` gates, a proving system is
/// fed off the proving path, or on the proving path one of them has no
/// witness value. Every such failure is an `AllocationFailure`.
pub open spec fn residual_pass_fails(
    ids: Seq<u64>,
    valued: Set<u64>,
    prover: bool,
    room: nat,
    mismatch: bool,
) -> bool {
    ||| ids.len() > room
    ||| mismatch && ids.len() > 0
    ||| prover && exists|j: int| 0 <= j < ids.len() && !valued.contains(#[trigger] ids[j])
}

/// The first reason for which the wires of a constraint's gate cannot be
/// tied: its lists `a`, `b` and `c` are converted in this order.
pub open spec fn tie_error(bound: Set<u64>, constraint: Constraint) -> Option<Error> {
    if conversion_error(bound, constraint.a@).is_some() {
        conversion_error(bound, constraint.a@)
    } else if conversion_error(bound, constraint.b@).is_some() {
        conversion_error(bound, constraint.b@)
    } else {
        conversion_error(bound, constraint.c@)
    }
}

/// Why the equality pass fails, if it does: at the first constraint, in
/// order, with a list of terms that cannot be converted.
pub open spec fn tie_pass_error(bound: Set<u64>, constraints: Seq<Constraint>) -> Option<Error>
    decreases constraints.len(),
{
    if constraints.len() == 0 {
        None
    } else if tie_error(bound, constraints[0]).is_some() {
        tie_error(bound, constraints[0])
    } else {
        tie_pass_error(bound, constraints.drop_first())
    }
}

/// The witness: one for id 0, then the instance values, then the private
/// values that are there, a later value for an id replacing an earlier one.
/// A private variable with an empty value has no witness value.
pub open spec fn witness(circuit: CircuitView) -> Map<u64, nat> {
    assign_present(assign(map![0u64 => 1nat], circuit.instance), circuit.private)
}

/// The private variables that get a gate of their own.
pub open spec fn residual(circuit: CircuitView) -> Seq<u64> {
    residual_ids(seed_bindings(circuit.instance).dom(), circuit.private)
}

/// How many gates the translation allocates: one per constraint and one per
/// residual private variable.
pub open spec fn required_gates(circuit: CircuitView) -> nat {
    circuit.constraints.len() + residual(circuit).len()
}

/// The binding of every id once all gates are allocated, in a system that
/// held `first_gate` gates before.
pub open spec fn final_bindings(circuit: CircuitView, first_gate: nat) -> Map<u64, Terms> {
    bind_residual(
        seed_bindings(circuit.instance),
        residual(circuit),
        first_gate + circuit.constraints.len(),
    )
}

/// The ids that a circuit declares: 0 for the constant one, the instance
/// variables and the private variables.
pub open spec fn declared_ids(circuit: CircuitView) -> Set<u64> {
    ids_of(circuit.instance).union(ids_of(circuit.private)).insert(0)
}

/// The variables that have a value on the given path: those of the witness
/// on the proving path, none on the other.
pub open spec fn valued_ids(circuit: CircuitView, prover: bool) -> Set<u64> {
    if prover {
        witness(circuit).dom()
    } else {
        Set::empty()
    }
}

/// Why the translation of a circuit into the system `sys` fails, if it does.
///
/// The passes run in order and the first failure is reported. The instance
/// values are decoded, then on the proving path the private values. Then
/// every constraint gets its gate ([`gate_pass_error`]), then every residual
/// variable ([`residual_pass_fails`]), and last the wires are tied
/// ([`tie_pass_error`]). On either path a term over a variable that nothing
/// declares is reported there, as `UnknownVariable`; `AllocationFailure` for
/// want of a value is for declared variables only.
pub open spec fn translation_error(sys: SystemView, circuit: CircuitView, prover: bool) -> Option<
    Error,
> {
    let valued = valued_ids(circuit, prover);
    let room = (sys.capacity - sys.gates) as nat;
    let mismatch = sys.prover && !prover;
    let gate_error = gate_pass_error(
        circuit.constraints,
        valued,
        declared_ids(circuit),
        prover,
        room,
        mismatch,
    );
    if !values_decodable(circuit.instance) || (prover && !values_decodable(circuit.private)) {
        Some(Error::InvalidScalarEncoding)
    } else if gate_error.is_some() {
        gate_error
    } else if residual_pass_fails(
        residual(circuit),
        valued,
        prover,
        (room - circuit.constraints.len()) as nat,
        mismatch,
    ) {
        Some(Error::AllocationFailure)
    } else {
        tie_pass_error(final_bindings(circuit, sys.gates).dom(), circuit.constraints)
    }
}

/// The system `sys` after a circuit has been translated into it.
pub open spec fn translated(sys: SystemView, circuit: CircuitView) -> SystemView {
    let count = circuit.constraints.len();
    SystemView {
        phase: if required_gates(circuit) > 0 {
            Phase::GatesAllocated
        } else {
            sys.phase
        },
        gates: sys.gates + required_gates(circuit),
        wires: if sys.prover {
            sys.wires + constraint_wires(witness(circuit), circuit.constraints) + residual_wires(
                witness(circuit),
                residual(circuit),
            )
        } else {
            sys.wires
        },
        constraints: sys.constraints + tied(
            final_bindings(circuit, sys.gates),
            circuit.constraints,
            left_wires(sys.gates, count),
            right_wires(sys.gates, count),
            output_wires(sys.gates, count),
        ),
        ..sys
    }
}

/// Why building the circuit of `messages` into the system `sys` fails, if it
/// does: a missing section before anything else.
pub open spec fn build_error(sys: SystemView, messages: &Messages, prover: bool) -> Option<Error> {
    if !messages.complete() {
        Some(Error::MissingField)
    } else {
        translation_error(sys, messages.circuit_view(), prover)
    }
}

/// Evaluates a list of terms on the witness: the sum of each coefficient
/// times the value of its variable.
///
/// Fails at the first term whose variable has no value
/// (`AllocationFailure`: the witness is incomplete) or whose coefficient
/// does not decode (`InvalidScalarEncoding`).
pub fn eval_zkif_lc(id_to_value: &HashMap<u64, Scalar>, terms: &[Term]) -> (r: Result<
    Scalar,
    Error,
>)
    ensures
        match r {
            Ok(sum) => evaluation_error(id_to_value@.dom(), terms@).is_none() && sum@
                == witness_sum(values_view(id_to_value@), terms@),
            Err(e) => evaluation_error(id_to_value@.dom(), terms@) == Some(e),
        },
{
    let mut sum = Scalar::zero();
    let mut i: usize = 0;
    assert(terms@.skip(0) =~= terms@);
    while i < terms.len()
        invariant
            i <= terms.len(),
            evaluation_error(id_to_value@.dom(), terms@) == evaluation_error(
                id_to_value@.dom(),
                terms@.skip(i as int),
            ),
            sum@ == witness_sum(values_view(id_to_value@), terms@.take(i as int)),
        decreases terms.len() - i,
    {
        let term = &terms[i];
        let ghost rest = terms@.skip(i as int);
        assert(rest[0] == terms@[i as int]);
        assert(rest.drop_first() =~= terms@.skip(i as int + 1));
        let val = match id_to_value.get(&term.id) {
            Some(val) => *val,
            None => {
                return Err(Error::AllocationFailure);
            },
        };
        let coeff = scalar_from_zkif(term.value.as_slice())?;
        sum = sum.add(&coeff.mul(&val));
        proof {
            let next = terms@.take(i as int + 1);
            assert(next.drop_last() =~= terms@.take(i as int));
            assert(next.last() == terms@[i as int]);
        }
        i += 1;
    }
    assert(terms@.take(i as int) =~= terms@);
    assert(terms@.skip(i as int) =~= Seq::<Term>::empty());
    Ok(sum)
}

/// Rewrites a list of terms over the bound variables: the sum, over the
/// terms, of the combination bound to the term's id scaled by the term's
/// coefficient. Fails at the first term whose id is not bound
/// (`UnknownVariable`) or whose coefficient does not decode
/// (`InvalidScalarEncoding`).
pub fn convert_zkif_lc(id_to_lc: &HashMap<u64, LinearCombination>, terms: &[Term]) -> (r: Result<
    LinearCombination,
    Error,
>)
    ensures
        match r {
            Ok(lc) => conversion_error(id_to_lc@.dom(), terms@).is_none() && lc@ == converted(
                bindings_view(id_to_lc@),
                terms@,
            ),
            Err(e) => conversion_error(id_to_lc@.dom(), terms@) == Some(e),
        },
{
    let mut lc = LinearCombination::new();
    let mut i: usize = 0;
    assert(terms@.skip(0) =~= terms@);
    while i < terms.len()
        invariant
            i <= terms.len(),
            conversion_error(id_to_lc@.dom(), terms@) == conversion_error(
                id_to_lc@.dom(),
                terms@.skip(i as int),
            ),
            lc@ == converted(bindings_view(id_to_lc@), terms@.take(i as int)),
        decreases terms.len() - i,
    {
        let term = &terms[i];
        let ghost rest = terms@.skip(i as int);
        assert(rest[0] == terms@[i as int]);
        assert(rest.drop_first() =~= terms@.skip(i as int + 1));
        let var = match id_to_lc.get(&term.id) {
            Some(var) => var,
            None => {
                return Err(Error::UnknownVariable(term.id));
            },
        };
        let coeff = match scalar_from_zkif(term.value.as_slice()) {
            Ok(coeff) => coeff,
            Err(e) => {
                return Err(e);
            },
        };
        lc = lc.add(&var.scale(&coeff));
        proof {
            let next = terms@.take(i as int + 1);
            assert(next.drop_last() =~= terms@.take(i as int));
            assert(next.last() == terms@[i as int]);
        }
        i += 1;
    }
    assert(terms@.take(i as int) =~= terms@);
    assert(terms@.skip(i as int) =~= Seq::<Term>::empty());
    Ok(lc)
}

/// Binds id 0 to the constant one and every instance variable to the
/// constant that its value writes. Fails with `InvalidScalarEncoding` when a
/// value does not decode.
pub fn bind_instance(instance: &Vec<CircuitVariable>) -> (r: Result<
    HashMap<u64, LinearCombination>,
    Error,
>)
    ensures
        match r {
            Ok(id_to_lc) => values_decodable(instance@) && bindings_view(id_to_lc@)
                == seed_bindings(instance@),
            Err(e) => !values_decodable(instance@) && e == Error::InvalidScalarEncoding,
        },
{
    let mut id_to_lc: HashMap<u64, LinearCombination> = HashMap::new();
    id_to_lc.insert(0, LinearCombination::from_variable(Variable::One));
    assert(bindings_view(id_to_lc@) =~= seed_bindings(instance@.take(0)));
    let mut i: usize = 0;
    while i < instance.len()
        invariant
            i <= instance.len(),
            values_decodable(instance@.take(i as int)),
            bindings_view(id_to_lc@) == seed_bindings(instance@.take(i as int)),
        decreases instance.len() - i,
    {
        let var = &instance[i];
        let val = scalar_from_zkif(var.value.as_slice())?;
        let ghost before = id_to_lc@;
        id_to_lc.insert(var.id, LinearCombination::from_scalar(val));
        proof {
            let next = instance@.take(i as int + 1);
            assert(next.drop_last() =~= instance@.take(i as int));
            assert(next.last() == instance@[i as int]);
            assert(bindings_view(id_to_lc@) =~= bindings_view(before).insert(
                var.id,
                seq![(Variable::One, val@)],
            ));
            assert forall|k: int| 0 <= k < next.len() implies decode_spec(
                (#[trigger] next[k]).value@,
            ).is_some() by {
                if k < i {
                    assert(instance@.take(i as int)[k] == next[k]);
                }
            }
        }
        i += 1;
    }
    assert(instance@.take(i as int) =~= instance@);
    Ok(id_to_lc)
}

/// Records the values of `vars` in the witness, a later value for an id
/// replacing an earlier one. Fails with `InvalidScalarEncoding` when a value
/// does not decode.
pub fn assign_values(id_to_value: &mut HashMap<u64, Scalar>, vars: &Vec<CircuitVariable>) -> (r:
    Result<(), Error>)
    ensures
        match r {
            Ok(()) => values_decodable(vars@) && values_view(final(id_to_value)@) == assign(
                values_view(old(id_to_value)@),
                vars@,
            ),
            Err(e) => !values_decodable(vars@) && e == Error::InvalidScalarEncoding,
        },
{
    let mut i: usize = 0;
    assert(vars@.take(0) =~= Seq::<CircuitVariable>::empty());
    while i < vars.len()
        invariant
            i <= vars.len(),
            values_decodable(vars@.take(i as int)),
            values_view(id_to_value@) == assign(values_view(old(id_to_value)@), vars@.take(i as int)),
        decreases vars.len() - i,
    {
        let var = &vars[i];
        let val = scalar_from_zkif(var.value.as_slice())?;
        let ghost before = id_to_value@;
        id_to_value.insert(var.id, val);
        proof {
            let next = vars@.take(i as int + 1);
            assert(next.drop_last() =~= vars@.take(i as int));
            assert(next.last() == vars@[i as int]);
            assert(values_view(id_to_value@) =~= values_view(before).insert(var.id, val@));
            assert forall|k: int| 0 <= k < next.len() implies decode_spec(
                (#[trigger] next[k]).value@,
            ).is_some() by {
                if k < i {
                    assert(vars@.take(i as int)[k] == next[k]);
                }
            }
        }
        i += 1;
    }
    assert(vars@.take(i as int) =~= vars@);
    Ok(())
}

/// Records the witness values of the private variables, a later value for
/// an id replacing an earlier one. A variable whose value is empty has no
/// witness value and is passed over. Fails with `InvalidScalarEncoding` when
/// a value does not decode.
pub fn assign_witness(id_to_value: &mut HashMap<u64, Scalar>, private: &Vec<CircuitVariable>) -> (r:
    Result<(), Error>)
    ensures
        match r {
            Ok(()) => values_decodable(private@) && values_view(final(id_to_value)@)
                == assign_present(values_view(old(id_to_value)@), private@),
            Err(e) => !values_decodable(private@) && e == Error::InvalidScalarEncoding,
        },
{
    let mut i: usize = 0;
    assert(private@.take(0) =~= Seq::<CircuitVariable>::empty());
    while i < private.len()
        invariant
            i <= private.len(),
            values_decodable(private@.take(i as int)),
            values_view(id_to_value@) == assign_present(
                values_view(old(id_to_value)@),
                private@.take(i as int),
            ),
        decreases private.len() - i,
    {
        let var = &private[i];
        let ghost before = id_to_value@;
        let ghost next = private@.take(i as int + 1);
        proof {
            assert(next.drop_last() =~= private@.take(i as int));
            assert(next.last() == private@[i as int]);
        }
        if var.value.len() > 0 {
            let val = scalar_from_zkif(var.value.as_slice())?;
            id_to_value.insert(var.id, val);
            assert(values_view(id_to_value@) =~= values_view(before).insert(var.id, val@));
        } else {
            proof {
                crate::scalar::lemma_order_bounds();
                assert(decode_spec(var.value@).is_some());
            }
        }
        proof {
            assert forall|k: int| 0 <= k < next.len() implies decode_spec(
                (#[trigger] next[k]).value@,
            ).is_some() by {
                if k < i {
                    assert(private@.take(i as int)[k] == next[k]);
                }
            }
        }
        i += 1;
    }
    assert(private@.take(i as int) =~= private@);
    Ok(())
}

/// Collects the ids that a circuit declares: 0, the ids of the instance
/// variables and the ids of the private variables.
pub fn declared_variables(instance: &Vec<CircuitVariable>, private: &Vec<CircuitVariable>) -> (r:
    HashSet<u64>)
    ensures
        r@ == ids_of(instance@).union(ids_of(private@)).insert(0),
{
    let mut declared: HashSet<u64> = HashSet::new();
    declared.insert(0);
    assert(declared@ =~= Set::<u64>::empty().insert(0));
    let mut i: usize = 0;
    assert(ids_of(instance@.take(0)) =~= Set::<u64>::empty());
    while i < instance.len()
        invariant
            i <= instance.len(),
            declared@ == ids_of(instance@.take(i as int)).insert(0),
        decreases instance.len() - i,
    {
        declared.insert(instance[i].id);
        proof {
            lemma_ids_of_push(instance@, i as int);
            assert(declared@ =~= ids_of(instance@.take(i as int + 1)).insert(0));
        }
        i += 1;
    }
    assert(instance@.take(i as int) =~= instance@);
    let mut j: usize = 0;
    assert(ids_of(private@.take(0)) =~= Set::<u64>::empty());
    assert(declared@ =~= ids_of(instance@).union(ids_of(private@.take(0))).insert(0));
    while j < private.len()
        invariant
            j <= private.len(),
            declared@ == ids_of(instance@).union(ids_of(private@.take(j as int))).insert(0),
        decreases private.len() - j,
    {
        declared.insert(private[j].id);
        proof {
            lemma_ids_of_push(private@, j as int);
            assert(declared@ =~= ids_of(instance@).union(
                ids_of(private@.take(j as int + 1)),
            ).insert(0));
        }
        j += 1;
    }
    assert(private@.take(j as int) =~= private@);
    declared
}

/// The ids of one more variable are the ids so far and its id.
pub proof fn lemma_ids_of_push(vars: Seq<CircuitVariable>, i: int)
    requires
        0 <= i < vars.len(),
    ensures
        ids_of(vars.take(i + 1)) == ids_of(vars.take(i)).insert(vars[i].id),
{
    let shorter = vars.take(i);
    let longer = vars.take(i + 1);
    assert forall|id: u64| ids_of(longer).contains(id) <==> ids_of(shorter).insert(
        vars[i].id,
    ).contains(id) by {
        if ids_of(longer).contains(id) {
            let k = choose|k: int| 0 <= k < longer.len() && (#[trigger] longer[k]).id == id;
            if k < i {
                assert(shorter[k].id == id);
            }
        }
        if ids_of(shorter).contains(id) {
            let k = choose|k: int| 0 <= k < shorter.len() && (#[trigger] shorter[k]).id == id;
            assert(longer[k].id == id);
        }
        assert(longer[i].id == vars[i].id);
    }
    assert(ids_of(longer) =~= ids_of(shorter).insert(vars[i].id));
}

/// A list of terms whose variables all lie in `valued` and whose
/// coefficients all decode can be evaluated.
pub proof fn lemma_evaluation_complete(valued: Set<u64>, terms: Seq<Term>)
    requires
        terms_bound(valued, terms),
        terms_decodable(terms),
    ensures
        evaluation_error(valued, terms).is_none(),
    decreases terms.len(),
{
    if terms.len() > 0 {
        let rest = terms.drop_first();
        assert forall|i: int| 0 <= i < rest.len() implies valued.contains((#[trigger] rest[i]).id)
            && decode_spec(rest[i].value@).is_some() by {
            assert(rest[i] == terms[i + 1]);
        }
        lemma_evaluation_complete(valued, rest);
        assert(valued.contains(terms[0].id));
        assert(decode_spec(terms[0].value@).is_some());
    }
}

/// Goes through a list of terms that names a variable without a value and
/// finds what has to be reported of it when its gate is filled: the first
/// term, in order, whose variable is declared but has no value
/// (`AllocationFailure`) or whose coefficient does not decode
/// (`InvalidScalarEncoding`). A variable that nothing declares is passed
/// over.
pub fn check_terms(id_to_value: &HashMap<u64, Scalar>, declared: &HashSet<u64>, terms: &[Term]) -> (r:
    Result<(), Error>)
    ensures
        match r {
            Ok(()) => evaluation_error(evaluable_ids(id_to_value@.dom(), declared@), terms@).is_none(),
            Err(e) => evaluation_error(evaluable_ids(id_to_value@.dom(), declared@), terms@)
                == Some(e),
        },
{
    let ghost evaluable = evaluable_ids(id_to_value@.dom(), declared@);
    let mut i: usize = 0;
    assert(terms@.skip(0) =~= terms@);
    while i < terms.len()
        invariant
            i <= terms.len(),
            evaluable == evaluable_ids(id_to_value@.dom(), declared@),
            evaluation_error(evaluable, terms@) == evaluation_error(evaluable, terms@.skip(i as int)),
        decreases terms.len() - i,
    {
        let term = &terms[i];
        let ghost rest = terms@.skip(i as int);
        assert(rest[0] == terms@[i as int]);
        assert(rest.drop_first() =~= terms@.skip(i as int + 1));
        if !id_to_value.contains_key(&term.id) && declared.contains(&term.id) {
            return Err(Error::AllocationFailure);
        }
        scalar_from_zkif(term.value.as_slice())?;
        i += 1;
    }
    assert(terms@.skip(i as int) =~= Seq::<Term>::empty());
    Ok(())
}

/// The value that a gate of the proving side carries for a list of terms.
///
/// Where every variable of the list has a value, this is the value of the
/// list on the witness. A declared variable without a value is an
/// `AllocationFailure`: the witness is incomplete. A variable that nothing
/// declares makes the wire carry zero for now; the equality pass reports it
/// and no proof is made of that gate.
pub fn gate_wire(id_to_value: &HashMap<u64, Scalar>, declared: &HashSet<u64>, terms: &[Term]) -> (r:
    Result<Scalar, Error>)
    ensures
        match r {
            Ok(value) => evaluation_error(
                evaluable_ids(id_to_value@.dom(), declared@),
                terms@,
            ).is_none() && value@ == gate_value(values_view(id_to_value@), terms@),
            Err(e) => evaluation_error(evaluable_ids(id_to_value@.dom(), declared@), terms@)
                == Some(e),
        },
{
    assert(values_view(id_to_value@).dom() =~= id_to_value@.dom());
    match eval_zkif_lc(id_to_value, terms) {
        Ok(value) => {
            proof {
                lemma_evaluation_none(id_to_value@.dom(), terms@);
                lemma_evaluation_complete(
                    evaluable_ids(id_to_value@.dom(), declared@),
                    terms@,
                );
            }
            Ok(value)
        },
        Err(_) => {
            check_terms(id_to_value, declared, terms)?;
            Ok(Scalar::zero())
        },
    }
}

/// Allocates one gate per constraint, in the order of the constraints.
///
/// With `prover` set, the wire values of each gate are the values of the
/// constraint's three lists of terms on the witness ([`gate_wire`]),
/// evaluated just before that gate is allocated. Fails as
/// [`gate_pass_error`] says: at the first constraint with a declared
/// variable that has no value, with a coefficient that does not decode, or
/// whose gate cannot be allocated.
pub fn allocate_constraint_gates(
    cs: &mut ConstraintSystem,
    id_to_value: &HashMap<u64, Scalar>,
    declared: &HashSet<u64>,
    constraints: &Vec<Constraint>,
    prover: bool,
) -> (r: Result<GateVariables, Error>)
    requires
        old(cs).wf(),
        old(cs)@.phase != Phase::Created,
    ensures
        final(cs).wf(),
        final(cs)@.phase != Phase::Created,
        final(cs)@.extends(old(cs)@),
        final(cs)@.constraints == old(cs)@.constraints,
        ({
            let failure = gate_pass_error(
                constraints@,
                id_to_value@.dom(),
                declared@,
                prover,
                (old(cs)@.capacity - old(cs)@.gates) as nat,
                old(cs)@.prover && !prover,
            );
            match r {
                Ok(gates) => {
                    &&& failure.is_none()
                    &&& gates.left@ == left_wires(old(cs)@.gates, constraints@.len() as nat)
                    &&& gates.right@ == right_wires(old(cs)@.gates, constraints@.len() as nat)
                    &&& gates.output@ == output_wires(old(cs)@.gates, constraints@.len() as nat)
                    &&& final(cs)@.gates == old(cs)@.gates + constraints@.len()
                    &&& final(cs)@.wires == if old(cs)@.prover {
                        old(cs)@.wires + constraint_wires(values_view(id_to_value@), constraints@)
                    } else {
                        old(cs)@.wires
                    }
                },
                Err(e) => failure == Some(e),
            }
        }),
{
    let ghost start = cs@;
    let ghost values = values_view(id_to_value@);
    let ghost valued = id_to_value@.dom();
    let ghost room = (start.capacity - start.gates) as nat;
    let ghost mismatch = start.prover && !prover;
    let mut gates = GateVariables { left: Vec::new(), right: Vec::new(), output: Vec::new() };
    let mut k: usize = 0;
    proof {
        assert(cs@.wires.take(start.wires.len() as int) =~= start.wires);
        assert(cs@.constraints.take(start.constraints.len() as int) =~= start.constraints);
        assert(start.wires + constraint_wires(values, constraints@.take(0)) =~= start.wires);
        assert(gates.left@ =~= left_wires(start.gates, 0));
        assert(gates.right@ =~= right_wires(start.gates, 0));
        assert(gates.output@ =~= output_wires(start.gates, 0));
        assert(constraints@.skip(0) =~= constraints@);
    }
    while k < constraints.len()
        invariant
            k <= constraints.len(),
            start == old(cs)@,
            start.wf(),
            start.phase != Phase::Created,
            values == values_view(id_to_value@),
            valued == id_to_value@.dom(),
            room == (start.capacity - start.gates) as nat,
            mismatch == (start.prover && !prover),
            cs.wf(),
            cs@.phase != Phase::Created,
            cs@.extends(start),
            cs@.constraints == start.constraints,
            cs@.gates == start.gates + k,
            gate_pass_error(constraints@, valued, declared@, prover, room, mismatch)
                == gate_pass_error(
                constraints@.skip(k as int),
                valued,
                declared@,
                prover,
                (room - k) as nat,
                mismatch,
            ),
            cs@.wires == if start.prover {
                start.wires + constraint_wires(values, constraints@.take(k as int))
            } else {
                start.wires
            },
            gates.left@ == left_wires(start.gates, k as nat),
            gates.right@ == right_wires(start.gates, k as nat),
            gates.output@ == output_wires(start.gates, k as nat),
        decreases constraints.len() - k,
    {
        let constraint = &constraints[k];
        let ghost rest = constraints@.skip(k as int);
        proof {
            assert(rest[0] == constraints@[k as int]);
            assert(rest.drop_first() =~= constraints@.skip(k as int + 1));
        }
        let assignment = if prover {
            let left = gate_wire(id_to_value, declared, constraint.a.as_slice())?;
            let right = gate_wire(id_to_value, declared, constraint.b.as_slice())?;
            let output = gate_wire(id_to_value, declared, constraint.c.as_slice())?;
            Some((left, right, output))
        } else {
            None
        };
        let (gate_a, gate_b, gate_c) = cs.allocate(assignment)?;
        gates.left.push(gate_a);
        gates.right.push(gate_b);
        gates.output.push(gate_c);
        proof {
            assert(gates.left@ =~= left_wires(start.gates, (k + 1) as nat));
            assert(gates.right@ =~= right_wires(start.gates, (k + 1) as nat));
            assert(gates.output@ =~= output_wires(start.gates, (k + 1) as nat));
            if start.prover {
                assert(cs@.wires =~= start.wires + constraint_wires(
                    values,
                    constraints@.take(k as int + 1),
                ));
            }
            assert(cs@.wires.take(start.wires.len() as int) =~= start.wires);
        }
        k += 1;
    }
    assert(constraints@.take(k as int) =~= constraints@);
    assert(constraints@.skip(k as int) =~= Seq::<Constraint>::empty());
    Ok(gates)
}

/// The residual ids of a shorter list of private variables open those of the
/// whole list.
pub proof fn lemma_residual_prefix(bound: Set<u64>, private: Seq<CircuitVariable>, i: int)
    requires
        0 <= i <= private.len(),
    ensures
        residual_ids(bound, private.take(i)).is_prefix_of(residual_ids(bound, private)),
    decreases private.len(),
{
    if i == private.len() {
        assert(private.take(i) =~= private);
    } else {
        assert(private.drop_last().take(i) =~= private.take(i));
        lemma_residual_prefix(bound, private.drop_last(), i);
    }
}

/// A residual id is the id of a private variable and is not in `bound`, and
/// no id is residual twice.
pub proof fn lemma_residual_members(bound: Set<u64>, private: Seq<CircuitVariable>)
    ensures
        forall|j: int|
            0 <= j < residual_ids(bound, private).len() ==> {
                &&& !bound.contains(#[trigger] residual_ids(bound, private)[j])
                &&& exists|i: int|
                    0 <= i < private.len() && (#[trigger] private[i]).id == residual_ids(
                        bound,
                        private,
                    )[j]
            },
        forall|i: int|
            0 <= i < private.len() ==> bound.contains((#[trigger] private[i]).id) || residual_ids(
                bound,
                private,
            ).contains(private[i].id),
        residual_ids(bound, private).no_duplicates(),
    decreases private.len(),
{
    if private.len() > 0 {
        let earlier = residual_ids(bound, private.drop_last());
        let ids = residual_ids(bound, private);
        lemma_residual_members(bound, private.drop_last());
        assert forall|j: int| 0 <= j < ids.len() implies {
            &&& !bound.contains(#[trigger] ids[j])
            &&& exists|i: int| 0 <= i < private.len() && (#[trigger] private[i]).id == ids[j]
        } by {
            if j < earlier.len() {
                let i = choose|i: int|
                    0 <= i < private.drop_last().len() && (#[trigger] private.drop_last()[i]).id
                        == earlier[j];
                assert(private[i].id == ids[j]);
            } else {
                assert(private[private.len() - 1].id == ids[j]);
            }
        }
        assert forall|i: int| 0 <= i < private.len() implies bound.contains(
            (#[trigger] private[i]).id,
        ) || ids.contains(private[i].id) by {
            if i < private.len() - 1 {
                assert(private.drop_last()[i] == private[i]);
                if earlier.contains(private[i].id) {
                    let j = choose|j: int| 0 <= j < earlier.len() && earlier[j] == private[i].id;
                    assert(ids[j] == private[i].id);
                }
            } else if !bound.contains(private[i].id) && !earlier.contains(private[i].id) {
                assert(ids[ids.len() - 1] == private[i].id);
            } else if earlier.contains(private[i].id) {
                let j = choose|j: int| 0 <= j < earlier.len() && earlier[j] == private[i].id;
                assert(ids[j] == private[i].id);
            }
        }
    }
}

/// After the residual pass an id is bound exactly when it was bound before
/// or is residual, and earlier bindings are kept.
pub proof fn lemma_bind_residual(bindings: Map<u64, Terms>, ids: Seq<u64>, first_gate: nat)
    requires
        forall|j: int| 0 <= j < ids.len() ==> !bindings.contains_key(#[trigger] ids[j]),
        ids.no_duplicates(),
    ensures
        forall|id: u64|
            #[trigger] bind_residual(bindings, ids, first_gate).contains_key(id)
                <==> bindings.contains_key(id) || ids.contains(id),
        forall|id: u64|
            bindings.contains_key(id) ==> #[trigger] bind_residual(bindings, ids, first_gate)[id]
                == bindings[id],
        forall|j: int|
            0 <= j < ids.len() ==> bind_residual(bindings, ids, first_gate)[#[trigger] ids[j]]
                == seq![(Variable::MultiplierLeft((first_gate + j) as usize), 1nat)],
    decreases ids.len(),
{
    if ids.len() > 0 {
        let earlier = ids.drop_last();
        lemma_bind_residual(bindings, earlier, first_gate);
        let all = bind_residual(bindings, ids, first_gate);
        let prev = bind_residual(bindings, earlier, first_gate);
        let last = ids[ids.len() - 1];
        assert(all == prev.insert(
            last,
            seq![(Variable::MultiplierLeft((first_gate + ids.len() - 1) as usize), 1nat)],
        ));
        assert(!bindings.contains_key(last));
        assert forall|id: u64| #[trigger] all.contains_key(id) <==> bindings.contains_key(id)
            || ids.contains(id) by {
            assert(prev.contains_key(id) <==> bindings.contains_key(id) || earlier.contains(id));
            if earlier.contains(id) {
                let j = choose|j: int| 0 <= j < earlier.len() && earlier[j] == id;
                assert(ids[j] == id);
            }
            if ids.contains(id) && id != last {
                let j = choose|j: int| 0 <= j < ids.len() && ids[j] == id;
                assert(earlier[j] == id);
            }
        }
        assert forall|j: int| 0 <= j < ids.len() implies all[#[trigger] ids[j]] == seq![
            (Variable::MultiplierLeft((first_gate + j) as usize), 1nat),
        ] by {
            if j < ids.len() - 1 {
                assert(earlier[j] == ids[j]);
                assert(ids[j] != last);
                assert(prev[earlier[j]] == seq![
                    (Variable::MultiplierLeft((first_gate + j) as usize), 1nat),
                ]);
            }
        }
        assert forall|id: u64| bindings.contains_key(id) implies #[trigger] all[id]
            == bindings[id] by {
            assert(last != id);
            assert(prev[id] == bindings[id]);
        }
    }
}

/// Allocates one gate for each private variable that nothing binds yet and
/// binds the variable to the left wire of its gate.
///
/// With `prover` set, the left wire carries the variable's witness value and
/// the other two wires carry zero. Fails with `AllocationFailure` when the
/// capacity does not cover all the gates, when a proving system is to get a
/// gate without values, or when the witness has no value for the variable.
pub fn allocate_residual_gates(
    cs: &mut ConstraintSystem,
    id_to_lc: &mut HashMap<u64, LinearCombination>,
    id_to_value: &HashMap<u64, Scalar>,
    private: &Vec<CircuitVariable>,
    prover: bool,
) -> (r: Result<(), Error>)
    requires
        old(cs).wf(),
        old(cs)@.phase != Phase::Created,
        bindings_allocated(bindings_view(old(id_to_lc)@), old(cs)@.gates),
    ensures
        final(cs).wf(),
        final(cs)@.phase != Phase::Created,
        final(cs)@.extends(old(cs)@),
        final(cs)@.constraints == old(cs)@.constraints,
        ({
            let ids = residual_ids(old(id_to_lc)@.dom(), private@);
            let values = values_view(id_to_value@);
            match r {
                Ok(()) => {
                    &&& !residual_pass_fails(
                        ids,
                        id_to_value@.dom(),
                        prover,
                        (old(cs)@.capacity - old(cs)@.gates) as nat,
                        old(cs)@.prover && !prover,
                    )
                    &&& final(cs)@.gates == old(cs)@.gates + ids.len()
                    &&& final(cs)@.wires == if old(cs)@.prover {
                        old(cs)@.wires + residual_wires(values, ids)
                    } else {
                        old(cs)@.wires
                    }
                    &&& bindings_view(final(id_to_lc)@) == bind_residual(
                        bindings_view(old(id_to_lc)@),
                        ids,
                        old(cs)@.gates,
                    )
                    &&& bindings_allocated(bindings_view(final(id_to_lc)@), final(cs)@.gates)
                },
                Err(e) => {
                    &&& e == Error::AllocationFailure
                    &&& residual_pass_fails(
                        ids,
                        id_to_value@.dom(),
                        prover,
                        (old(cs)@.capacity - old(cs)@.gates) as nat,
                        old(cs)@.prover && !prover,
                    )
                },
            }
        }),
{
    let ghost start = cs@;
    let ghost bound = id_to_lc@.dom();
    let ghost seed = bindings_view(id_to_lc@);
    let ghost values = values_view(id_to_value@);
    let ghost all_ids = residual_ids(bound, private@);
    let mut i: usize = 0;
    proof {
        assert(private@.take(0) =~= Seq::<CircuitVariable>::empty());
        assert(start.wires + residual_wires(values, Seq::<u64>::empty()) =~= start.wires);
        assert(cs@.wires.take(start.wires.len() as int) =~= start.wires);
        assert(cs@.constraints.take(start.constraints.len() as int) =~= start.constraints);
    }
    while i < private.len()
        invariant
            i <= private.len(),
            start == old(cs)@,
            bound == old(id_to_lc)@.dom(),
            seed == bindings_view(old(id_to_lc)@),
            values == values_view(id_to_value@),
            all_ids == residual_ids(bound, private@),
            start.wf(),
            start.phase != Phase::Created,
            cs.wf(),
            cs@.phase != Phase::Created,
            cs@.extends(start),
            cs@.constraints == start.constraints,
            cs@.gates == start.gates + residual_ids(bound, private@.take(i as int)).len(),
            residual_ids(bound, private@.take(i as int)).len() > 0 ==> !(start.prover && !prover),
            prover ==> forall|j: int|
                0 <= j < residual_ids(bound, private@.take(i as int)).len()
                    ==> id_to_value@.dom().contains(
                    #[trigger] residual_ids(bound, private@.take(i as int))[j],
                ),
            cs@.wires == if start.prover {
                start.wires + residual_wires(values, residual_ids(bound, private@.take(i as int)))
            } else {
                start.wires
            },
            bindings_view(id_to_lc@) == bind_residual(
                seed,
                residual_ids(bound, private@.take(i as int)),
                start.gates,
            ),
            bindings_allocated(bindings_view(id_to_lc@), cs@.gates),
        decreases private.len() - i,
    {
        let circuit_var = &private[i];
        let ghost done = residual_ids(bound, private@.take(i as int));
        let ghost next = residual_ids(bound, private@.take(i as int + 1));
        proof {
            assert(private@.take(i as int + 1).drop_last() =~= private@.take(i as int));
            assert(private@.take(i as int + 1).last() == private@[i as int]);
            lemma_residual_members(bound, private@.take(i as int));
            assert forall|j: int| 0 <= j < done.len() implies !seed.contains_key(
                #[trigger] done[j],
            ) by {}
            lemma_bind_residual(seed, done, start.gates);
            lemma_residual_prefix(bound, private@, i as int + 1);
            assert(id_to_lc@.contains_key(circuit_var.id) == bindings_view(id_to_lc@).contains_key(
                circuit_var.id,
            ));
            assert(seed.contains_key(circuit_var.id) == bound.contains(circuit_var.id));
        }
        if !id_to_lc.contains_key(&circuit_var.id) {
            assert(next == done.push(circuit_var.id));
            assert(all_ids.subrange(0, next.len() as int)[done.len() as int] == next[done.len() as int]);
            assert(all_ids[done.len() as int] == circuit_var.id);
            let assignment = if prover {
                let val = match id_to_value.get(&circuit_var.id) {
                    Some(val) => *val,
                    None => {
                        return Err(Error::AllocationFailure);
                    },
                };
                Some((val, Scalar::zero(), Scalar::zero()))
            } else {
                None
            };
            let (gate_var, _, _) = cs.allocate(assignment)?;
            let ghost before = id_to_lc@;
            id_to_lc.insert(circuit_var.id, LinearCombination::from_variable(gate_var));
            proof {
                assert(bindings_view(id_to_lc@) =~= bindings_view(before).insert(
                    circuit_var.id,
                    seq![(gate_var, 1nat)],
                ));
                assert(next.drop_last() =~= done);
                if start.prover {
                    assert(cs@.wires =~= start.wires + residual_wires(values, next));
                }
                assert(cs@.wires.take(start.wires.len() as int) =~= start.wires);
                assert forall|id: u64| #[trigger]
                    bindings_view(id_to_lc@).contains_key(id) implies terms_allocated(
                    bindings_view(id_to_lc@)[id],
                    cs@.gates,
                ) by {
                    if id != circuit_var.id {
                        assert(bindings_view(before).contains_key(id));
                        assert(terms_allocated(bindings_view(before)[id], (cs@.gates - 1) as nat));
                    }
                }
            }
        } else {
            assert(next == done);
        }
        i += 1;
    }
    assert(private@.take(i as int) =~= private@);
    Ok(())
}

/// A list of terms that can be converted names bound variables only, and
/// all its coefficients decode.
pub proof fn lemma_conversion_none(bound: Set<u64>, terms: Seq<Term>)
    requires
        conversion_error(bound, terms).is_none(),
    ensures
        terms_bound(bound, terms),
        terms_decodable(terms),
    decreases terms.len(),
{
    if terms.len() > 0 {
        let rest = terms.drop_first();
        lemma_conversion_none(bound, rest);
        assert forall|i: int| 0 <= i < terms.len() implies bound.contains((#[trigger] terms[i]).id)
            && decode_spec(terms[i].value@).is_some() by {
            if i > 0 {
                assert(rest[i - 1] == terms[i]);
            }
        }
    }
}

/// A list of terms that can be evaluated names variables with a value only,
/// and all its coefficients decode.
pub proof fn lemma_evaluation_none(valued: Set<u64>, terms: Seq<Term>)
    requires
        evaluation_error(valued, terms).is_none(),
    ensures
        terms_bound(valued, terms),
        terms_decodable(terms),
    decreases terms.len(),
{
    if terms.len() > 0 {
        let rest = terms.drop_first();
        lemma_evaluation_none(valued, rest);
        assert forall|i: int| 0 <= i < terms.len() implies valued.contains(
            (#[trigger] terms[i]).id,
        ) && decode_spec(terms[i].value@).is_some() by {
            if i > 0 {
                assert(rest[i - 1] == terms[i]);
            }
        }
    }
}

/// Where the coefficients decode, an evaluation can only fail for want of
/// a value.
pub proof fn lemma_evaluation_decodable(valued: Set<u64>, terms: Seq<Term>)
    requires
        terms_decodable(terms),
    ensures
        evaluation_error(valued, terms).is_none() || evaluation_error(valued, terms) == Some(
            Error::AllocationFailure,
        ),
    decreases terms.len(),
{
    if terms.len() > 0 {
        let rest = terms.drop_first();
        assert forall|i: int| 0 <= i < rest.len() implies decode_spec(
            (#[trigger] rest[i]).value@,
        ).is_some() by {
            assert(rest[i] == terms[i + 1]);
        }
        lemma_evaluation_decodable(valued, rest);
        assert(decode_spec(terms[0].value@).is_some());
    }
}

/// A gate pass without failure had room for every constraint, was not fed
/// off the proving path, and on the proving path found every coefficient
/// decodable and a value for every declared variable that a term names.
pub proof fn lemma_gate_pass_none(
    constraints: Seq<Constraint>,
    valued: Set<u64>,
    declared: Set<u64>,
    prover: bool,
    room: nat,
    mismatch: bool,
)
    requires
        gate_pass_error(constraints, valued, declared, prover, room, mismatch).is_none(),
    ensures
        constraints.len() <= room,
        constraints.len() > 0 ==> !mismatch,
        prover ==> all_bound(evaluable_ids(valued, declared), constraints),
        prover ==> constraints_decodable(constraints),
    decreases constraints.len(),
{
    if constraints.len() > 0 {
        let rest = constraints.drop_first();
        let evaluable = evaluable_ids(valued, declared);
        lemma_gate_pass_none(rest, valued, declared, prover, (room - 1) as nat, mismatch);
        if prover {
            lemma_evaluation_none(evaluable, constraints[0].a@);
            lemma_evaluation_none(evaluable, constraints[0].b@);
            lemma_evaluation_none(evaluable, constraints[0].c@);
            assert forall|k: int| 0 <= k < constraints.len() implies {
                &&& terms_bound(evaluable, (#[trigger] constraints[k]).a@)
                &&& terms_bound(evaluable, constraints[k].b@)
                &&& terms_bound(evaluable, constraints[k].c@)
                &&& terms_decodable(constraints[k].a@)
                &&& terms_decodable(constraints[k].b@)
                &&& terms_decodable(constraints[k].c@)
            } by {
                if k > 0 {
                    assert(rest[k - 1] == constraints[k]);
                }
            }
        }
    }
}

/// Where the coefficients decode, a gate pass can only fail with
/// `AllocationFailure`.
pub proof fn lemma_gate_pass_decodable(
    constraints: Seq<Constraint>,
    valued: Set<u64>,
    declared: Set<u64>,
    prover: bool,
    room: nat,
    mismatch: bool,
)
    requires
        constraints_decodable(constraints),
    ensures
        gate_pass_error(constraints, valued, declared, prover, room, mismatch).is_none()
            || gate_pass_error(constraints, valued, declared, prover, room, mismatch) == Some(
            Error::AllocationFailure,
        ),
    decreases constraints.len(),
{
    if constraints.len() > 0 {
        let rest = constraints.drop_first();
        let evaluable = evaluable_ids(valued, declared);
        assert forall|k: int| 0 <= k < rest.len() implies {
            &&& terms_decodable((#[trigger] rest[k]).a@)
            &&& terms_decodable(rest[k].b@)
            &&& terms_decodable(rest[k].c@)
        } by {
            assert(rest[k] == constraints[k + 1]);
        }
        lemma_gate_pass_decodable(rest, valued, declared, prover, (room - 1) as nat, mismatch);
        assert(terms_decodable(constraints[0].a@));
        lemma_evaluation_decodable(evaluable, constraints[0].a@);
        lemma_evaluation_decodable(evaluable, constraints[0].b@);
        lemma_evaluation_decodable(evaluable, constraints[0].c@);
    }
}

/// A gate pass has nothing to report where there is room for every
/// constraint, the system is fed on its own path, every coefficient decodes
/// and every declared variable has a value.
pub proof fn lemma_gate_pass_complete(
    constraints: Seq<Constraint>,
    valued: Set<u64>,
    declared: Set<u64>,
    prover: bool,
    room: nat,
    mismatch: bool,
)
    requires
        constraints.len() <= room,
        !mismatch,
        prover ==> constraints_decodable(constraints),
        prover ==> forall|id: u64| declared.contains(id) ==> valued.contains(id),
    ensures
        gate_pass_error(constraints, valued, declared, prover, room, mismatch).is_none(),
    decreases constraints.len(),
{
    if constraints.len() > 0 {
        let rest = constraints.drop_first();
        let evaluable = evaluable_ids(valued, declared);
        if prover {
            assert forall|k: int| 0 <= k < rest.len() implies {
                &&& terms_decodable((#[trigger] rest[k]).a@)
                &&& terms_decodable(rest[k].b@)
                &&& terms_decodable(rest[k].c@)
            } by {
                assert(rest[k] == constraints[k + 1]);
            }
        }
        lemma_gate_pass_complete(rest, valued, declared, prover, (room - 1) as nat, mismatch);
        if prover {
            assert(terms_decodable(constraints[0].a@));
            assert(terms_bound(evaluable, constraints[0].a@));
            assert(terms_bound(evaluable, constraints[0].b@));
            assert(terms_bound(evaluable, constraints[0].c@));
            lemma_evaluation_complete(evaluable, constraints[0].a@);
            lemma_evaluation_complete(evaluable, constraints[0].b@);
            lemma_evaluation_complete(evaluable, constraints[0].c@);
        }
    }
}

/// An equality pass without failure found every variable bound.
pub proof fn lemma_tie_pass_none(bound: Set<u64>, constraints: Seq<Constraint>)
    requires
        tie_pass_error(bound, constraints).is_none(),
    ensures
        all_bound(bound, constraints),
    decreases constraints.len(),
{
    if constraints.len() > 0 {
        let rest = constraints.drop_first();
        lemma_tie_pass_none(bound, rest);
        lemma_conversion_none(bound, constraints[0].a@);
        lemma_conversion_none(bound, constraints[0].b@);
        lemma_conversion_none(bound, constraints[0].c@);
        assert forall|k: int| 0 <= k < constraints.len() implies {
            &&& terms_bound(bound, (#[trigger] constraints[k]).a@)
            &&& terms_bound(bound, constraints[k].b@)
            &&& terms_bound(bound, constraints[k].c@)
        } by {
            if k > 0 {
                assert(rest[k - 1] == constraints[k]);
            }
        }
    }
}

/// Converted terms only name wires that the bindings name.
pub proof fn lemma_converted_allocated(bindings: Map<u64, Terms>, terms: Seq<Term>, gates: nat)
    requires
        bindings_allocated(bindings, gates),
        terms_bound(bindings.dom(), terms),
    ensures
        terms_allocated(converted(bindings, terms), gates),
    decreases terms.len(),
{
    if terms.len() > 0 {
        let front = terms.drop_last();
        assert forall|i: int| 0 <= i < front.len() implies bindings.dom().contains(
            (#[trigger] front[i]).id,
        ) by {
            assert(front[i] == terms[i]);
        }
        lemma_converted_allocated(bindings, front, gates);
        let last = terms[terms.len() - 1];
        assert(bindings.contains_key(last.id));
        let binding = bindings[last.id];
        assert(terms_allocated(binding, gates));
        let tail = scaled(binding, coefficient(last));
        assert forall|i: int| 0 <= i < tail.len() implies (#[trigger] tail[i]).0.allocated(
            gates,
        ) by {
            assert(binding[i].0.allocated(gates));
        }
    }
}

/// Ties the wires of each constraint's gate to the constraint: for each
/// constraint in order, three linear constraints say that the left, right
/// and output wire carry the value of the lists `a`, `b` and `c`.
///
/// Fails as [`tie_pass_error`] says: at the first term, in order, that
/// names a variable that is not bound (`UnknownVariable` with its id) or
/// whose coefficient does not decode.
pub fn tie_gates(
    cs: &mut ConstraintSystem,
    id_to_lc: &HashMap<u64, LinearCombination>,
    constraints: &Vec<Constraint>,
    gates: &GateVariables,
) -> (r: Result<(), Error>)
    requires
        old(cs).wf(),
        old(cs)@.phase != Phase::Created,
        bindings_allocated(bindings_view(id_to_lc@), old(cs)@.gates),
        gates.left@.len() == constraints@.len(),
        gates.right@.len() == constraints@.len(),
        gates.output@.len() == constraints@.len(),
        forall|k: int|
            0 <= k < constraints@.len() ==> {
                &&& (#[trigger] gates.left@[k]).allocated(old(cs)@.gates)
                &&& gates.right@[k].allocated(old(cs)@.gates)
                &&& gates.output@[k].allocated(old(cs)@.gates)
            },
    ensures
        final(cs).wf(),
        final(cs)@.extends(old(cs)@),
        final(cs)@.phase == old(cs)@.phase,
        final(cs)@.gates == old(cs)@.gates,
        final(cs)@.wires == old(cs)@.wires,
        match r {
            Ok(()) => {
                &&& tie_pass_error(id_to_lc@.dom(), constraints@).is_none()
                &&& final(cs)@.constraints == old(cs)@.constraints + tied(
                    bindings_view(id_to_lc@),
                    constraints@,
                    gates.left@,
                    gates.right@,
                    gates.output@,
                )
            },
            Err(e) => tie_pass_error(id_to_lc@.dom(), constraints@) == Some(e),
        },
{
    let ghost start = cs@;
    let ghost bindings = bindings_view(id_to_lc@);
    let mut k: usize = 0;
    proof {
        assert(constraints@.take(0) =~= Seq::<Constraint>::empty());
        assert(start.constraints + Seq::<Terms>::empty() =~= start.constraints);
        assert(cs@.wires.take(start.wires.len() as int) =~= start.wires);
        assert(cs@.constraints.take(start.constraints.len() as int) =~= start.constraints);
        assert(bindings.dom() =~= id_to_lc@.dom());
        assert(constraints@.skip(0) =~= constraints@);
    }
    while k < constraints.len()
        invariant
            k <= constraints.len(),
            start == old(cs)@,
            bindings == bindings_view(id_to_lc@),
            bindings.dom() == id_to_lc@.dom(),
            start.wf(),
            start.phase != Phase::Created,
            bindings_allocated(bindings, start.gates),
            gates.left@.len() == constraints@.len(),
            gates.right@.len() == constraints@.len(),
            gates.output@.len() == constraints@.len(),
            forall|j: int|
                0 <= j < constraints@.len() ==> {
                    &&& (#[trigger] gates.left@[j]).allocated(start.gates)
                    &&& gates.right@[j].allocated(start.gates)
                    &&& gates.output@[j].allocated(start.gates)
                },
            cs.wf(),
            cs@.extends(start),
            cs@.phase == start.phase,
            cs@.gates == start.gates,
            cs@.wires == start.wires,
            tie_pass_error(id_to_lc@.dom(), constraints@) == tie_pass_error(
                id_to_lc@.dom(),
                constraints@.skip(k as int),
            ),
            cs@.constraints == start.constraints + tied(
                bindings,
                constraints@.take(k as int),
                gates.left@,
                gates.right@,
                gates.output@,
            ),
        decreases constraints.len() - k,
    {
        let constraint = &constraints[k];
        let ghost rest = constraints@.skip(k as int);
        proof {
            assert(rest[0] == constraints@[k as int]);
            assert(rest.drop_first() =~= constraints@.skip(k as int + 1));
            assert(gates.left@[k as int].allocated(start.gates));
        }
        let lc_a = convert_zkif_lc(id_to_lc, constraint.a.as_slice())?;
        let lc_b = convert_zkif_lc(id_to_lc, constraint.b.as_slice())?;
        let lc_c = convert_zkif_lc(id_to_lc, constraint.c.as_slice())?;
        proof {
            lemma_conversion_none(id_to_lc@.dom(), constraint.a@);
            lemma_conversion_none(id_to_lc@.dom(), constraint.b@);
            lemma_conversion_none(id_to_lc@.dom(), constraint.c@);
            lemma_converted_allocated(bindings, constraint.a@, start.gates);
            lemma_converted_allocated(bindings, constraint.b@, start.gates);
            lemma_converted_allocated(bindings, constraint.c@, start.gates);
        }
        let ghost before = cs@.constraints;
        cs.constrain(lc_a.subtract(&LinearCombination::from_variable(gates.left[k])));
        cs.constrain(lc_b.subtract(&LinearCombination::from_variable(gates.right[k])));
        cs.constrain(lc_c.subtract(&LinearCombination::from_variable(gates.output[k])));
        proof {
            let next = constraints@.take(k as int + 1);
            assert(next.drop_last() =~= constraints@.take(k as int));
            assert(next[k as int] == constraints@[k as int]);
            assert(cs@.constraints =~= before + seq![
                tie(bindings, constraint.a@, gates.left@[k as int]),
                tie(bindings, constraint.b@, gates.right@[k as int]),
                tie(bindings, constraint.c@, gates.output@[k as int]),
            ]);
            assert(cs@.constraints =~= start.constraints + tied(
                bindings,
                next,
                gates.left@,
                gates.right@,
                gates.output@,
            ));
            assert(cs@.constraints.take(start.constraints.len() as int) =~= start.constraints);
        }
        k += 1;
    }
    assert(constraints@.take(k as int) =~= constraints@);
    assert(constraints@.skip(k as int) =~= Seq::<Constraint>::empty());
    Ok(())
}

/// The seed bindings name no wire at all.
pub proof fn lemma_seed_allocated(instance: Seq<CircuitVariable>, gates: nat)
    ensures
        bindings_allocated(seed_bindings(instance), gates),
    decreases instance.len(),
{
    if instance.len() > 0 {
        lemma_seed_allocated(instance.drop_last(), gates);
    }
}

/// Allocates all the gates of a circuit: one per constraint, then one per
/// private variable that the seed bindings leave unbound, which is bound to
/// the left wire of its gate.
///
/// Fails where the first of the two passes fails, with its error.
fn allocate_gates(
    cs: &mut ConstraintSystem,
    id_to_lc: &mut HashMap<u64, LinearCombination>,
    id_to_value: &HashMap<u64, Scalar>,
    declared: &HashSet<u64>,
    circuit: &Circuit,
    prover: bool,
) -> (r: Result<GateVariables, Error>)
    requires
        old(cs).wf(),
        old(cs)@.phase != Phase::Created,
        bindings_view(old(id_to_lc)@) == seed_bindings(circuit@.instance),
        declared@ == declared_ids(circuit@),
        id_to_value@.dom() == valued_ids(circuit@, prover),
        prover ==> values_view(id_to_value@) == witness(circuit@),
    ensures
        final(cs).wf(),
        final(cs)@.phase != Phase::Created,
        final(cs)@.extends(old(cs)@),
        final(cs)@.constraints == old(cs)@.constraints,
        ({
            let count = circuit@.constraints.len();
            let valued = valued_ids(circuit@, prover);
            let room = (old(cs)@.capacity - old(cs)@.gates) as nat;
            let mismatch = old(cs)@.prover && !prover;
            let gate_error = gate_pass_error(
                circuit@.constraints,
                valued,
                declared_ids(circuit@),
                prover,
                room,
                mismatch,
            );
            let residual_fails = residual_pass_fails(
                residual(circuit@),
                valued,
                prover,
                (room - count) as nat,
                mismatch,
            );
            match r {
                Ok(gates) => {
                    &&& gate_error.is_none()
                    &&& !residual_fails
                    &&& gates.left@ == left_wires(old(cs)@.gates, count)
                    &&& gates.right@ == right_wires(old(cs)@.gates, count)
                    &&& gates.output@ == output_wires(old(cs)@.gates, count)
                    &&& final(cs)@.gates == old(cs)@.gates + required_gates(circuit@)
                    &&& final(cs)@.wires == translated(old(cs)@, circuit@).wires
                    &&& bindings_view(final(id_to_lc)@) == final_bindings(
                        circuit@,
                        old(cs)@.gates,
                    )
                    &&& bindings_allocated(bindings_view(final(id_to_lc)@), final(cs)@.gates)
                },
                Err(e) => gate_error == Some(e) || (gate_error.is_none() && residual_fails && e
                    == Error::AllocationFailure),
            }
        }),
{
    let ghost start = cs@;
    let ghost view = circuit@;
    proof {
        lemma_seed_allocated(view.instance, cs@.gates);
        assert(id_to_lc@.dom() =~= seed_bindings(view.instance).dom());
    }
    // One gate per constraint.
    let gates = allocate_constraint_gates(
        cs,
        id_to_value,
        declared,
        circuit.constraints,
        prover,
    )?;
    // One more gate per private variable that nothing binds.
    let ghost middle = cs@;
    let bound = allocate_residual_gates(cs, id_to_lc, id_to_value, circuit.private, prover);
    proof {
        lemma_extends_transitive(start, middle, cs@);
        lemma_gate_pass_none(
            view.constraints,
            valued_ids(view, prover),
            declared_ids(view),
            prover,
            (start.capacity - start.gates) as nat,
            start.prover && !prover,
        );
        if bound.is_ok() {
            let goal = translated(start, view);
            if start.prover {
                if prover {
                    assert(cs@.wires =~= goal.wires);
                } else {
                    assert(required_gates(view) == 0);
                    assert(cs@.wires =~= goal.wires);
                }
            }
        }
    }
    bound?;
    Ok(gates)
}

/// Runs the passes of the translation on a system, leaving whatever was
/// allocated in place when a pass fails.
fn translate(cs: &mut ConstraintSystem, circuit: &Circuit, prover: bool) -> (r: Result<(), Error>)
    requires
        old(cs).wf(),
        old(cs)@.phase != Phase::Created,
    ensures
        final(cs).wf(),
        final(cs)@.phase != Phase::Created,
        final(cs)@.extends(old(cs)@),
        match r {
            Ok(()) => translation_error(old(cs)@, circuit@, prover).is_none() && final(cs)@
                == translated(old(cs)@, circuit@),
            Err(e) => translation_error(old(cs)@, circuit@, prover) == Some(e),
        },
{
    let ghost start = cs@;
    let ghost view = circuit@;
    proof {
        assert(cs@.wires.take(start.wires.len() as int) =~= start.wires);
        assert(cs@.constraints.take(start.constraints.len() as int) =~= start.constraints);
    }
    // Seed the bindings and, on the proving path, the witness.
    let mut id_to_lc = bind_instance(circuit.instance)?;
    let mut id_to_value: HashMap<u64, Scalar> = HashMap::new();
    if prover {
        id_to_value.insert(0, Scalar::one());
        assert(values_view(id_to_value@) =~= map![0u64 => 1nat]);
        assign_values(&mut id_to_value, circuit.instance)?;
        assign_witness(&mut id_to_value, circuit.private)?;
        assert(id_to_value@.dom() =~= witness(view).dom());
    } else {
        assert(id_to_value@.dom() =~= Set::<u64>::empty());
    }
    let declared = declared_variables(circuit.instance, circuit.private);
    // Allocate the gates.
    let gates = allocate_gates(cs, &mut id_to_lc, &id_to_value, &declared, circuit, prover)?;
    proof {
        let count = view.constraints.len();
        assert(id_to_lc@.dom() =~= final_bindings(view, start.gates).dom());
        assert forall|k: int| 0 <= k < count implies {
            &&& (#[trigger] gates.left@[k]).allocated(cs@.gates)
            &&& gates.right@[k].allocated(cs@.gates)
            &&& gates.output@[k].allocated(cs@.gates)
        } by {
            assert(gates.left@[k] == Variable::MultiplierLeft((start.gates + k) as usize));
            assert(gates.right@[k] == Variable::MultiplierRight((start.gates + k) as usize));
            assert(gates.output@[k] == Variable::MultiplierOutput((start.gates + k) as usize));
        }
    }
    // Tie the wires of each gate to its constraint.
    let ghost after_gates = cs@;
    let tied_up = tie_gates(cs, &id_to_lc, circuit.constraints, &gates);
    proof {
        lemma_extends_transitive(start, after_gates, cs@);
        if tied_up.is_ok() {
            let goal = translated(start, view);
            assert(cs@.constraints =~= goal.constraints);
            assert(cs@ =~= goal);
        }
    }
    tied_up
}

/// Lays the circuit of `messages` out on the gates of `cs`.
///
/// Binds id 0 to the constant one and each instance variable to its value,
/// allocates one gate per constraint and one per private variable that is
/// still unbound, and ties the wires of each constraint's gate to the
/// constraint's three combinations. With `prover` set, the witness gives
/// the wire values. Both sides go through the same steps and so name every
/// wire alike.
///
/// Fails with `MissingField` before anything else when a section is absent,
/// and otherwise at the first pass that fails, as [`translation_error`]
/// says. On either path a term over a variable that the circuit does not
/// declare fails with `UnknownVariable` and its id, when the wires are tied.
/// On the proving path a declared variable without a witness value cannot
/// give a gate its wire values, which is an `AllocationFailure`. A failed
/// build leaves `cs` as it was.
pub fn gadget_from_messages(cs: &mut ConstraintSystem, messages: &Messages, prover: bool) -> (r:
    Result<(), Error>)
    requires
        old(cs).wf(),
        old(cs)@.phase != Phase::Created,
    ensures
        final(cs).wf(),
        match r {
            Ok(()) => build_error(old(cs)@, messages, prover).is_none() && final(cs)@
                == translated(old(cs)@, messages.circuit_view()),
            Err(e) => build_error(old(cs)@, messages, prover) == Some(e) && final(cs)@ == old(
                cs,
            )@,
        },
{
    let circuit = messages.circuit()?;
    let gates_before = cs.gate_count();
    let constraints_before = cs.constraint_count();
    match translate(cs, &circuit, prover) {
        Ok(()) => Ok(()),
        Err(e) => {
            proof {
                let start = old(cs)@;
                assert forall|k: int| 0 <= k < constraints_before implies terms_allocated(
                    #[trigger] cs@.constraints[k],
                    gates_before as nat,
                ) by {
                    assert(cs@.constraints.take(start.constraints.len() as int)[k]
                        == cs@.constraints[k]);
                    assert(terms_allocated(start.constraints[k], start.gates));
                }
            }
            let ghost failed = cs@;
            cs.rollback(gates_before, constraints_before);
            proof {
                let start = old(cs)@;
                assert(cs@.wires =~= start.wires);
                assert(cs@.constraints =~= start.constraints);
                assert(cs@ =~= start);
            }
            Err(e)
        },
    }
}

/// The system after the example gadget: two squaring gates for the constants
/// 3 and 4, and the constraint that the squares add up to 25.
pub open spec fn example_system(sys: SystemView) -> SystemView {
    let three = seq![(Variable::One, 3nat)];
    let four = seq![(Variable::One, 4nat)];
    let gate = sys.gates as usize;
    let next = (sys.gates + 1) as usize;
    multiplied(multiplied(sys, three, three), four, four).with_constraint(
        seq![(Variable::MultiplierOutput(gate), 1nat)] + seq![
            (Variable::MultiplierOutput(next), 1nat),
        ] + negated(seq![(Variable::One, 25nat)]),
    )
}

/// A gadget for the statement that 3 squared plus 4 squared is 25: two gates
/// square the constants, and one constraint adds the squares up.
///
/// Fails with `AllocationFailure`, leaving the system as it was, when the
/// capacity does not cover two more gates.
pub fn example_gadget(cs: &mut ConstraintSystem) -> (r: Result<(), Error>)
    requires
        old(cs).wf(),
        old(cs)@.phase != Phase::Created,
    ensures
        final(cs).wf(),
        match r {
            Ok(()) => old(cs)@.gates + 2 <= old(cs)@.capacity && final(cs)@ == example_system(
                old(cs)@,
            ),
            Err(e) => {
                &&& e == Error::AllocationFailure
                &&& old(cs)@.gates + 2 > old(cs)@.capacity
                &&& final(cs)@ == old(cs)@
            },
        },
{
    if cs.capacity() - cs.gate_count() < 2 {
        return Err(Error::AllocationFailure);
    }
    let zz = LinearCombination::from_scalar(Scalar::from_u64(25));

    let (_, _, xx) = cs.multiply(
        LinearCombination::from_scalar(Scalar::from_u64(3)),
        LinearCombination::from_scalar(Scalar::from_u64(3)),
    )?;
    let (_, _, yy) = cs.multiply(
        LinearCombination::from_scalar(Scalar::from_u64(4)),
        LinearCombination::from_scalar(Scalar::from_u64(4)),
    )?;

    cs.constrain(
        LinearCombination::from_variable(xx).add(&LinearCombination::from_variable(yy)).subtract(
            &zz,
        ),
    );
    Ok(())
}

} // verus!
