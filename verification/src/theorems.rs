//! What the translation guarantees: the system of gates that it builds says the same
//! as the rank-1 constraints it was built from, and both sides of a proof
//! build the same system.

use vstd::prelude::*;
use crate::constraint_system::{
    committed,
    law_multiply_satisfied,
    multiplied,
    product_wires,
    SystemView,
};
use crate::error::Error;
use crate::field::{lemma_difference_zero, lemma_field_closed, lemma_mul_laws};
use crate::gadget::{
    assign,
    assign_present,
    all_bound,
    build_error,
    constraint_wires,
    constraints_decodable,
    conversion_error,
    declared_ids,
    evaluable_ids,
    ids_of,
    lemma_evaluation_complete,
    lemma_gate_pass_complete,
    terms_decodable,
    tie_pass_error,
    converted,
    example_system,
    final_bindings,
    gate_pass_error,
    left_wires,
    lemma_bind_residual,
    lemma_gate_pass_decodable,
    lemma_gate_pass_none,
    lemma_residual_members,
    lemma_tie_pass_none,
    output_wires,
    required_gates,
    residual,
    residual_pass_fails,
    residual_wires,
    right_wires,
    seed_bindings,
    terms_bound,
    tie,
    tied,
    translated,
    translation_error,
    valued_ids,
    values_decodable,
    variable_value,
    witness,
    witness_sum,
};
use crate::linear::{
    evaluate,
    law_add_evaluates,
    law_scale_evaluates,
    law_subtract_evaluates,
    lemma_evaluate_prefix,
    lemma_evaluate_single,
    negated,
    scaled,
    terms_allocated,
    Terms,
    Variable,
    Wires,
};
use crate::messages::{CircuitVariable, CircuitView, Constraint, Messages, Term};
use crate::scalar::{decode_spec, field_mul, group_order, lemma_order_bounds};

verus! {

/// Whether an assignment of the variables satisfies every rank-1 constraint:
/// the value of `a` times the value of `b` is the value of `c`.
pub open spec fn rank1_holds(values: Map<u64, nat>, constraints: Seq<Constraint>) -> bool {
    forall|k: int|
        0 <= k < constraints.len() ==> field_mul(
            witness_sum(values, (#[trigger] constraints[k]).a@),
            witness_sum(values, constraints[k].b@),
        ) == witness_sum(values, constraints[k].c@)
}

/// Whether the witness of a circuit satisfies its constraints.
pub open spec fn witness_satisfies(circuit: CircuitView) -> bool {
    rank1_holds(witness(circuit), circuit.constraints)
}

/// The assignment of the variables that an assignment of the wires stands
/// for: each bound id gets the value of its binding.
pub open spec fn extracted(bindings: Map<u64, Terms>, wires: Seq<Wires>) -> Map<u64, nat> {
    Map::new(|id: u64| bindings.contains_key(id), |id: u64| evaluate(bindings[id], wires))
}

/// Whether every wire value is a reduced field element.
pub open spec fn wires_reduced(wires: Seq<Wires>) -> bool {
    forall|i: int|
        0 <= i < wires.len() ==> {
            &&& (#[trigger] wires[i]).left < group_order()
            &&& wires[i].right < group_order()
            &&& wires[i].output < group_order()
        }
}

/// Whether the private variables have ids of their own: none is 0, and none
/// is the id of an instance variable.
pub open spec fn private_ids_apart(circuit: CircuitView) -> bool {
    forall|i: int|
        0 <= i < circuit.private.len() ==> !seed_bindings(circuit.instance).contains_key(
            (#[trigger] circuit.private[i]).id,
        )
}

/// Whether every binding evaluates, on the wires, to the value that the
/// assignment gives its id.
pub open spec fn bindings_consistent(
    bindings: Map<u64, Terms>,
    values: Map<u64, nat>,
    wires: Seq<Wires>,
) -> bool {
    forall|id: u64| #[trigger]
        bindings.contains_key(id) ==> evaluate(bindings[id], wires) == values[id]
}

proof fn lemma_value_reduced(var: CircuitVariable)
    ensures
        variable_value(var) < group_order(),
{
    lemma_order_bounds();
}

proof fn lemma_assign_reduced(values: Map<u64, nat>, vars: Seq<CircuitVariable>)
    requires
        forall|id: u64| values.contains_key(id) ==> #[trigger] values[id] < group_order(),
    ensures
        forall|id: u64|
            assign(values, vars).contains_key(id) ==> #[trigger] assign(values, vars)[id]
                < group_order(),
    decreases vars.len(),
{
    if vars.len() > 0 {
        let earlier = assign(values, vars.drop_last());
        lemma_assign_reduced(values, vars.drop_last());
        lemma_value_reduced(vars.last());
        assert forall|id: u64| assign(values, vars).contains_key(id) implies #[trigger] assign(
            values,
            vars,
        )[id] < group_order() by {
            if id != vars.last().id {
                assert(earlier.contains_key(id));
                assert(earlier[id] < group_order());
            }
        }
    }
}

proof fn lemma_assign_present_reduced(values: Map<u64, nat>, vars: Seq<CircuitVariable>)
    requires
        forall|id: u64| values.contains_key(id) ==> #[trigger] values[id] < group_order(),
    ensures
        forall|id: u64|
            assign_present(values, vars).contains_key(id) ==> #[trigger] assign_present(
                values,
                vars,
            )[id] < group_order(),
    decreases vars.len(),
{
    if vars.len() > 0 {
        let earlier = assign_present(values, vars.drop_last());
        lemma_assign_present_reduced(values, vars.drop_last());
        lemma_value_reduced(vars.last());
        assert forall|id: u64|
            assign_present(values, vars).contains_key(id) implies #[trigger] assign_present(
            values,
            vars,
        )[id] < group_order() by {
            if vars.last().value@.len() == 0 || id != vars.last().id {
                assert(earlier.contains_key(id));
                assert(earlier[id] < group_order());
            }
        }
    }
}

proof fn lemma_witness_reduced(circuit: CircuitView)
    ensures
        forall|id: u64|
            witness(circuit).contains_key(id) ==> #[trigger] witness(circuit)[id] < group_order(),
{
    lemma_order_bounds();
    lemma_assign_reduced(map![0u64 => 1nat], circuit.instance);
    lemma_assign_present_reduced(assign(map![0u64 => 1nat], circuit.instance), circuit.private);
}

proof fn lemma_witness_sum_reduced(values: Map<u64, nat>, terms: Seq<Term>)
    ensures
        witness_sum(values, terms) < group_order(),
    decreases terms.len(),
{
    lemma_order_bounds();
    if terms.len() > 0 {
        lemma_field_closed(
            witness_sum(values, terms.drop_last()),
            field_mul(
                crate::gadget::coefficient(terms.last()),
                values[terms.last().id],
            ),
        );
    }
}

proof fn lemma_assign_untouched(values: Map<u64, nat>, vars: Seq<CircuitVariable>, id: u64)
    requires
        forall|i: int| 0 <= i < vars.len() ==> (#[trigger] vars[i]).id != id,
    ensures
        assign_present(values, vars).contains_key(id) == values.contains_key(id),
        assign_present(values, vars)[id] == values[id],
    decreases vars.len(),
{
    if vars.len() > 0 {
        assert forall|i: int| 0 <= i < vars.drop_last().len() implies (#[trigger] vars.drop_last()[i]).id
            != id by {
            assert(vars.drop_last()[i] == vars[i]);
        }
        lemma_assign_untouched(values, vars.drop_last(), id);
        assert(vars[vars.len() - 1].id != id);
    }
}

/// The seed bindings bind 0 and the ids of the instance variables.
proof fn lemma_seed_dom(instance: Seq<CircuitVariable>)
    ensures
        forall|id: u64| #[trigger]
            seed_bindings(instance).contains_key(id) <==> id == 0 || ids_of(instance).contains(id),
    decreases instance.len(),
{
    let seed = seed_bindings(instance);
    if instance.len() > 0 {
        let front = instance.drop_last();
        let last = instance[instance.len() - 1];
        lemma_seed_dom(front);
        assert(seed == seed_bindings(front).insert(
            last.id,
            seq![(Variable::One, variable_value(last))],
        ));
        assert forall|id: u64| #[trigger] seed.contains_key(id) <==> id == 0 || ids_of(
            instance,
        ).contains(id) by {
            assert(seed_bindings(front).contains_key(id) <==> id == 0 || ids_of(front).contains(id));
            if ids_of(front).contains(id) {
                let k = choose|k: int| 0 <= k < front.len() && (#[trigger] front[k]).id == id;
                assert(instance[k].id == id);
            }
            if ids_of(instance).contains(id) && id != last.id {
                let k = choose|k: int| 0 <= k < instance.len() && (#[trigger] instance[k]).id == id;
                assert(front[k].id == id);
            }
        }
    } else {
        assert(seed == map![0u64 => seq![(Variable::One, 1nat)]]);
        assert forall|id: u64| #[trigger] seed.contains_key(id) <==> id == 0 || ids_of(
            instance,
        ).contains(id) by {}
    }
}

/// Once all gates are allocated, the bound ids are the declared ids.
pub proof fn lemma_declared_bound(circuit: CircuitView, first_gate: nat)
    ensures
        final_bindings(circuit, first_gate).dom() == declared_ids(circuit),
{
    let seed = seed_bindings(circuit.instance);
    let ids = residual(circuit);
    let bound = final_bindings(circuit, first_gate);
    lemma_seed_dom(circuit.instance);
    lemma_residual_members(seed.dom(), circuit.private);
    lemma_bind_residual(seed, ids, first_gate + circuit.constraints.len());
    assert forall|id: u64| bound.dom().contains(id) <==> declared_ids(circuit).contains(id) by {
        assert(bound.contains_key(id) <==> seed.contains_key(id) || ids.contains(id));
        if ids.contains(id) {
            let j = choose|j: int| 0 <= j < ids.len() && ids[j] == id;
            let i = choose|i: int|
                0 <= i < circuit.private.len() && (#[trigger] circuit.private[i]).id == ids[j];
            assert(ids_of(circuit.private).contains(id));
        }
        if ids_of(circuit.private).contains(id) {
            let i = choose|i: int|
                0 <= i < circuit.private.len() && (#[trigger] circuit.private[i]).id == id;
            assert(seed.dom().contains(circuit.private[i].id) || ids.contains(
                circuit.private[i].id,
            ));
        }
    }
    assert(bound.dom() =~= declared_ids(circuit));
}

/// What a translation without failure found: room for all the gates, every
/// variable of every term bound, and on the proving path a witness value for
/// every residual variable and for every variable that a term names.
proof fn lemma_translation_facts(sys: SystemView, circuit: CircuitView, prover: bool)
    requires
        sys.wf(),
        translation_error(sys, circuit, prover).is_none(),
    ensures
        sys.gates + required_gates(circuit) <= sys.capacity,
        required_gates(circuit) > 0 ==> !(sys.prover && !prover),
        all_bound(final_bindings(circuit, sys.gates).dom(), circuit.constraints),
        prover ==> forall|j: int|
            0 <= j < residual(circuit).len() ==> witness(circuit).contains_key(
                #[trigger] residual(circuit)[j],
            ),
        prover ==> all_bound(witness(circuit).dom(), circuit.constraints),
        prover ==> constraints_decodable(circuit.constraints),
{
    let valued = valued_ids(circuit, prover);
    let declared = declared_ids(circuit);
    let room = (sys.capacity - sys.gates) as nat;
    let mismatch = sys.prover && !prover;
    let bound = final_bindings(circuit, sys.gates).dom();
    lemma_gate_pass_none(circuit.constraints, valued, declared, prover, room, mismatch);
    lemma_tie_pass_none(bound, circuit.constraints);
    lemma_declared_bound(circuit, sys.gates);
    assert(!residual_pass_fails(
        residual(circuit),
        valued,
        prover,
        (room - circuit.constraints.len()) as nat,
        mismatch,
    ));
    if prover {
        assert forall|j: int| 0 <= j < residual(circuit).len() implies witness(
            circuit,
        ).contains_key(#[trigger] residual(circuit)[j]) by {
            assert(valued.contains(residual(circuit)[j]));
        }
        let evaluable = evaluable_ids(valued, declared);
        assert forall|k: int| 0 <= k < circuit.constraints.len() implies {
            &&& terms_bound(valued, (#[trigger] circuit.constraints[k]).a@)
            &&& terms_bound(valued, circuit.constraints[k].b@)
            &&& terms_bound(valued, circuit.constraints[k].c@)
        } by {
            let c = circuit.constraints[k];
            assert(terms_bound(bound, c.a@) && terms_bound(evaluable, c.a@));
            assert(terms_bound(bound, c.b@) && terms_bound(evaluable, c.b@));
            assert(terms_bound(bound, c.c@) && terms_bound(evaluable, c.c@));
            assert forall|i: int| 0 <= i < c.a@.len() implies valued.contains(
                (#[trigger] c.a@[i]).id,
            ) by {
                assert(bound.contains(c.a@[i].id) && evaluable.contains(c.a@[i].id));
            }
            assert forall|i: int| 0 <= i < c.b@.len() implies valued.contains(
                (#[trigger] c.b@[i]).id,
            ) by {
                assert(bound.contains(c.b@[i].id) && evaluable.contains(c.b@[i].id));
            }
            assert forall|i: int| 0 <= i < c.c@.len() implies valued.contains(
                (#[trigger] c.c@[i]).id,
            ) by {
                assert(bound.contains(c.c@[i].id) && evaluable.contains(c.c@[i].id));
            }
        }
    }
}

/// In a translated proving system every constraint has a gate that carries the
/// values of its three lists of terms on the witness.
proof fn lemma_gate_values(sys: SystemView, circuit: CircuitView)
    requires
        sys.wf(),
        translation_error(sys, circuit, true).is_none(),
    ensures
        forall|k: int|
            0 <= k < circuit.constraints.len() ==> {
                let gate = #[trigger] constraint_wires(witness(circuit), circuit.constraints)[k];
                &&& gate.left == witness_sum(witness(circuit), circuit.constraints[k].a@)
                &&& gate.right == witness_sum(witness(circuit), circuit.constraints[k].b@)
                &&& gate.output == witness_sum(witness(circuit), circuit.constraints[k].c@)
            },
{
    let values = witness(circuit);
    lemma_translation_facts(sys, circuit, true);
    assert forall|k: int| 0 <= k < circuit.constraints.len() implies {
        let gate = #[trigger] constraint_wires(values, circuit.constraints)[k];
        &&& gate.left == witness_sum(values, circuit.constraints[k].a@)
        &&& gate.right == witness_sum(values, circuit.constraints[k].b@)
        &&& gate.output == witness_sum(values, circuit.constraints[k].c@)
    } by {
        let c = circuit.constraints[k];
        assert(terms_bound(values.dom(), c.a@) && terms_decodable(c.a@));
        assert(terms_bound(values.dom(), c.b@) && terms_decodable(c.b@));
        assert(terms_bound(values.dom(), c.c@) && terms_decodable(c.c@));
        lemma_evaluation_complete(values.dom(), c.a@);
        lemma_evaluation_complete(values.dom(), c.b@);
        lemma_evaluation_complete(values.dom(), c.c@);
    }
}

proof fn lemma_seed_matches(instance: Seq<CircuitVariable>)
    ensures
        forall|id: u64|
            #[trigger] seed_bindings(instance).contains_key(id) <==> assign(
                map![0u64 => 1nat],
                instance,
            ).contains_key(id),
        forall|id: u64| #[trigger]
            seed_bindings(instance).contains_key(id) ==> seed_bindings(instance)[id] == seq![
                (Variable::One, assign(map![0u64 => 1nat], instance)[id]),
            ],
    decreases instance.len(),
{
    let seed = seed_bindings(instance);
    let values = assign(map![0u64 => 1nat], instance);
    if instance.len() > 0 {
        let last = instance.last();
        let seed_before = seed_bindings(instance.drop_last());
        let values_before = assign(map![0u64 => 1nat], instance.drop_last());
        lemma_seed_matches(instance.drop_last());
        assert(seed == seed_before.insert(last.id, seq![(Variable::One, variable_value(last))]));
        assert(values == values_before.insert(last.id, variable_value(last)));
        assert forall|id: u64| #[trigger] seed.contains_key(id) <==> values.contains_key(id) by {
            assert(seed_before.contains_key(id) <==> values_before.contains_key(id));
        }
        assert forall|id: u64| #[trigger] seed.contains_key(id) implies seed[id] == seq![
            (Variable::One, values[id]),
        ] by {
            if id != last.id {
                assert(seed_before.contains_key(id));
                assert(seed_before[id] == seq![(Variable::One, values_before[id])]);
            }
        }
    } else {
        assert(seed == map![0u64 => seq![(Variable::One, 1nat)]]);
        assert(values == map![0u64 => 1nat]);
        assert forall|id: u64| #[trigger] seed.contains_key(id) <==> values.contains_key(id) by {}
        assert forall|id: u64| #[trigger] seed.contains_key(id) implies seed[id] == seq![
            (Variable::One, values[id]),
        ] by {}
    }
}

/// Under consistent bindings a converted list of terms evaluates, on the
/// wires, to its value on the witness.
proof fn lemma_converted_value(
    bindings: Map<u64, Terms>,
    values: Map<u64, nat>,
    wires: Seq<Wires>,
    terms: Seq<Term>,
)
    requires
        bindings_consistent(bindings, values, wires),
        terms_bound(bindings.dom(), terms),
    ensures
        evaluate(converted(bindings, terms), wires) == witness_sum(values, terms),
    decreases terms.len(),
{
    if terms.len() > 0 {
        let front = terms.drop_last();
        let last = terms[terms.len() - 1];
        assert forall|i: int| 0 <= i < front.len() implies bindings.dom().contains(
            (#[trigger] front[i]).id,
        ) by {
            assert(front[i] == terms[i]);
        }
        lemma_converted_value(bindings, values, wires, front);
        assert(bindings.contains_key(last.id));
        let coeff = crate::gadget::coefficient(last);
        law_add_evaluates(converted(bindings, front), scaled(bindings[last.id], coeff), wires);
        law_scale_evaluates(bindings[last.id], coeff, wires);
        lemma_mul_laws(coeff, values[last.id], 0);
    }
}

/// The linear constraints of the equality pass come three per constraint.
proof fn lemma_tied_index(
    bindings: Map<u64, Terms>,
    constraints: Seq<Constraint>,
    left: Seq<Variable>,
    right: Seq<Variable>,
    output: Seq<Variable>,
)
    ensures
        tied(bindings, constraints, left, right, output).len() == 3 * constraints.len(),
        forall|k: int|
            0 <= k < constraints.len() ==> {
                let all = tied(bindings, constraints, left, right, output);
                &&& all[3 * k] == tie(bindings, (#[trigger] constraints[k]).a@, left[k])
                &&& all[3 * k + 1] == tie(bindings, constraints[k].b@, right[k])
                &&& all[3 * k + 2] == tie(bindings, constraints[k].c@, output[k])
            },
    decreases constraints.len(),
{
    if constraints.len() > 0 {
        let front = constraints.drop_last();
        lemma_tied_index(bindings, front, left, right, output);
        let all = tied(bindings, constraints, left, right, output);
        assert forall|k: int| 0 <= k < constraints.len() implies {
            &&& all[3 * k] == tie(bindings, (#[trigger] constraints[k]).a@, left[k])
            &&& all[3 * k + 1] == tie(bindings, constraints[k].b@, right[k])
            &&& all[3 * k + 2] == tie(bindings, constraints[k].c@, output[k])
        } by {
            if k < constraints.len() - 1 {
                assert(front[k] == constraints[k]);
            }
        }
    }
}

/// The three ties of the constraint with index `k`, by their places.
proof fn lemma_tied_at(
    bindings: Map<u64, Terms>,
    constraints: Seq<Constraint>,
    left: Seq<Variable>,
    right: Seq<Variable>,
    output: Seq<Variable>,
    k: int,
)
    requires
        0 <= k < constraints.len(),
    ensures
        ({
            let all = tied(bindings, constraints, left, right, output);
            &&& all.len() == 3 * constraints.len()
            &&& all[3 * k] == tie(bindings, constraints[k].a@, left[k])
            &&& all[3 * k + 1] == tie(bindings, constraints[k].b@, right[k])
            &&& all[3 * k + 2] == tie(bindings, constraints[k].c@, output[k])
        }),
{
    lemma_tied_index(bindings, constraints, left, right, output);
}

/// A wire tied to a list of terms makes a constraint that evaluates to zero
/// exactly when the wire carries the value of the terms.
proof fn lemma_tie_value(
    bindings: Map<u64, Terms>,
    values: Map<u64, nat>,
    wires: Seq<Wires>,
    terms: Seq<Term>,
    wire: Variable,
)
    requires
        bindings_consistent(bindings, values, wires),
        terms_bound(bindings.dom(), terms),
        wire.value(wires) < group_order(),
    ensures
        evaluate(tie(bindings, terms, wire), wires) == 0 <==> witness_sum(values, terms)
            == wire.value(wires),
{
    lemma_converted_value(bindings, values, wires, terms);
    law_subtract_evaluates(converted(bindings, terms), seq![(wire, 1nat)], wires);
    lemma_evaluate_single(wire, 1, wires);
    lemma_mul_laws(wire.value(wires), 0, 0);
    lemma_witness_sum_reduced(values, terms);
    lemma_difference_zero(witness_sum(values, terms), wire.value(wires));
}

/// How the wires of a translated proving system are laid out: the earlier
/// wires, then one gate per constraint, then one per residual variable.
proof fn lemma_wires_layout(sys: SystemView, circuit: CircuitView)
    requires
        sys.wf(),
        sys.prover,
    ensures
        ({
            let wires = translated(sys, circuit).wires;
            let gate_wires = constraint_wires(witness(circuit), circuit.constraints);
            let extra_wires = residual_wires(witness(circuit), residual(circuit));
            let first = sys.gates as int;
            let count = circuit.constraints.len() as int;
            &&& wires == sys.wires + (gate_wires + extra_wires)
            &&& wires.len() == first + count + extra_wires.len()
            &&& forall|i: int| 0 <= i < first ==> #[trigger] wires[i] == sys.wires[i]
            &&& forall|k: int| 0 <= k < count ==> #[trigger] wires[first + k] == gate_wires[k]
            &&& forall|j: int|
                0 <= j < extra_wires.len() ==> #[trigger] wires[first + count + j]
                    == extra_wires[j]
        }),
{
    let wires = translated(sys, circuit).wires;
    let gate_wires = constraint_wires(witness(circuit), circuit.constraints);
    let extra_wires = residual_wires(witness(circuit), residual(circuit));
    assert(wires =~= sys.wires + (gate_wires + extra_wires));
}

/// In a translated proving system every binding evaluates to the witness
/// value of its id, on the wire values of the system and on any others with
/// the same values on the left wires: a binding names no other wire.
proof fn lemma_bindings_consistent_on(sys: SystemView, circuit: CircuitView, wires: Seq<Wires>)
    requires
        sys.wf(),
        sys.prover,
        translation_error(sys, circuit, true).is_none(),
        private_ids_apart(circuit),
        wires.len() == translated(sys, circuit).wires.len(),
        forall|i: int|
            0 <= i < wires.len() ==> (#[trigger] wires[i]).left == translated(
                sys,
                circuit,
            ).wires[i].left,
    ensures
        bindings_consistent(final_bindings(circuit, sys.gates), witness(circuit), wires),
{
    let first = sys.gates;
    let count = circuit.constraints.len();
    let ids = residual(circuit);
    let values = witness(circuit);
    let bindings = final_bindings(circuit, first);
    let seed = seed_bindings(circuit.instance);
    let extra_wires = residual_wires(values, ids);
    let recorded = translated(sys, circuit).wires;
    lemma_order_bounds();
    lemma_witness_reduced(circuit);
    lemma_translation_facts(sys, circuit, true);
    lemma_wires_layout(sys, circuit);
    lemma_residual_members(seed.dom(), circuit.private);
    lemma_bind_residual(seed, ids, first + count);
    lemma_seed_matches(circuit.instance);
    lemma_assign_reduced(map![0u64 => 1nat], circuit.instance);
    assert forall|id: u64| #[trigger] bindings.contains_key(id) implies evaluate(
        bindings[id],
        wires,
    ) == values[id] by {
        if seed.contains_key(id) {
            assert forall|i: int| 0 <= i < circuit.private.len() implies (
            #[trigger] circuit.private[i]).id != id by {}
            let public = assign(map![0u64 => 1nat], circuit.instance);
            lemma_assign_untouched(public, circuit.private, id);
            assert(public.contains_key(id));
            assert(values[id] == public[id]);
            assert(public[id] < group_order());
            assert(bindings[id] == seed[id]);
            assert(seed[id] == seq![(Variable::One, values[id])]);
            lemma_evaluate_single(Variable::One, values[id], wires);
            lemma_mul_laws(values[id], 0, 0);
        } else {
            assert(ids.contains(id));
            let j = choose|j: int| 0 <= j < ids.len() && ids[j] == id;
            let wire = Variable::MultiplierLeft((first + count + j) as usize);
            assert(bindings[ids[j]] == seq![(wire, 1nat)]);
            assert(values.contains_key(ids[j]));
            assert(values[id] < group_order());
            lemma_evaluate_single(wire, 1, wires);
            assert(recorded[first + count + j] == extra_wires[j]);
            assert(wires[first + count + j].left == recorded[first + count + j].left);
            assert(wire.value(wires) == values[id]);
            lemma_mul_laws(values[id], 0, 0);
        }
    }
}

/// In a translated proving system every binding evaluates to the witness
/// value of its id.
proof fn lemma_final_bindings_consistent(sys: SystemView, circuit: CircuitView)
    requires
        sys.wf(),
        sys.prover,
        translation_error(sys, circuit, true).is_none(),
        private_ids_apart(circuit),
    ensures
        bindings_consistent(
            final_bindings(circuit, sys.gates),
            witness(circuit),
            translated(sys, circuit).wires,
        ),
{
    lemma_bindings_consistent_on(sys, circuit, translated(sys, circuit).wires);
}

/// In a translated proving system the three ties of one constraint evaluate
/// to zero: its gate carries the witness values of its three lists of terms.
proof fn lemma_gate_ties(sys: SystemView, circuit: CircuitView, k: int)
    requires
        sys.wf(),
        sys.prover,
        translation_error(sys, circuit, true).is_none(),
        private_ids_apart(circuit),
        0 <= k < circuit.constraints.len(),
    ensures
        ({
            let bindings = final_bindings(circuit, sys.gates);
            let wires = translated(sys, circuit).wires;
            let gate = (sys.gates + k) as usize;
            let constraint = circuit.constraints[k];
            &&& evaluate(tie(bindings, constraint.a@, Variable::MultiplierLeft(gate)), wires) == 0
            &&& evaluate(tie(bindings, constraint.b@, Variable::MultiplierRight(gate)), wires) == 0
            &&& evaluate(tie(bindings, constraint.c@, Variable::MultiplierOutput(gate)), wires)
                == 0
        }),
{
    let first = sys.gates;
    let values = witness(circuit);
    let bindings = final_bindings(circuit, first);
    let gate_wires = constraint_wires(values, circuit.constraints);
    let wires = translated(sys, circuit).wires;
    let constraint = circuit.constraints[k];
    let gate = (first + k) as usize;
    lemma_order_bounds();
    lemma_translation_facts(sys, circuit, true);
    lemma_gate_values(sys, circuit);
    lemma_wires_layout(sys, circuit);
    lemma_final_bindings_consistent(sys, circuit);
    assert(wires[first + k] == gate_wires[k]);
    assert(terms_bound(bindings.dom(), constraint.a@));
    lemma_witness_sum_reduced(values, constraint.a@);
    lemma_witness_sum_reduced(values, constraint.b@);
    lemma_witness_sum_reduced(values, constraint.c@);
    assert(Variable::MultiplierLeft(gate).value(wires) == witness_sum(values, constraint.a@));
    assert(Variable::MultiplierRight(gate).value(wires) == witness_sum(values, constraint.b@));
    assert(Variable::MultiplierOutput(gate).value(wires) == witness_sum(values, constraint.c@));
    lemma_tie_value(bindings, values, wires, constraint.a@, Variable::MultiplierLeft(gate));
    lemma_tie_value(bindings, values, wires, constraint.b@, Variable::MultiplierRight(gate));
    lemma_tie_value(bindings, values, wires, constraint.c@, Variable::MultiplierOutput(gate));
}

/// Where the three ties of every constraint evaluate to zero, so does every
/// constraint of the equality pass.
proof fn lemma_all_ties(
    bindings: Map<u64, Terms>,
    constraints: Seq<Constraint>,
    left: Seq<Variable>,
    right: Seq<Variable>,
    output: Seq<Variable>,
    wires: Seq<Wires>,
)
    requires
        forall|k: int|
            0 <= k < constraints.len() ==> {
                &&& evaluate(tie(bindings, (#[trigger] constraints[k]).a@, left[k]), wires) == 0
                &&& evaluate(tie(bindings, constraints[k].b@, right[k]), wires) == 0
                &&& evaluate(tie(bindings, constraints[k].c@, output[k]), wires) == 0
            },
    ensures
        forall|i: int|
            0 <= i < tied(bindings, constraints, left, right, output).len() ==> evaluate(
                #[trigger] tied(bindings, constraints, left, right, output)[i],
                wires,
            ) == 0,
    decreases constraints.len(),
{
    if constraints.len() > 0 {
        let front = constraints.drop_last();
        let last = constraints.len() - 1;
        assert forall|k: int| 0 <= k < front.len() implies {
            &&& evaluate(tie(bindings, (#[trigger] front[k]).a@, left[k]), wires) == 0
            &&& evaluate(tie(bindings, front[k].b@, right[k]), wires) == 0
            &&& evaluate(tie(bindings, front[k].c@, output[k]), wires) == 0
        } by {
            assert(front[k] == constraints[k]);
        }
        lemma_all_ties(bindings, front, left, right, output, wires);
        let earlier = tied(bindings, front, left, right, output);
        let all = tied(bindings, constraints, left, right, output);
        assert(evaluate(tie(bindings, constraints[last].a@, left[last]), wires) == 0);
        assert forall|i: int| 0 <= i < all.len() implies evaluate(#[trigger] all[i], wires)
            == 0 by {
            if i < earlier.len() {
                assert(all[i] == earlier[i]);
            }
        }
    }
}

/// In a translated proving system the constraints of the equality pass all
/// evaluate to zero.
proof fn lemma_ties_vanish(sys: SystemView, circuit: CircuitView)
    requires
        sys.wf(),
        sys.prover,
        translation_error(sys, circuit, true).is_none(),
        private_ids_apart(circuit),
    ensures
        ({
            let first = sys.gates;
            let count = circuit.constraints.len();
            let ties = tied(
                final_bindings(circuit, first),
                circuit.constraints,
                left_wires(first, count),
                right_wires(first, count),
                output_wires(first, count),
            );
            forall|i: int|
                0 <= i < ties.len() ==> evaluate(
                    #[trigger] ties[i],
                    translated(sys, circuit).wires,
                ) == 0
        }),
{
    let first = sys.gates;
    let count = circuit.constraints.len();
    let bindings = final_bindings(circuit, first);
    let wires = translated(sys, circuit).wires;
    assert forall|k: int| 0 <= k < count implies {
        &&& evaluate(
            tie(bindings, (#[trigger] circuit.constraints[k]).a@, left_wires(first, count)[k]),
            wires,
        ) == 0
        &&& evaluate(
            tie(bindings, circuit.constraints[k].b@, right_wires(first, count)[k]),
            wires,
        ) == 0
        &&& evaluate(
            tie(bindings, circuit.constraints[k].c@, output_wires(first, count)[k]),
            wires,
        ) == 0
    } by {
        lemma_gate_ties(sys, circuit, k);
    }
    lemma_all_ties(
        bindings,
        circuit.constraints,
        left_wires(first, count),
        right_wires(first, count),
        output_wires(first, count),
        wires,
    );
}

/// The translation is faithful. For a proving system and a circuit whose
/// private variables have ids of their own, the system that the translation
/// builds is satisfied by its wire values exactly when the system it started
/// from was satisfied and the witness satisfies every rank-1 constraint.
///
/// So a witness that satisfies the circuit always gives the backend a
/// satisfied system to prove, and a witness that violates a constraint never
/// does.
pub proof fn law_translation_faithful(sys: SystemView, circuit: CircuitView)
    requires
        sys.wf(),
        sys.prover,
        translation_error(sys, circuit, true).is_none(),
        private_ids_apart(circuit),
    ensures
        translated(sys, circuit).satisfied() <==> sys.satisfied() && witness_satisfies(circuit),
{
    let built = translated(sys, circuit);
    let first = sys.gates;
    let count = circuit.constraints.len();
    let values = witness(circuit);
    let gate_wires = constraint_wires(values, circuit.constraints);
    let extra_wires = residual_wires(values, residual(circuit));
    let wires = built.wires;
    let ties = tied(
        final_bindings(circuit, first),
        circuit.constraints,
        left_wires(first, count),
        right_wires(first, count),
        output_wires(first, count),
    );
    lemma_wires_layout(sys, circuit);
    lemma_gate_values(sys, circuit);
    lemma_ties_vanish(sys, circuit);
    assert(built.constraints == sys.constraints + ties);

    // Earlier constraints do not see the new wires.
    assert forall|k: int| 0 <= k < sys.constraints.len() implies evaluate(
        #[trigger] sys.constraints[k],
        wires,
    ) == evaluate(sys.constraints[k], sys.wires) by {
        lemma_evaluate_prefix(sys.constraints[k], sys.wires, gate_wires + extra_wires);
    }

    if built.satisfied() {
        assert(sys.satisfied()) by {
            assert forall|i: int| 0 <= i < sys.wires.len() implies field_mul(
                (#[trigger] sys.wires[i]).left,
                sys.wires[i].right,
            ) == sys.wires[i].output by {
                assert(wires[i] == sys.wires[i]);
            }
            assert forall|k: int| 0 <= k < sys.constraints.len() implies evaluate(
                #[trigger] sys.constraints[k],
                sys.wires,
            ) == 0 by {
                assert(built.constraints[k] == sys.constraints[k]);
            }
        }
        assert(witness_satisfies(circuit)) by {
            assert forall|k: int| 0 <= k < count implies field_mul(
                witness_sum(values, (#[trigger] circuit.constraints[k]).a@),
                witness_sum(values, circuit.constraints[k].b@),
            ) == witness_sum(values, circuit.constraints[k].c@) by {
                assert(wires[first + k] == gate_wires[k]);
            }
        }
    }
    if sys.satisfied() && witness_satisfies(circuit) {
        assert(built.satisfied()) by {
            assert forall|i: int| 0 <= i < wires.len() implies field_mul(
                (#[trigger] wires[i]).left,
                wires[i].right,
            ) == wires[i].output by {
                if i < first {
                    assert(wires[i] == sys.wires[i]);
                } else if i < first + count {
                    let k = i - first;
                    assert(wires[first + k] == gate_wires[k]);
                    assert(gate_wires[k].left == witness_sum(values, circuit.constraints[k].a@));
                } else {
                    let j = i - first - count;
                    assert(wires[first + count + j] == extra_wires[j]);
                    lemma_mul_laws(extra_wires[j].left, 0, 0);
                }
            }
            assert forall|k: int| 0 <= k < built.constraints.len() implies evaluate(
                #[trigger] built.constraints[k],
                wires,
            ) == 0 by {
                if k < sys.constraints.len() {
                    assert(built.constraints[k] == sys.constraints[k]);
                } else {
                    assert(built.constraints[k] == ties[k - sys.constraints.len()]);
                }
            }
        }
    }
}

/// Where the wires satisfy a translated system, the values they stand for
/// satisfy the constraint with index `k`.
proof fn lemma_gate_sound(sys: SystemView, circuit: CircuitView, wires: Seq<Wires>, k: int)
    requires
        sys.wf(),
        translation_error(sys, circuit, false).is_none(),
        wires.len() == translated(sys, circuit).gates,
        wires_reduced(wires),
        translated(sys, circuit).satisfied_by(wires),
        0 <= k < circuit.constraints.len(),
    ensures
        ({
            let values = extracted(final_bindings(circuit, sys.gates), wires);
            field_mul(
                witness_sum(values, circuit.constraints[k].a@),
                witness_sum(values, circuit.constraints[k].b@),
            ) == witness_sum(values, circuit.constraints[k].c@)
        }),
{
    let built = translated(sys, circuit);
    let first = sys.gates;
    let count = circuit.constraints.len();
    let bindings = final_bindings(circuit, first);
    let values = extracted(bindings, wires);
    let left_side = left_wires(first, count);
    let right_side = right_wires(first, count);
    let output_side = output_wires(first, count);
    let ties = tied(bindings, circuit.constraints, left_side, right_side, output_side);
    let constraint = circuit.constraints[k];
    let offset = sys.constraints.len() as int;
    let gate = wires[first + k];
    let left = Variable::MultiplierLeft((first + k) as usize);
    let right = Variable::MultiplierRight((first + k) as usize);
    let output = Variable::MultiplierOutput((first + k) as usize);
    lemma_order_bounds();
    lemma_translation_facts(sys, circuit, false);
    lemma_tied_at(bindings, circuit.constraints, left_side, right_side, output_side, k);
    assert(left_side[k] == left && right_side[k] == right && output_side[k] == output);
    assert(evaluate(tie(bindings, constraint.a@, left), wires) == 0) by {
        assert(built.constraints[offset + 3 * k] == ties[3 * k]);
    }
    assert(evaluate(tie(bindings, constraint.b@, right), wires) == 0) by {
        assert(built.constraints[offset + 3 * k + 1] == ties[3 * k + 1]);
    }
    assert(evaluate(tie(bindings, constraint.c@, output), wires) == 0) by {
        assert(built.constraints[offset + 3 * k + 2] == ties[3 * k + 2]);
    }
    assert(field_mul(gate.left, gate.right) == gate.output);
    assert(bindings_consistent(bindings, values, wires));
    assert(terms_bound(bindings.dom(), constraint.a@));
    assert(terms_bound(bindings.dom(), constraint.b@));
    assert(terms_bound(bindings.dom(), constraint.c@));
    assert(left.value(wires) == gate.left && right.value(wires) == gate.right && output.value(
        wires,
    ) == gate.output);
    lemma_tie_value(bindings, values, wires, constraint.a@, left);
    lemma_tie_value(bindings, values, wires, constraint.b@, right);
    lemma_tie_value(bindings, values, wires, constraint.c@, output);
}

/// The translation is sound. Whatever values the wires of a translated
/// system are given, if they satisfy the system that was built, then the
/// values they stand for satisfy every rank-1 constraint, and they give each
/// instance variable its public value. So a statement that the backend can
/// be shown to hold is never one whose rank-1 constraints have no solution.
pub proof fn law_translation_sound(sys: SystemView, circuit: CircuitView, wires: Seq<Wires>)
    requires
        sys.wf(),
        translation_error(sys, circuit, false).is_none(),
        wires.len() == translated(sys, circuit).gates,
        wires_reduced(wires),
        translated(sys, circuit).satisfied_by(wires),
    ensures
        rank1_holds(extracted(final_bindings(circuit, sys.gates), wires), circuit.constraints),
        forall|id: u64| #[trigger]
            seed_bindings(circuit.instance).contains_key(id) ==> extracted(
                final_bindings(circuit, sys.gates),
                wires,
            )[id] == assign(map![0u64 => 1nat], circuit.instance)[id],
{
    let first = sys.gates;
    let count = circuit.constraints.len();
    let bindings = final_bindings(circuit, first);
    let values = extracted(bindings, wires);
    let seed = seed_bindings(circuit.instance);
    assert forall|k: int| 0 <= k < count implies field_mul(
        witness_sum(values, (#[trigger] circuit.constraints[k]).a@),
        witness_sum(values, circuit.constraints[k].b@),
    ) == witness_sum(values, circuit.constraints[k].c@) by {
        lemma_gate_sound(sys, circuit, wires, k);
    }
    assert forall|id: u64| #[trigger] seed.contains_key(id) implies values[id] == assign(
        map![0u64 => 1nat],
        circuit.instance,
    )[id] by {
        lemma_order_bounds();
        lemma_residual_members(seed.dom(), circuit.private);
        lemma_bind_residual(seed, residual(circuit), first + count);
        lemma_seed_matches(circuit.instance);
        lemma_assign_reduced(map![0u64 => 1nat], circuit.instance);
        let public = assign(map![0u64 => 1nat], circuit.instance)[id];
        assert(bindings[id] == seq![(Variable::One, public)]);
        lemma_evaluate_single(Variable::One, public, wires);
        lemma_mul_laws(public, 0, 0);
    }
}

/// Where the committed wire values satisfy a translated proving system, the
/// witness satisfies the constraint with index `k`.
proof fn lemma_committed_gate(sys: SystemView, circuit: CircuitView, k: int)
    requires
        sys.wf(),
        sys.prover,
        translation_error(sys, circuit, true).is_none(),
        private_ids_apart(circuit),
        translated(sys, circuit).satisfied_by(committed(translated(sys, circuit).wires)),
        0 <= k < circuit.constraints.len(),
    ensures
        field_mul(
            witness_sum(witness(circuit), circuit.constraints[k].a@),
            witness_sum(witness(circuit), circuit.constraints[k].b@),
        ) == witness_sum(witness(circuit), circuit.constraints[k].c@),
{
    let built = translated(sys, circuit);
    let recorded = built.wires;
    let handed = committed(recorded);
    let first = sys.gates;
    let count = circuit.constraints.len();
    let values = witness(circuit);
    let bindings = final_bindings(circuit, first);
    let gate_wires = constraint_wires(values, circuit.constraints);
    let left_side = left_wires(first, count);
    let right_side = right_wires(first, count);
    let output_side = output_wires(first, count);
    let ties = tied(bindings, circuit.constraints, left_side, right_side, output_side);
    let offset = sys.constraints.len() as int;
    let constraint = circuit.constraints[k];
    let output = Variable::MultiplierOutput((first + k) as usize);
    lemma_order_bounds();
    lemma_translation_facts(sys, circuit, true);
    lemma_wires_layout(sys, circuit);
    lemma_gate_values(sys, circuit);
    assert(recorded[first + k] == gate_wires[k]);
    assert(handed[first + k].output == field_mul(gate_wires[k].left, gate_wires[k].right));
    lemma_field_closed(gate_wires[k].left, gate_wires[k].right);
    assert(output.value(handed) == field_mul(
        witness_sum(values, constraint.a@),
        witness_sum(values, constraint.b@),
    ));
    lemma_tied_at(bindings, circuit.constraints, left_side, right_side, output_side, k);
    assert(output_side[k] == output);
    assert(evaluate(tie(bindings, constraint.c@, output), handed) == 0) by {
        assert(built.constraints == sys.constraints + ties);
        assert(built.constraints[offset + 3 * k + 2] == ties[3 * k + 2]);
    }
    lemma_bindings_consistent_on(sys, circuit, handed);
    assert(terms_bound(bindings.dom(), constraint.c@));
    lemma_tie_value(bindings, values, handed, constraint.c@, output);
}

/// The recorded outputs stand for the committed ones. For a proving system
/// that was satisfied before the translation, the translated system is
/// satisfied by the wire values that the backend commits, with each output
/// the product of the inputs, exactly when it is satisfied by the wire
/// values that were recorded.
pub proof fn law_committed_outputs(sys: SystemView, circuit: CircuitView)
    requires
        sys.wf(),
        sys.prover,
        sys.satisfied(),
        translation_error(sys, circuit, true).is_none(),
        private_ids_apart(circuit),
    ensures
        translated(sys, circuit).satisfied_by(committed(translated(sys, circuit).wires))
            <==> translated(sys, circuit).satisfied(),
{
    let built = translated(sys, circuit);
    let handed = committed(built.wires);
    let values = witness(circuit);
    if built.satisfied() {
        assert(handed =~= built.wires);
    }
    if built.satisfied_by(handed) {
        assert forall|k: int| 0 <= k < circuit.constraints.len() implies field_mul(
            witness_sum(values, (#[trigger] circuit.constraints[k]).a@),
            witness_sum(values, circuit.constraints[k].b@),
        ) == witness_sum(values, circuit.constraints[k].c@) by {
            lemma_committed_gate(sys, circuit, k);
        }
        assert(witness_satisfies(circuit));
        law_translation_faithful(sys, circuit);
    }
}

/// Whether every private variable comes with a witness value.
pub open spec fn witness_complete(circuit: CircuitView) -> bool {
    forall|i: int|
        0 <= i < circuit.private.len() ==> (#[trigger] circuit.private[i]).value@.len() > 0
}

/// The id of the first term of a list, in order, whose variable is not bound.
pub open spec fn first_unbound_term(bound: Set<u64>, terms: Seq<Term>) -> Option<u64>
    decreases terms.len(),
{
    if terms.len() == 0 {
        None
    } else if !bound.contains(terms[0].id) {
        Some(terms[0].id)
    } else {
        first_unbound_term(bound, terms.drop_first())
    }
}

/// The id of the first term whose variable is not bound, going through the
/// constraints in order and through the lists `a`, `b`, `c` of each.
pub open spec fn first_unbound(bound: Set<u64>, constraints: Seq<Constraint>) -> Option<u64>
    decreases constraints.len(),
{
    if constraints.len() == 0 {
        None
    } else if first_unbound_term(bound, constraints[0].a@).is_some() {
        first_unbound_term(bound, constraints[0].a@)
    } else if first_unbound_term(bound, constraints[0].b@).is_some() {
        first_unbound_term(bound, constraints[0].b@)
    } else if first_unbound_term(bound, constraints[0].c@).is_some() {
        first_unbound_term(bound, constraints[0].c@)
    } else {
        first_unbound(bound, constraints.drop_first())
    }
}

proof fn lemma_conversion_unbound(bound: Set<u64>, terms: Seq<Term>)
    requires
        terms_decodable(terms),
    ensures
        conversion_error(bound, terms) == match first_unbound_term(bound, terms) {
            Some(id) => Some(Error::UnknownVariable(id)),
            None => None,
        },
    decreases terms.len(),
{
    if terms.len() > 0 {
        let rest = terms.drop_first();
        assert forall|i: int| 0 <= i < rest.len() implies decode_spec(
            (#[trigger] rest[i]).value@,
        ).is_some() by {
            assert(rest[i] == terms[i + 1]);
        }
        lemma_conversion_unbound(bound, rest);
        assert(decode_spec(terms[0].value@).is_some());
    }
}

proof fn lemma_tie_pass_unbound(bound: Set<u64>, constraints: Seq<Constraint>)
    requires
        constraints_decodable(constraints),
    ensures
        tie_pass_error(bound, constraints) == match first_unbound(bound, constraints) {
            Some(id) => Some(Error::UnknownVariable(id)),
            None => None,
        },
    decreases constraints.len(),
{
    if constraints.len() > 0 {
        let rest = constraints.drop_first();
        assert forall|k: int| 0 <= k < rest.len() implies {
            &&& terms_decodable((#[trigger] rest[k]).a@)
            &&& terms_decodable(rest[k].b@)
            &&& terms_decodable(rest[k].c@)
        } by {
            assert(rest[k] == constraints[k + 1]);
        }
        lemma_tie_pass_unbound(bound, rest);
        assert(terms_decodable(constraints[0].a@));
        lemma_conversion_unbound(bound, constraints[0].a@);
        lemma_conversion_unbound(bound, constraints[0].b@);
        lemma_conversion_unbound(bound, constraints[0].c@);
    }
}

proof fn lemma_assign_covers(values: Map<u64, nat>, vars: Seq<CircuitVariable>)
    ensures
        forall|id: u64|
            values.contains_key(id) || ids_of(vars).contains(id) ==> #[trigger] assign(
                values,
                vars,
            ).contains_key(id),
    decreases vars.len(),
{
    if vars.len() > 0 {
        let front = vars.drop_last();
        lemma_assign_covers(values, front);
        assert forall|id: u64| values.contains_key(id) || ids_of(vars).contains(
            id,
        ) implies #[trigger] assign(values, vars).contains_key(id) by {
            if ids_of(vars).contains(id) && id != vars.last().id {
                let k = choose|k: int| 0 <= k < vars.len() && (#[trigger] vars[k]).id == id;
                assert(front[k].id == id);
                assert(ids_of(front).contains(id));
            }
            if id != vars.last().id {
                assert(assign(values, front).contains_key(id));
            }
        }
    } else {
        assert forall|id: u64| values.contains_key(id) || ids_of(vars).contains(
            id,
        ) implies #[trigger] assign(values, vars).contains_key(id) by {}
    }
}

proof fn lemma_assign_present_covers(values: Map<u64, nat>, vars: Seq<CircuitVariable>)
    requires
        forall|i: int| 0 <= i < vars.len() ==> (#[trigger] vars[i]).value@.len() > 0,
    ensures
        forall|id: u64|
            values.contains_key(id) || ids_of(vars).contains(id) ==> #[trigger] assign_present(
                values,
                vars,
            ).contains_key(id),
    decreases vars.len(),
{
    if vars.len() > 0 {
        let front = vars.drop_last();
        assert forall|i: int| 0 <= i < front.len() implies (#[trigger] front[i]).value@.len()
            > 0 by {
            assert(front[i] == vars[i]);
        }
        lemma_assign_present_covers(values, front);
        assert(vars[vars.len() - 1].value@.len() > 0);
        assert forall|id: u64| values.contains_key(id) || ids_of(vars).contains(
            id,
        ) implies #[trigger] assign_present(values, vars).contains_key(id) by {
            if ids_of(vars).contains(id) && id != vars.last().id {
                let k = choose|k: int| 0 <= k < vars.len() && (#[trigger] vars[k]).id == id;
                assert(front[k].id == id);
                assert(ids_of(front).contains(id));
            }
            if id != vars.last().id {
                assert(assign_present(values, front).contains_key(id));
            }
        }
    } else {
        assert forall|id: u64| values.contains_key(id) || ids_of(vars).contains(
            id,
        ) implies #[trigger] assign_present(values, vars).contains_key(id) by {}
    }
}

/// A complete witness has a value for every declared variable.
proof fn lemma_witness_covers(circuit: CircuitView)
    requires
        witness_complete(circuit),
    ensures
        forall|id: u64| declared_ids(circuit).contains(id) ==> witness(circuit).contains_key(id),
{
    let public = assign(map![0u64 => 1nat], circuit.instance);
    lemma_assign_covers(map![0u64 => 1nat], circuit.instance);
    lemma_assign_present_covers(public, circuit.private);
    assert forall|id: u64| declared_ids(circuit).contains(id) implies witness(
        circuit,
    ).contains_key(id) by {
        if id == 0 || ids_of(circuit.instance).contains(id) {
            assert(map![0u64 => 1nat].contains_key(0));
            assert(public.contains_key(id));
        }
        assert(assign_present(public, circuit.private).contains_key(id));
    }
}

/// A variable that nothing declares is an unknown variable on either path.
/// Where every value and coefficient decodes, the capacity covers the gates,
/// the system is fed on its own path and, on the proving path, every
/// private variable has its witness value, the translation fails exactly
/// when a term names a variable that is not declared, and it fails with
/// `UnknownVariable` and the id of the first such term, in the order of the
/// constraints and of their lists `a`, `b`, `c`.
pub proof fn law_unknown_variable(sys: SystemView, circuit: CircuitView, prover: bool)
    requires
        sys.wf(),
        values_decodable(circuit.instance),
        constraints_decodable(circuit.constraints),
        prover ==> values_decodable(circuit.private) && witness_complete(circuit),
        sys.gates + required_gates(circuit) <= sys.capacity,
        !(sys.prover && !prover),
    ensures
        translation_error(sys, circuit, prover) == match first_unbound(
            declared_ids(circuit),
            circuit.constraints,
        ) {
            Some(id) => Some(Error::UnknownVariable(id)),
            None => None,
        },
        final_bindings(circuit, sys.gates).dom() == declared_ids(circuit),
{
    let valued = valued_ids(circuit, prover);
    let declared = declared_ids(circuit);
    let room = (sys.capacity - sys.gates) as nat;
    let seed = seed_bindings(circuit.instance);
    let ids = residual(circuit);
    if prover {
        lemma_witness_covers(circuit);
    }
    lemma_gate_pass_complete(circuit.constraints, valued, declared, prover, room, false);
    lemma_residual_members(seed.dom(), circuit.private);
    if prover {
        assert forall|j: int| 0 <= j < ids.len() implies valued.contains(#[trigger] ids[j]) by {
            let i = choose|i: int|
                0 <= i < circuit.private.len() && (#[trigger] circuit.private[i]).id == ids[j];
            assert(ids_of(circuit.private).contains(ids[j]));
            assert(declared.contains(ids[j]));
        }
    }
    assert(!residual_pass_fails(
        ids,
        valued,
        prover,
        (room - circuit.constraints.len()) as nat,
        false,
    ));
    lemma_declared_bound(circuit, sys.gates);
    lemma_tie_pass_unbound(declared, circuit.constraints);
}

/// Both sides build the same system. From systems that hold the same gates
/// and constraints, the proving and the verifying side come to the same
/// number of gates, the same binding for every id and the same constraints,
/// in the same order; only the wire values are the prover's own.
pub proof fn law_sides_agree(prover: SystemView, verifier: SystemView, circuit: CircuitView)
    requires
        prover.gates == verifier.gates,
        prover.constraints == verifier.constraints,
    ensures
        translated(prover, circuit).gates == translated(verifier, circuit).gates,
        translated(prover, circuit).constraints == translated(verifier, circuit).constraints,
        final_bindings(circuit, prover.gates) == final_bindings(circuit, verifier.gates),
{
}

/// Too few generators are never passed over in silence: when a complete,
/// well-encoded circuit needs more gates than the capacity leaves, the build
/// fails with `AllocationFailure`.
pub proof fn law_capacity_failure(sys: SystemView, messages: &Messages, prover: bool)
    requires
        sys.gates <= sys.capacity,
        messages.complete(),
        values_decodable(messages.circuit_view().instance),
        prover ==> values_decodable(messages.circuit_view().private),
        constraints_decodable(messages.circuit_view().constraints),
        sys.gates + required_gates(messages.circuit_view()) > sys.capacity,
    ensures
        build_error(sys, messages, prover) == Some(Error::AllocationFailure),
{
    let circuit = messages.circuit_view();
    let valued = valued_ids(circuit, prover);
    let room = (sys.capacity - sys.gates) as nat;
    let mismatch = sys.prover && !prover;
    let declared = declared_ids(circuit);
    lemma_gate_pass_decodable(circuit.constraints, valued, declared, prover, room, mismatch);
    if gate_pass_error(circuit.constraints, valued, declared, prover, room, mismatch).is_none() {
        lemma_gate_pass_none(circuit.constraints, valued, declared, prover, room, mismatch);
    }
}

/// The example gadget states a truth: on the proving side the system is
/// satisfied after the gadget exactly when it was before.
pub proof fn law_example_satisfied(sys: SystemView)
    requires
        sys.wf(),
        sys.prover,
        sys.gates + 2 <= sys.capacity,
    ensures
        example_system(sys).wf(),
        example_system(sys).satisfied() <==> sys.satisfied(),
{
    let three = seq![(Variable::One, 3nat)];
    let four = seq![(Variable::One, 4nat)];
    let first = multiplied(sys, three, three);
    let second = multiplied(first, four, four);
    let after = example_system(sys);
    let gate = sys.gates as usize;
    let next = (sys.gates + 1) as usize;
    let squares = seq![(Variable::MultiplierOutput(gate), 1nat)] + seq![
        (Variable::MultiplierOutput(next), 1nat),
    ];
    let sum = squares + negated(seq![(Variable::One, 25nat)]);
    let wires = second.wires;
    lemma_order_bounds();
    law_multiply_satisfied(sys, three, three);
    law_multiply_satisfied(first, four, four);
    assert(after.constraints[second.constraints.len() as int] == sum);
    assert(after.wires == wires);

    // The two outputs carry 9 and 16, and 9 + 16 - 25 vanishes.
    assert(evaluate(sum, wires) == 0) by {
        lemma_evaluate_single(Variable::One, 3, sys.wires);
        lemma_evaluate_single(Variable::One, 4, first.wires);
        vstd::arithmetic::div_mod::lemma_small_mod(3, group_order());
        vstd::arithmetic::div_mod::lemma_small_mod(4, group_order());
        vstd::arithmetic::div_mod::lemma_small_mod(9, group_order());
        vstd::arithmetic::div_mod::lemma_small_mod(16, group_order());
        vstd::arithmetic::div_mod::lemma_small_mod(25, group_order());
        assert(3nat * 1nat == 3 && 4nat * 1nat == 4 && 3nat * 3nat == 9 && 4nat * 4nat == 16
            && 25nat * 1nat == 25 && 1nat * 9nat == 9 && 1nat * 16nat == 16);
        assert(first.wires =~= sys.wires.push(product_wires(three, three, sys.wires)));
        assert(wires =~= first.wires.push(product_wires(four, four, first.wires)));
        assert(wires[sys.gates as int].output == 9);
        assert(wires[sys.gates as int + 1].output == 16);
        lemma_evaluate_single(Variable::MultiplierOutput(gate), 1, wires);
        lemma_evaluate_single(Variable::MultiplierOutput(next), 1, wires);
        lemma_evaluate_single(Variable::One, 25, wires);
        law_add_evaluates(
            seq![(Variable::MultiplierOutput(gate), 1nat)],
            seq![(Variable::MultiplierOutput(next), 1nat)],
            wires,
        );
        law_subtract_evaluates(squares, seq![(Variable::One, 25nat)], wires);
        assert(evaluate(squares, wires) == 25);
        lemma_difference_zero(25, 25);
    }
    assert(after.wf()) by {
        assert forall|k: int| 0 <= k < after.constraints.len() implies terms_allocated(
            #[trigger] after.constraints[k],
            after.gates,
        ) by {
            if k < second.constraints.len() {
                assert(after.constraints[k] == second.constraints[k]);
            }
        }
    }
    if second.satisfied() {
        assert forall|k: int| 0 <= k < after.constraints.len() implies evaluate(
            #[trigger] after.constraints[k],
            wires,
        ) == 0 by {
            if k < second.constraints.len() {
                assert(after.constraints[k] == second.constraints[k]);
            }
        }
    }
    if after.satisfied() {
        assert forall|k: int| 0 <= k < second.constraints.len() implies evaluate(
            #[trigger] second.constraints[k],
            wires,
        ) == 0 by {
            assert(after.constraints[k] == second.constraints[k]);
        }
    }
}

} // verus!
