//! Algebra of the scalar field: the identities that the rest of the crate
//! relies on, proved from the definitions of the field operations.

use vstd::prelude::*;
use vstd::arithmetic::div_mod::*;
use vstd::arithmetic::mul::*;
use crate::scalar::{field_add, field_mul, field_neg, group_order, lemma_order_bounds};

verus! {

/// Subtraction in the field.
pub open spec fn field_sub(a: nat, b: nat) -> nat {
    field_add(a, field_neg(b))
}

/// Results of the field operations are reduced.
pub proof fn lemma_field_closed(a: nat, b: nat)
    ensures
        field_add(a, b) < group_order(),
        field_mul(a, b) < group_order(),
        field_neg(a) < group_order(),
{
    lemma_order_bounds();
    let m = group_order() as int;
    lemma_mod_bound(a as int + b as int, m);
    lemma_mod_bound(a as int * b as int, m);
    lemma_mod_bound(m - (a as int) % m, m);
}

/// Addition is commutative and associative, and zero is neutral for reduced values.
pub proof fn lemma_add_laws(a: nat, b: nat, c: nat)
    ensures
        field_add(a, b) == field_add(b, a),
        field_add(field_add(a, b), c) == field_add(a, field_add(b, c)),
        a < group_order() ==> field_add(a, 0) == a && field_add(0, a) == a,
{
    lemma_order_bounds();
    let m = group_order() as int;
    lemma_add_mod_noop((a + b) as int, c as int, m);
    lemma_add_mod_noop(a as int, (b + c) as int, m);
    lemma_mod_twice((a + b) as int, m);
    lemma_mod_twice((b + c) as int, m);
    lemma_add_mod_noop_right(((a + b) % group_order()) as int, c as int, m);
    lemma_add_mod_noop_right(a as int, (b + c) as int, m);
    lemma_add_mod_noop_right(c as int, (a + b) as int, m);
    if a < group_order() {
        lemma_small_mod(a, group_order());
    }
}

/// Multiplication is commutative and associative, and it ignores reduction of its factors.
pub proof fn lemma_mul_laws(a: nat, b: nat, c: nat)
    ensures
        field_mul(a, b) == field_mul(b, a),
        field_mul(field_mul(a, b), c) == field_mul(a, field_mul(b, c)),
        field_mul(a % group_order(), b) == field_mul(a, b),
        field_mul(a, b % group_order()) == field_mul(a, b),
        a < group_order() ==> field_mul(a, 1) == a && field_mul(1, a) == a,
        field_mul(a, 0) == 0 && field_mul(0, a) == 0,
{
    lemma_order_bounds();
    let m = group_order() as int;
    lemma_mul_is_commutative(a as int, b as int);
    lemma_mul_is_associative(a as int, b as int, c as int);
    lemma_mul_mod_noop_left((a * b) as int, c as int, m);
    lemma_mul_mod_noop_right(a as int, (b * c) as int, m);
    lemma_mul_mod_noop_left(a as int, b as int, m);
    lemma_mul_mod_noop_right(a as int, b as int, m);
    lemma_mul_basics(a as int);
    lemma_small_mod(0, group_order());
    if a < group_order() {
        lemma_small_mod(a, group_order());
    }
}

/// Multiplication distributes over addition.
pub proof fn lemma_distributes(a: nat, b: nat, k: nat)
    ensures
        field_mul(field_add(a, b), k) == field_add(field_mul(a, k), field_mul(b, k)),
        field_mul(k, field_add(a, b)) == field_add(field_mul(k, a), field_mul(k, b)),
{
    lemma_order_bounds();
    let m = group_order() as int;
    lemma_mul_laws(a + b, k, 0);
    lemma_mul_is_distributive_add_other_way(k as int, a as int, b as int);
    lemma_add_mod_noop((a * k) as int, (b * k) as int, m);
    lemma_mul_laws(field_add(a, b), k, 0);
    lemma_mul_laws(a, k, 0);
    lemma_mul_laws(b, k, 0);
}

/// The additive inverse cancels, commutes with products, and distributes over sums.
pub proof fn lemma_neg_laws(a: nat, b: nat)
    ensures
        field_add(a, field_neg(a)) == 0,
        field_mul(field_neg(a), b) == field_neg(field_mul(a, b)),
        field_neg(field_add(a, b)) == field_add(field_neg(a), field_neg(b)),
{
    lemma_order_bounds();
    let m = group_order() as int;
    let ra = (a as int) % m;
    let rb = (b as int) % m;
    lemma_mod_bound(a as int, m);
    lemma_mod_bound(b as int, m);
    // a + (-a) = 0
    lemma_add_mod_noop(a as int, m - ra, m);
    lemma_mod_twice(m - ra, m);
    lemma_mod_twice(a as int, m);
    lemma_mod_self_0(m);
    assert(field_add(a, field_neg(a)) == 0) by {
        let n = (m - ra) % m;
        lemma_add_mod_noop(a as int, n, m);
        lemma_mod_twice(m - ra, m);
        lemma_add_mod_noop_right(ra, m - ra, m);
        assert(ra + (m - ra) == m);
    }
    // (-a) * b = -(a * b)
    assert(field_mul(field_neg(a), b) == field_neg(field_mul(a, b))) by {
        lemma_mul_mod_noop_left(m - ra, b as int, m);
        lemma_mul_is_distributive_sub_other_way(b as int, m, ra);
        lemma_mod_multiples_vanish(b as int, -(ra * (b as int)), m);
        lemma_mul_is_commutative(b as int, m);
        lemma_mul_mod_noop_left(a as int, b as int, m);
        let p = (a as int) * (b as int);
        lemma_mod_bound(p, m);
        lemma_mod_twice(p, m);
        lemma_sub_mod_noop(0, ra * (b as int), m);
        lemma_sub_mod_noop(0, p % m, m);
        lemma_small_mod(0, group_order());
        lemma_mod_multiples_vanish(1, -(p % m), m);
        lemma_mod_twice(m - (p % m), m);
    }
    // -(a + b) = (-a) + (-b)
    assert(field_neg(field_add(a, b)) == field_add(field_neg(a), field_neg(b))) by {
        let s = (a as int) + (b as int);
        lemma_mod_bound(s, m);
        lemma_mod_twice(s, m);
        lemma_add_mod_noop(m - ra, m - rb, m);
        lemma_add_mod_noop(a as int, b as int, m);
        lemma_mod_multiples_vanish(2, -(ra + rb), m);
        lemma_sub_mod_noop(0, ra + rb, m);
        lemma_sub_mod_noop(0, s % m, m);
        lemma_small_mod(0, group_order());
        lemma_mod_multiples_vanish(1, -(s % m), m);
    }
}

/// A difference of reduced values vanishes exactly when they are equal.
pub proof fn lemma_difference_zero(a: nat, b: nat)
    requires
        a < group_order(),
        b < group_order(),
    ensures
        field_sub(a, b) == 0 <==> a == b,
{
    lemma_order_bounds();
    let m = group_order() as int;
    lemma_small_mod(b, group_order());
    if b == 0 {
        lemma_mod_self_0(m);
        lemma_small_mod(a, group_order());
    } else {
        lemma_small_mod((m - b) as nat, group_order());
        let s = a + (m - b);
        if a == b {
            lemma_mod_self_0(m);
        } else if a < b {
            lemma_small_mod(s as nat, group_order());
        } else {
            lemma_mod_multiples_vanish(1, s - m, m);
            lemma_small_mod((s - m) as nat, group_order());
        }
    }
}

} // verus!
