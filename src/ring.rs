//! The ring Z[√D]: an element x + y·√D is the pair (x, y).
use vstd::arithmetic::mul::{
    lemma_mul_is_associative, lemma_mul_is_commutative, lemma_mul_is_distributive_add,
    lemma_mul_is_distributive_add_other_way,
};
use vstd::prelude::*;

verus! {

/// (x, y) solves x² − d·y² = 1.
pub open spec fn is_pell(d: int, x: int, y: int) -> bool {
    x * x == d * y * y + 1
}

/// The product of two elements of Z[√d].
pub open spec fn ring_mul(d: int, a: (int, int), b: (int, int)) -> (int, int) {
    (a.0 * b.0 + d * a.1 * b.1, a.0 * b.1 + a.1 * b.0)
}

/// `b` raised to the power `k` in Z[√d]; the power 0 is the unit (1, 0).
pub open spec fn ring_pow(d: int, b: (int, int), k: nat) -> (int, int)
    decreases k,
{
    if k == 0 {
        (1, 0)
    } else {
        ring_mul(d, ring_pow(d, b, (k - 1) as nat), b)
    }
}

/// The unit (1, 0) is neutral on both sides.
pub proof fn lemma_ring_unit(d: int, a: (int, int))
    ensures
        ring_mul(d, a, (1, 0)) == a,
        ring_mul(d, (1, 0), a) == a,
{
    assert(d * a.1 * 0 == 0 && d * 0 * a.1 == 0 && a.0 * 1 == a.0 && a.1 * 1 == a.1) by (
    nonlinear_arith);
}

/// Multiplication in Z[√d] is associative.
pub proof fn lemma_ring_mul_assoc(d: int, a: (int, int), b: (int, int), c: (int, int))
    ensures
        ring_mul(d, ring_mul(d, a, b), c) == ring_mul(d, a, ring_mul(d, b, c)),
{
    lemma_assoc_parts(d, a.0, a.1, b.0, b.1, c.0, c.1);
}

proof fn lemma_assoc_parts(d: int, a0: int, a1: int, b0: int, b1: int, c0: int, c1: int)
    ensures
        (a0 * b0 + d * a1 * b1) * c0 + d * (a0 * b1 + a1 * b0) * c1 == a0 * (b0 * c0 + d * b1 * c1)
            + d * a1 * (b0 * c1 + b1 * c0),
        (a0 * b0 + d * a1 * b1) * c1 + (a0 * b1 + a1 * b0) * c0 == a0 * (b0 * c1 + b1 * c0) + a1
            * (b0 * c0 + d * b1 * c1),
{
    lemma_mul_is_distributive_add_other_way(c0, a0 * b0, d * a1 * b1);
    lemma_mul_is_distributive_add(d, a0 * b1, a1 * b0);
    lemma_mul_is_distributive_add_other_way(c1, d * (a0 * b1), d * (a1 * b0));
    lemma_mul_is_associative(d, a0, b1);
    lemma_mul_is_associative(d, a1, b0);
    lemma_mul_is_distributive_add(a0, b0 * c0, d * b1 * c1);
    lemma_mul_is_associative(a0, b0, c0);
    lemma_mul_is_associative(a0, d * b1, c1);
    lemma_mul_is_associative(a0, d, b1);
    lemma_mul_is_commutative(a0, d);
    lemma_mul_is_distributive_add(d * a1, b0 * c1, b1 * c0);
    lemma_mul_is_associative(d * a1, b0, c1);
    lemma_mul_is_associative(d * a1, b1, c0);

    lemma_mul_is_distributive_add_other_way(c1, a0 * b0, d * a1 * b1);
    lemma_mul_is_distributive_add_other_way(c0, a0 * b1, a1 * b0);
    lemma_mul_is_distributive_add(a0, b0 * c1, b1 * c0);
    lemma_mul_is_associative(a0, b0, c1);
    lemma_mul_is_associative(a0, b1, c0);
    lemma_mul_is_distributive_add(a1, b0 * c0, d * b1 * c1);
    lemma_mul_is_associative(a1, b0, c0);
    lemma_mul_is_associative(a1, d * b1, c1);
    lemma_mul_is_associative(a1, d, b1);
    lemma_mul_is_commutative(a1, d);
}

/// Powers add: b^(i + j) = b^i · b^j.
pub proof fn lemma_ring_pow_add(d: int, b: (int, int), i: nat, j: nat)
    ensures
        ring_pow(d, b, i + j) == ring_mul(d, ring_pow(d, b, i), ring_pow(d, b, j)),
    decreases j,
{
    if j == 0 {
        lemma_ring_unit(d, ring_pow(d, b, i));
    } else {
        lemma_ring_pow_add(d, b, i, (j - 1) as nat);
        assert(ring_pow(d, b, i + j) == ring_mul(d, ring_pow(d, b, (i + j - 1) as nat), b));
        lemma_ring_mul_assoc(d, ring_pow(d, b, i), ring_pow(d, b, (j - 1) as nat), b);
    }
}

/// Squaring the base doubles the exponent: (b·b)^e = b^(2e).
pub proof fn lemma_ring_pow_square(d: int, b: (int, int), e: nat)
    ensures
        ring_pow(d, ring_mul(d, b, b), e) == ring_pow(d, b, 2 * e),
    decreases e,
{
    if e > 0 {
        lemma_ring_pow_square(d, b, (e - 1) as nat);
        let p = ring_pow(d, b, (2 * e - 2) as nat);
        assert(ring_pow(d, b, 2 * e) == ring_mul(d, ring_mul(d, p, b), b)) by {
            assert(ring_pow(d, b, (2 * e - 1) as nat) == ring_mul(d, p, b));
        }
        lemma_ring_mul_assoc(d, p, b, b);
    }
}

/// The first power is the base.
pub proof fn lemma_ring_pow_one(d: int, b: (int, int))
    ensures
        ring_pow(d, b, 1) == b,
{
    assert(ring_pow(d, b, 0) == (1int, 0int));
    lemma_ring_unit(d, b);
}

/// Each element is the previous one times `b`, starting from `b` itself:
/// x_k = x₁·x_(k−1) + d·y₁·y_(k−1), y_k = x₁·y_(k−1) + y₁·x_(k−1).
pub open spec fn follows_recurrence(d: int, b: (int, int), v: Seq<(int, int)>) -> bool {
    &&& v.len() > 0 ==> v[0] == b
    &&& forall|i: int| 0 <= i < v.len() - 1 ==> #[trigger] v[i + 1] == ring_mul(d, v[i], b)
}

/// The recurrence and the power agree: the k-th element that the recurrence
/// seeded by `b` produces is b^k, whichever way it is computed.
pub proof fn lemma_recurrence_is_power(d: int, b: (int, int), v: Seq<(int, int)>, k: nat)
    requires
        follows_recurrence(d, b, v),
        1 <= k <= v.len(),
    ensures
        v[k - 1] == ring_pow(d, b, k),
    decreases k,
{
    if k == 1 {
        lemma_ring_pow_one(d, b);
    } else {
        lemma_recurrence_is_power(d, b, v, (k - 1) as nat);
        assert(v[(k - 2) + 1] == ring_mul(d, v[k - 2], b));
    }
}

/// Powers of a positive element grow strictly in both coordinates.
pub proof fn lemma_powers_increase(d: int, b: (int, int), k: nat)
    requires
        d >= 1,
        b.0 >= 1,
        b.1 >= 1,
        k >= 1,
    ensures
        ring_pow(d, b, k).0 >= 1,
        ring_pow(d, b, k).1 >= 1,
        ring_pow(d, b, k + 1).0 > ring_pow(d, b, k).0,
        ring_pow(d, b, k + 1).1 > ring_pow(d, b, k).1,
    decreases k,
{
    if k == 1 {
        lemma_ring_pow_one(d, b);
    } else {
        lemma_powers_increase(d, b, (k - 1) as nat);
    }
    let (x, y) = ring_pow(d, b, k);
    assert(ring_pow(d, b, k + 1) == ring_mul(d, (x, y), b));
    assert(x * b.0 + d * y * b.1 > x && x * b.1 + y * b.0 > y) by (nonlinear_arith)
        requires
            x >= 1,
            y >= 1,
            d >= 1,
            b.0 >= 1,
            b.1 >= 1,
    ;
}

} // verus!
