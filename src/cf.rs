//! The continued-fraction expansion of √D and its convergents.
//!
//! The complete quotient at step i is (√D + mᵢ)/dᵢ; its integer part is
//! aᵢ = ⌊(r + mᵢ)/dᵢ⌋ with r = ⌊√D⌋, and the next quotient has
//! mᵢ₊₁ = dᵢ·aᵢ − mᵢ and dᵢ₊₁ = (D − mᵢ₊₁²)/dᵢ. The convergents pᵢ/qᵢ follow
//! pᵢ = aᵢ·pᵢ₋₁ + pᵢ₋₂ from p₋₂ = 0, p₋₁ = 1 (q₋₂ = 1, q₋₁ = 0).
use vstd::arithmetic::div_mod::{
    lemma_div_multiples_vanish, lemma_fundamental_div_mod, lemma_fundamental_div_mod_converse,
    lemma_mod_multiples_basic, lemma_mod_pos_bound,
};
use vstd::prelude::*;
use vstd::set_lib::{lemma_int_range, lemma_len_subset, set_int_range};

use crate::ring::is_pell;
use crate::utils::{floor_sqrt, is_floor_sqrt, is_square, valid_discriminant};

verus! {

/// The surd parameters (m, d) after one step of the expansion.
pub open spec fn cf_step(dv: int, s: (int, int)) -> (int, int) {
    let a = (floor_sqrt(dv) + s.0) / s.1;
    let m = s.1 * a - s.0;
    (m, (dv - m * m) / s.1)
}

/// The surd parameters (mᵢ, dᵢ) of step i; step 0 is (0, 1).
pub open spec fn cf_state(dv: int, i: nat) -> (int, int)
    decreases i,
{
    if i == 0 {
        (0, 1)
    } else {
        cf_step(dv, cf_state(dv, (i - 1) as nat))
    }
}

/// The partial quotient aᵢ.
pub open spec fn cf_quot(dv: int, i: nat) -> int {
    (floor_sqrt(dv) + cf_state(dv, i).0) / cf_state(dv, i).1
}

/// The convergents of steps i − 1 and i: ((pᵢ₋₁, qᵢ₋₁), (pᵢ, qᵢ)).
pub open spec fn cf_conv(dv: int, i: nat) -> ((int, int), (int, int))
    decreases i,
{
    if i == 0 {
        ((1, 0), (floor_sqrt(dv), 1))
    } else {
        let prev = cf_conv(dv, (i - 1) as nat);
        let a = cf_quot(dv, i);
        (prev.1, (a * prev.1.0 + prev.0.0, a * prev.1.1 + prev.0.1))
    }
}

/// The convergent pᵢ/qᵢ solves the Pell equation.
pub open spec fn cf_solves(dv: int, i: nat) -> bool {
    is_pell(dv, cf_conv(dv, i).1.0, cf_conv(dv, i).1.1)
}

/// The index of the first convergent that solves the Pell equation.
pub open spec fn first_solving_index(dv: int) -> nat {
    choose|i: nat| cf_solves(dv, i) && forall|j: nat| j < i ==> !cf_solves(dv, j)
}

/// The fundamental solution: the first convergent of √D that solves
/// x² − D·y² = 1.
pub open spec fn fundamental_solution(dv: int) -> (int, int) {
    cf_conv(dv, first_solving_index(dv)).1
}

/// (m, d) are the parameters of a reduced surd (√D + m)/d: one greater than
/// 1 whose conjugate lies in (−1, 0). With r = ⌊√D⌋ this reads in integers.
pub open spec fn reduced(dv: int, s: (int, int)) -> bool {
    let r = floor_sqrt(dv);
    &&& 1 <= s.0 <= r
    &&& r + 1 <= s.0 + s.1
    &&& s.1 <= r + s.0
    &&& 1 <= s.1
    &&& (dv - s.0 * s.0) % s.1 == 0
}

/// The parameters of the preceding surd, recovered from (m, d).
pub open spec fn cf_back(dv: int, s: (int, int)) -> (int, int) {
    let dp = (dv - s.0 * s.0) / s.1;
    let a = (floor_sqrt(dv) + s.0) / dp;
    (a * dp - s.0, dp)
}

/// Facts on ⌊√D⌋ for a valid D.
pub proof fn lemma_root_facts(dv: int)
    requires
        valid_discriminant(dv),
    ensures
        is_floor_sqrt(dv, floor_sqrt(dv)),
        floor_sqrt(dv) >= 1,
        floor_sqrt(dv) * floor_sqrt(dv) < dv,
{
    let r = floor_sqrt(dv);
    lemma_floor_sqrt_exists(dv);
    if r * r == dv {
        assert(is_square(dv)) by {
            assert(0 <= r && r * r == dv);
        }
    }
    if r == 0 {
        assert(1 * 1 > dv) by {
            assert(is_floor_sqrt(dv, r));
        }
    }
}

/// Every non-negative number has a floor square root.
pub proof fn lemma_floor_sqrt_exists(n: int)
    requires
        n >= 0,
    ensures
        is_floor_sqrt(n, floor_sqrt(n)),
    decreases n,
{
    if n == 0 {
        assert(is_floor_sqrt(0, 0));
    } else {
        lemma_floor_sqrt_exists(n - 1);
        let r = floor_sqrt(n - 1);
        if (r + 1) * (r + 1) <= n {
            assert((r + 1) * (r + 1) == n);
            assert(n < (r + 2) * (r + 2)) by (nonlinear_arith)
                requires
                    (r + 1) * (r + 1) == n,
                    r >= 0,
            ;
            assert(is_floor_sqrt(n, r + 1));
        } else {
            assert(is_floor_sqrt(n, r));
        }
    }
}


/// One step of the expansion takes a reduced surd to a reduced surd, can be
/// undone by `cf_back`, and keeps dᵢ₊₁·dᵢ = D − mᵢ₊₁².
pub proof fn lemma_step_reduced(dv: int, s: (int, int))
    requires
        valid_discriminant(dv),
        reduced(dv, s),
    ensures
        reduced(dv, cf_step(dv, s)),
        cf_back(dv, cf_step(dv, s)) == s,
        cf_step(dv, s).1 * s.1 == dv - cf_step(dv, s).0 * cf_step(dv, s).0,
        (floor_sqrt(dv) + s.0) / s.1 >= 1,
{
    lemma_root_facts(dv);
    let r = floor_sqrt(dv);
    let m = s.0;
    let d = s.1;
    let a = (r + m) / d;
    lemma_fundamental_div_mod(r + m, d);
    lemma_mod_pos_bound(r + m, d);
    assert(d * a <= r + m < d * a + d);
    if a <= 0 {
        assert(d * a <= 0) by (nonlinear_arith)
            requires
                a <= 0,
                d >= 1,
        ;
    }
    assert(a >= 1);
    assert(d * a >= d) by (nonlinear_arith)
        requires
            a >= 1,
            d >= 1,
    ;
    let m2 = d * a - m;
    let t = (dv - m * m) / d;
    lemma_fundamental_div_mod(dv - m * m, d);
    assert(dv - m * m == d * t);
    let d2 = t - d * a * a + 2 * a * m;
    assert(dv - m2 * m2 == d * d2) by (nonlinear_arith)
        requires
            dv - m * m == d * t,
            m2 == d * a - m,
            d2 == t - d * a * a + 2 * a * m,
    ;
    lemma_div_multiples_vanish(d2, d);
    assert(cf_step(dv, s) == (m2, d2));
    assert(d2 * d == d * d2) by (nonlinear_arith);
    // Bounds on m₂.
    assert(1 <= m2 <= r);
    assert(d <= r + m2);
    assert(r + 1 - m2 <= d);
    // Lower bound on d₂.
    assert((r - m2) * d <= (r - m2) * (r + m2)) by (nonlinear_arith)
        requires
            0 <= r - m2,
            d <= r + m2,
    ;
    assert((r - m2) * (r + m2) == r * r - m2 * m2) by (nonlinear_arith);
    assert((r - m2) * d < d2 * d);
    if d2 <= r - m2 {
        assert(d2 * d <= (r - m2) * d) by (nonlinear_arith)
            requires
                d2 <= r - m2,
                d >= 1,
        ;
    }
    assert(d2 >= r - m2 + 1);
    // Upper bound on d₂.
    if d2 >= r + m2 + 1 {
        assert(d2 * d >= (r + m2 + 1) * (r + 1 - m2)) by (nonlinear_arith)
            requires
                d2 >= r + m2 + 1,
                d >= r + 1 - m2,
                r + 1 - m2 >= 1,
                r + m2 + 1 >= 0,
        ;
        assert((r + m2 + 1) * (r + 1 - m2) == (r + 1) * (r + 1) - m2 * m2) by (nonlinear_arith);
    }
    assert(d2 <= r + m2);
    lemma_mod_multiples_basic(d, d2);
    assert((dv - m2 * m2) % d2 == 0);
    // Undoing the step.
    lemma_div_multiples_vanish(d, d2);
    assert((dv - m2 * m2) / d2 == d);
    lemma_fundamental_div_mod_converse(r + m2, d, a, r - m);
}

/// The first step leads from (0, 1) to the reduced surd (r, D − r²).
pub proof fn lemma_first_step(dv: int)
    requires
        valid_discriminant(dv),
    ensures
        cf_state(dv, 1) == (floor_sqrt(dv), dv - floor_sqrt(dv) * floor_sqrt(dv)),
        reduced(dv, cf_state(dv, 1)),
{
    lemma_root_facts(dv);
    let r = floor_sqrt(dv);
    assert(cf_state(dv, 0) == (0int, 1int));
    assert(cf_state(dv, 1) == (r, dv - r * r));
    assert(dv < (r + 1) * (r + 1));
    assert((r + 1) * (r + 1) == r * r + 2 * r + 1) by (nonlinear_arith);
    lemma_mod_multiples_basic(1, dv - r * r);
}

/// Every step after the first is a reduced surd.
pub proof fn lemma_state_reduced(dv: int, i: nat)
    requires
        valid_discriminant(dv),
        i >= 1,
    ensures
        reduced(dv, cf_state(dv, i)),
    decreases i,
{
    if i == 1 {
        lemma_first_step(dv);
    } else {
        lemma_state_reduced(dv, (i - 1) as nat);
        lemma_step_reduced(dv, cf_state(dv, (i - 1) as nat));
    }
}


/// The sign (−1)^(i+1) that the norm of the i-th convergent carries.
pub open spec fn cf_sign(i: nat) -> int {
    if i % 2 == 0 {
        -1
    } else {
        1
    }
}

/// How the norm and the mixed product of two consecutive convergents change
/// when the next convergent is (a·p + pp, a·q + qp).
proof fn lemma_norm_expand(dv: int, a: int, p: int, q: int, pp: int, qp: int)
    ensures
        (a * p + pp) * (a * p + pp) - dv * (a * q + qp) * (a * q + qp) == a * a * (p * p - dv * q
            * q) + 2 * a * (p * pp - dv * q * qp) + (pp * pp - dv * qp * qp),
        (a * p + pp) * p - dv * (a * q + qp) * q == a * (p * p - dv * q * q) + (p * pp - dv * q
            * qp),
{
    let x = a * p;
    let y = a * q;
    assert((x + pp) * (x + pp) == x * x + 2 * (x * pp) + pp * pp) by (nonlinear_arith);
    assert((y + qp) * (y + qp) == y * y + 2 * (y * qp) + qp * qp) by (nonlinear_arith);
    assert(x * x == a * a * (p * p)) by (nonlinear_arith)
        requires
            x == a * p,
    ;
    assert(y * y == a * a * (q * q)) by (nonlinear_arith)
        requires
            y == a * q,
    ;
    assert(x * pp == a * (p * pp)) by (nonlinear_arith)
        requires
            x == a * p,
    ;
    assert(y * qp == a * (q * qp)) by (nonlinear_arith)
        requires
            y == a * q,
    ;
    assert(dv * (y * y + 2 * (y * qp) + qp * qp) == dv * (y * y) + 2 * (dv * (y * qp)) + dv * (qp
        * qp)) by (nonlinear_arith);
    assert(dv * (a * a * (q * q)) == a * a * (dv * q * q)) by (nonlinear_arith);
    assert(dv * (a * (q * qp)) == a * (dv * q * qp)) by (nonlinear_arith);
    assert(dv * (qp * qp) == dv * qp * qp) by (nonlinear_arith);
    assert(a * a * (p * p - dv * q * q) == a * a * (p * p) - a * a * (dv * q * q)) by (
    nonlinear_arith);
    assert(2 * a * (p * pp - dv * q * qp) == 2 * (a * (p * pp)) - 2 * (a * (dv * q * qp))) by (
    nonlinear_arith);
    assert((x + pp) * p == x * p + pp * p) by (nonlinear_arith);
    assert(x * p == a * (p * p)) by (nonlinear_arith)
        requires
            x == a * p,
    ;
    assert(dv * (y + qp) * q == a * (dv * q * q) + dv * q * qp) by (nonlinear_arith)
        requires
            y == a * q,
    ;
    assert(a * (p * p - dv * q * q) == a * (p * p) - a * (dv * q * q)) by (nonlinear_arith);
    assert(pp * p == p * pp) by (nonlinear_arith);
    assert((x + pp) * (x + pp) - dv * (y + qp) * (y + qp) == (x + pp) * (x + pp) - dv * ((y + qp)
        * (y + qp))) by (nonlinear_arith);
}

/// The norm of the i-th convergent: pᵢ² − D·qᵢ² = (−1)^(i+1)·dᵢ₊₁, together
/// with the facts that carry it from one step to the next.
pub proof fn lemma_cf_norm(dv: int, i: nat)
    requires
        valid_discriminant(dv),
    ensures
        ({
            let c = cf_conv(dv, i);
            let s1 = cf_state(dv, i + 1);
            let s0 = cf_state(dv, i);
            &&& c.1.0 * c.1.0 - dv * c.1.1 * c.1.1 == cf_sign(i) * s1.1
            &&& c.1.0 * c.0.0 - dv * c.1.1 * c.0.1 == -cf_sign(i) * s1.0
            &&& c.0.0 * c.0.0 - dv * c.0.1 * c.0.1 == -cf_sign(i) * s0.1
            &&& s1.1 * s0.1 == dv - s1.0 * s1.0
        }),
    decreases i,
{
    lemma_root_facts(dv);
    let r = floor_sqrt(dv);
    if i == 0 {
        lemma_first_step(dv);
        assert(cf_conv(dv, 0) == ((1int, 0int), (r, 1int)));
        assert(r * 1 - dv * 1 * 0 == r) by (nonlinear_arith);
        assert(1 * 1 - dv * 0 * 0 == 1) by (nonlinear_arith);
        assert(r * r - dv * 1 * 1 == r * r - dv) by (nonlinear_arith);
        assert(cf_state(dv, 0) == (0int, 1int));
        assert((dv - r * r) * 1 == dv - r * r) by (nonlinear_arith);
    } else {
        let k = (i - 1) as nat;
        lemma_cf_norm(dv, k);
        let c = cf_conv(dv, k);
        let (pp, qp) = c.0;
        let (p, q) = c.1;
        let s = cf_state(dv, i);
        let m = s.0;
        let d = s.1;
        let dp = cf_state(dv, k).1;
        let a = cf_quot(dv, i);
        let sg = cf_sign(k);
        lemma_state_reduced(dv, i);
        lemma_step_reduced(dv, s);
        let s2 = cf_state(dv, i + 1);
        assert(s2 == cf_step(dv, s));
        let m2 = s2.0;
        let d2 = s2.1;
        assert(a == (r + m) / d);
        assert(m2 == d * a - m);
        assert(cf_conv(dv, i) == ((p, q), (a * p + pp, a * q + qp)));
        lemma_norm_expand(dv, a, p, q, pp, qp);
        assert(cf_sign(i) == -sg);
        // p² − Dq² = sg·d, p·pp − D·q·qp = −sg·m, pp² − D·qp² = −sg·dp.
        assert(a * a * (sg * d) + 2 * a * (-sg * m) + (-sg * dp) == sg * (a * a * d - 2 * a * m
            - dp)) by (nonlinear_arith);
        assert(d * (a * a * d - 2 * a * m - dp) == -(d2 * d)) by (nonlinear_arith)
            requires
                d * dp == dv - m * m,
                d2 * d == dv - m2 * m2,
                m2 == d * a - m,
        ;
        assert(a * a * d - 2 * a * m - dp == -d2) by (nonlinear_arith)
            requires
                d * (a * a * d - 2 * a * m - dp) == -(d2 * d),
                d >= 1,
        ;
        assert(a * (sg * d) + (-sg * m) == sg * m2) by (nonlinear_arith)
            requires
                m2 == d * a - m,
        ;
        assert(sg * (-d2) == -sg * d2) by (nonlinear_arith);
    }
}

/// Numbers each reduced surd by an integer in [0, 2r²).
pub open spec fn cf_code(dv: int, s: (int, int)) -> int {
    (s.0 - 1) * (2 * floor_sqrt(dv)) + (s.1 - 1)
}

proof fn lemma_code_range(dv: int, s: (int, int))
    requires
        valid_discriminant(dv),
        reduced(dv, s),
    ensures
        0 <= cf_code(dv, s) < 2 * floor_sqrt(dv) * floor_sqrt(dv),
{
    lemma_root_facts(dv);
    let r = floor_sqrt(dv);
    assert(0 <= (s.0 - 1) * (2 * r) <= (r - 1) * (2 * r)) by (nonlinear_arith)
        requires
            0 <= s.0 - 1 <= r - 1,
            r >= 1,
    ;
    assert((r - 1) * (2 * r) == 2 * r * r - 2 * r) by (nonlinear_arith);
}

proof fn lemma_code_injective(dv: int, s: (int, int), t: (int, int))
    requires
        valid_discriminant(dv),
        reduced(dv, s),
        reduced(dv, t),
        cf_code(dv, s) == cf_code(dv, t),
    ensures
        s == t,
{
    lemma_root_facts(dv);
    let r = floor_sqrt(dv);
    let c = cf_code(dv, s);
    assert(c == (s.0 - 1) * (2 * r) + (s.1 - 1));
    lemma_fundamental_div_mod_converse(c, 2 * r, s.0 - 1, s.1 - 1);
    lemma_fundamental_div_mod_converse(c, 2 * r, t.0 - 1, t.1 - 1);
}

/// Among the surds of steps 1 ..= 2r² + 1 two coincide.
proof fn lemma_state_repeats(dv: int) -> (ij: (nat, nat))
    requires
        valid_discriminant(dv),
    ensures
        1 <= ij.0 < ij.1,
        cf_state(dv, ij.0) == cf_state(dv, ij.1),
{
    lemma_root_facts(dv);
    let r = floor_sqrt(dv);
    let bound = 2 * r * r;
    let n = (bound + 1) as nat;
    let codes = Seq::new(n, |t: int| cf_code(dv, cf_state(dv, (t + 1) as nat)));
    if codes.no_duplicates() {
        codes.unique_seq_to_set();
        assert forall|x: int| codes.to_set().contains(x) implies set_int_range(0, bound).contains(
            x,
        ) by {
            let t = choose|t: int| 0 <= t < codes.len() && codes[t] == x;
            lemma_state_reduced(dv, (t + 1) as nat);
            lemma_code_range(dv, cf_state(dv, (t + 1) as nat));
        }
        lemma_int_range(0, bound);
        lemma_len_subset(codes.to_set(), set_int_range(0, bound));
        assert(false);
        (0, 0)
    } else {
        let (i, j) = choose|i: int, j: int|
            0 <= i < codes.len() && 0 <= j < codes.len() && i != j && codes[i] == codes[j];
        lemma_state_reduced(dv, (i + 1) as nat);
        lemma_state_reduced(dv, (j + 1) as nat);
        lemma_code_injective(dv, cf_state(dv, (i + 1) as nat), cf_state(dv, (j + 1) as nat));
        if i < j {
            ((i + 1) as nat, (j + 1) as nat)
        } else {
            ((j + 1) as nat, (i + 1) as nat)
        }
    }
}

/// A repetition of surds reaches back to step 1: the expansion is purely
/// periodic.
proof fn lemma_back_to_start(dv: int, i: nat, j: nat)
    requires
        valid_discriminant(dv),
        1 <= i < j,
        cf_state(dv, i) == cf_state(dv, j),
    ensures
        cf_state(dv, 1) == cf_state(dv, (1 + j - i) as nat),
    decreases i,
{
    if i > 1 {
        let si = cf_state(dv, (i - 1) as nat);
        let sj = cf_state(dv, (j - 1) as nat);
        lemma_state_reduced(dv, (i - 1) as nat);
        lemma_state_reduced(dv, (j - 1) as nat);
        lemma_step_reduced(dv, si);
        lemma_step_reduced(dv, sj);
        lemma_back_to_start(dv, (i - 1) as nat, (j - 1) as nat);
    }
}

/// With period l, every surd from step 1 on repeats l steps later.
proof fn lemma_periodic(dv: int, l: nat, n: nat)
    requires
        n >= 1,
        cf_state(dv, 1) == cf_state(dv, 1 + l),
    ensures
        cf_state(dv, n + l) == cf_state(dv, n),
    decreases n,
{
    if n > 1 {
        lemma_periodic(dv, l, (n - 1) as nat);
        assert(cf_state(dv, n + l) == cf_step(dv, cf_state(dv, (n - 1 + l) as nat)));
    }
}

/// The surd just before a return to step 1 has dₗ = 1.
proof fn lemma_period_end(dv: int, l: nat)
    requires
        valid_discriminant(dv),
        l >= 1,
        cf_state(dv, 1) == cf_state(dv, 1 + l),
    ensures
        cf_state(dv, l).1 == 1,
{
    lemma_root_facts(dv);
    lemma_first_step(dv);
    let r = floor_sqrt(dv);
    lemma_state_reduced(dv, l);
    lemma_step_reduced(dv, cf_state(dv, l));
    lemma_div_multiples_vanish(1, dv - r * r);
    assert((dv - r * r) * 1 == dv - r * r);
}

/// Some convergent of √D solves the Pell equation.
pub proof fn lemma_cf_solves_exists(dv: int) -> (t: nat)
    requires
        valid_discriminant(dv),
    ensures
        cf_solves(dv, t),
{
    let (i, j) = lemma_state_repeats(dv);
    lemma_back_to_start(dv, i, j);
    let l = (j - i) as nat;
    lemma_period_end(dv, l);
    if l % 2 == 0 {
        let t = (l - 1) as nat;
        lemma_cf_norm(dv, t);
        assert(t + 1 == l);
        t
    } else {
        lemma_periodic(dv, l, l);
        let t = (2 * l - 1) as nat;
        lemma_cf_norm(dv, t);
        assert(t + 1 == l + l);
        t
    }
}

/// Convergents are positive: pᵢ, qᵢ ≥ 1, and pᵢ₋₁, qᵢ₋₁ ≥ 0.
pub proof fn lemma_conv_positive(dv: int, i: nat)
    requires
        valid_discriminant(dv),
    ensures
        cf_conv(dv, i).1.0 >= 1,
        cf_conv(dv, i).1.1 >= 1,
        cf_conv(dv, i).0.0 >= 0,
        cf_conv(dv, i).0.1 >= 0,
    decreases i,
{
    lemma_root_facts(dv);
    if i > 0 {
        lemma_conv_positive(dv, (i - 1) as nat);
        lemma_state_reduced(dv, i);
        lemma_step_reduced(dv, cf_state(dv, i));
        let c = cf_conv(dv, (i - 1) as nat);
        let a = cf_quot(dv, i);
        assert(a * c.1.0 >= c.1.0 && a * c.1.1 >= c.1.1) by (nonlinear_arith)
            requires
                a >= 1,
                c.1.0 >= 1,
                c.1.1 >= 1,
        ;
    }
}

/// The fundamental solution solves the equation and is positive.
pub proof fn lemma_fundamental_solution(dv: int)
    requires
        valid_discriminant(dv),
    ensures
        is_pell(dv, fundamental_solution(dv).0, fundamental_solution(dv).1),
        fundamental_solution(dv).0 >= 1,
        fundamental_solution(dv).1 >= 1,
{
    let t = lemma_cf_solves_exists(dv);
    lemma_first_exists(dv, t);
    lemma_conv_positive(dv, first_solving_index(dv));
}

/// Where some convergent solves, a first one does.
proof fn lemma_first_exists(dv: int, t: nat)
    requires
        cf_solves(dv, t),
    ensures
        cf_solves(dv, first_solving_index(dv)),
        forall|j: nat| j < first_solving_index(dv) ==> !cf_solves(dv, j),
    decreases t,
{
    if exists|j: nat| j < t && cf_solves(dv, j) {
        let j = choose|j: nat| j < t && cf_solves(dv, j);
        lemma_first_exists(dv, j);
    } else {
        lemma_first_solving_index(dv, t);
    }
}

/// The first solving index is the one where no earlier convergent solves.
pub proof fn lemma_first_solving_index(dv: int, k: nat)
    requires
        cf_solves(dv, k),
        forall|j: nat| j < k ==> !cf_solves(dv, j),
    ensures
        first_solving_index(dv) == k,
{
    let i = first_solving_index(dv);
    assert(cf_solves(dv, i) && forall|j: nat| j < i ==> !cf_solves(dv, j));
    if i < k {
        assert(!cf_solves(dv, i));
    } else if k < i {
        assert(!cf_solves(dv, k));
    }
}

} // verus!
