//! Solutions of x² − D·y² = 1: checking a pair, the k-th power of the
//! fundamental solution, and batches of consecutive solutions.
use vstd::arithmetic::div_mod::{lemma_fundamental_div_mod, lemma_mod_pos_bound};
use vstd::prelude::*;

use crate::bignat::BigNat;
use crate::cf::{
    cf_conv, cf_quot, cf_solves, cf_state, fundamental_solution, lemma_cf_solves_exists,
    lemma_first_solving_index, lemma_root_facts, lemma_state_reduced, lemma_step_reduced, reduced,
};
use crate::error::PellError;
use crate::utils::{floor_sqrt, is_square, is_square_u64, isqrt_u64, valid_discriminant};
use crate::ring::{
    follows_recurrence, is_pell, lemma_recurrence_is_power, lemma_ring_mul_assoc, lemma_ring_pow_add, lemma_ring_pow_one, lemma_ring_pow_square,
    lemma_ring_unit, ring_mul, ring_pow,
};

verus! {

/// The element x + y·√D of Z[√D] that a pair of numbers stands for.
pub open spec fn pair_value(x: &BigNat, y: &BigNat) -> (int, int) {
    (x.value() as int, y.value() as int)
}

/// The product of (ax, ay) and (bx, by) in Z[√d].
pub(crate) fn ring_product(d: &BigNat, ax: &BigNat, ay: &BigNat, bx: &BigNat, by: &BigNat) -> (r: (
    BigNat,
    BigNat,
))
    ensures
        pair_value(&r.0, &r.1) == ring_mul(d.value() as int, pair_value(ax, ay), pair_value(bx, by)),
{
    let x = ax.mul(bx).add(&d.mul(ay).mul(by));
    let y = ax.mul(by).add(&ay.mul(bx));
    (x, y)
}

/// Whether (x, y) solves x² − d·y² = 1, that is whether x² = d·y² + 1.
pub fn verify_pell_solution(d: u64, x: &BigNat, y: &BigNat) -> (r: bool)
    ensures
        r == is_pell(d as int, x.value() as int, y.value() as int),
{
    let lhs = x.mul(x);
    let rhs = BigNat::from_u64(d).mul(y).mul(y).add(&BigNat::from_u64(1));
    lhs.equals(&rhs)
}

/// The k-th solution (x1 + y1·√d)^k, computed by binary exponentiation in
/// Z[√d]; k = 1 gives (x1, y1) back, and k = 0 is refused with `InvalidK`.
pub fn pell_solution_k(d: u64, x1: &BigNat, y1: &BigNat, k: u64) -> (r: Result<
    (BigNat, BigNat),
    PellError,
>)
    ensures
        match r {
            Ok((x, y)) => k > 0 && pair_value(&x, &y) == ring_pow(d as int, pair_value(x1, y1), k as nat),
            Err(e) => k == 0 && e == PellError::InvalidK(k),
        },
{
    if k == 0 {
        return Err(PellError::InvalidK(k));
    }
    let ghost b = pair_value(x1, y1);
    if k == 1 {
        proof {
            lemma_ring_pow_one(d as int, b);
        }
        return Ok((x1.duplicate(), y1.duplicate()));
    }
    let dd = BigNat::from_u64(d);
    let mut x = BigNat::from_u64(1);
    let mut y = BigNat::from_u64(0);
    let mut base_x = x1.duplicate();
    let mut base_y = y1.duplicate();
    let mut exp = k;
    proof {
        lemma_ring_unit(d as int, ring_pow(d as int, b, k as nat));
    }
    while exp > 0
        invariant
            dd.value() == d,
            ring_mul(d as int, pair_value(&x, &y), ring_pow(d as int, pair_value(&base_x, &base_y), exp as nat))
                == ring_pow(d as int, b, k as nat),
        decreases exp,
    {
        let ghost acc = pair_value(&x, &y);
        let ghost base = pair_value(&base_x, &base_y);
        let ghost half = (exp / 2) as nat;
        if exp % 2 == 1 {
            let (nx, ny) = ring_product(&dd, &x, &y, &base_x, &base_y);
            x = nx;
            y = ny;
        }
        let (sx, sy) = ring_product(&dd, &base_x, &base_y, &base_x, &base_y);
        proof {
            let dd_ = d as int;
            lemma_ring_pow_square(dd_, base, half);
            if exp % 2 == 1 {
                lemma_ring_pow_add(dd_, base, 1, 2 * half);
                lemma_ring_pow_one(dd_, base);
                assert(1 + 2 * half == exp as nat);
                lemma_ring_mul_assoc(dd_, acc, base, ring_pow(dd_, base, 2 * half));
            } else {
                assert(2 * half == exp as nat);
            }
        }
        base_x = sx;
        base_y = sy;
        exp = exp / 2;
    }
    proof {
        lemma_ring_unit(d as int, pair_value(&x, &y));
    }
    Ok((x, y))
}

/// The fundamental solution of x² − D·y² = 1: the first convergent p/q of
/// the continued fraction of √D with p² = D·q² + 1.
///
/// Refuses D ≤ 1 with `InvalidD` and a perfect square D with
/// `PerfectSquare`, before any computation.
pub fn pell_min_solution(d_constant: u64) -> (r: Result<(BigNat, BigNat), PellError>)
    ensures
        d_constant <= 1 ==> r == Err::<(BigNat, BigNat), PellError>(
            PellError::InvalidD(d_constant),
        ),
        d_constant > 1 && is_square(d_constant as int) ==> r == Err::<(BigNat, BigNat), PellError>(
            PellError::PerfectSquare(d_constant),
        ),
        valid_discriminant(d_constant as int) ==> match r {
            Ok((x, y)) => {
                &&& pair_value(&x, &y) == fundamental_solution(d_constant as int)
                &&& is_pell(d_constant as int, x.value() as int, y.value() as int)
                &&& x.value() > 0
                &&& y.value() > 0
            },
            Err(_) => false,
        },
{
    if d_constant <= 1 {
        return Err(PellError::InvalidD(d_constant));
    }
    if is_square_u64(d_constant) {
        return Err(PellError::PerfectSquare(d_constant));
    }
    let ghost dv = d_constant as int;
    let a0 = isqrt_u64(d_constant);
    proof {
        lemma_root_facts(dv);
    }
    let ghost target = lemma_cf_solves_exists(dv);

    // Surd parameters of step k; a is its partial quotient.
    let mut m: i128 = 0;
    let mut d: i128 = 1;
    let mut a: i128 = a0 as i128;
    // Convergents k − 1 and k.
    let mut p_prev = BigNat::from_u64(1);
    let mut q_prev = BigNat::from_u64(0);
    let mut p = BigNat::from_u64(a0);
    let mut q = BigNat::from_u64(1);
    let big_d = BigNat::from_u64(d_constant);
    let one = BigNat::from_u64(1);
    let ghost mut k: nat = 0;
    assert(cf_state(dv, 0) == (0int, 1int));
    assert(cf_conv(dv, 0) == ((1int, 0int), (a0 as int, 1int)));
    loop
        invariant
            dv == d_constant,
            valid_discriminant(dv),
            a0 == floor_sqrt(dv),
            a0 * a0 < dv,
            big_d.value() == dv,
            one.value() == 1,
            cf_solves(dv, target),
            k <= target,
            (m as int, d as int) == cf_state(dv, k),
            a as int == cf_quot(dv, k),
            k == 0 ==> m == 0 && d == 1,
            k > 0 ==> reduced(dv, cf_state(dv, k)),
            cf_conv(dv, k) == (pair_value(&p_prev, &q_prev), pair_value(&p, &q)),
            forall|j: nat| j < k ==> !cf_solves(dv, j),
            p.value() >= 1,
            q.value() >= 1,
        decreases target - k,
    {
        let lhs = p.mul(&p);
        let rhs = big_d.mul(&q).mul(&q).add(&one);
        if lhs.equals(&rhs) {
            proof {
                lemma_first_solving_index(dv, k);
            }
            return Ok((p, q));
        }
        assert(k < target);
        proof {
            if k > 0 {
                lemma_step_reduced(dv, cf_state(dv, k));
            }
            lemma_state_reduced(dv, k + 1);
            lemma_step_reduced(dv, cf_state(dv, k + 1));
            lemma_fundamental_div_mod(a0 + m, d as int);
            lemma_mod_pos_bound(a0 + m, d as int);
        }
        assert(d * a <= a0 + m);
        m = d * a - m;
        assert(cf_state(dv, k + 1).0 == m);
        assert(0 <= m * m <= a0 * a0) by (nonlinear_arith)
            requires
                1 <= m <= a0,
        ;
        d = (d_constant as i128 - m * m) / d;
        assert(cf_state(dv, k + 1) == (m as int, d as int));
        a = (a0 as i128 + m) / d;
        assert(a as int == cf_quot(dv, k + 1));
        assert(a0 < 4294967296) by (nonlinear_arith)
            requires
                a0 * a0 < dv,
                dv <= 18446744073709551615,
        ;
        assert(1 <= a <= a0 + m);
        let a_big = BigNat::from_u64(a as u64);
        let p_next = a_big.mul(&p).add(&p_prev);
        let q_next = a_big.mul(&q).add(&q_prev);
        assert(a_big.value() == a);
        proof {
            assert(a_big.value() * p.value() >= p.value()) by (nonlinear_arith)
                requires
                    a_big.value() >= 1,
            ;
            assert(a_big.value() * q.value() >= q.value()) by (nonlinear_arith)
                requires
                    a_big.value() >= 1,
            ;
            k = k + 1;
        }
        p_prev = p;
        q_prev = q;
        p = p_next;
        q = q_next;
    }
}

/// The elements of Z[√D] that a list of pairs stands for.
pub open spec fn pair_values(v: Seq<(BigNat, BigNat)>) -> Seq<(int, int)> {
    Seq::new(v.len(), |i: int| pair_value(&v[i].0, &v[i].1))
}

/// The first `count` solutions (k = 1 ..= count) in increasing order, each
/// from the one before by the recurrence
/// x_k = x₁·x_(k−1) + D·y₁·y_(k−1), y_k = x₁·y_(k−1) + y₁·x_(k−1).
///
/// `count = 0` gives an empty list without looking at D; otherwise D is
/// refused as by `pell_min_solution`.
pub fn pell_solutions(d: u64, count: usize) -> (r: Result<Vec<(BigNat, BigNat)>, PellError>)
    ensures
        count > 0 && d <= 1 ==> r == Err::<Vec<(BigNat, BigNat)>, PellError>(PellError::InvalidD(d)),
        count > 0 && d > 1 && is_square(d as int) ==> r == Err::<Vec<(BigNat, BigNat)>, PellError>(
            PellError::PerfectSquare(d),
        ),
        count == 0 || valid_discriminant(d as int) ==> match r {
            Ok(v) => {
                &&& v@.len() == count
                &&& count > 0 ==> follows_recurrence(
                    d as int,
                    fundamental_solution(d as int),
                    pair_values(v@),
                )
                &&& forall|i: int|
                    0 <= i < count ==> #[trigger] pair_value(&v@[i].0, &v@[i].1) == ring_pow(
                        d as int,
                        fundamental_solution(d as int),
                        (i + 1) as nat,
                    )
            },
            Err(_) => false,
        },
{
    if count == 0 {
        let v: Vec<(BigNat, BigNat)> = Vec::new();
        return Ok(v);
    }
    let (x1, y1) = match pell_min_solution(d) {
        Ok(s) => s,
        Err(e) => {
            return Err(e);
        },
    };
    let ghost b = pair_value(&x1, &y1);
    let dd = BigNat::from_u64(d);
    let mut out: Vec<(BigNat, BigNat)> = Vec::new();
    out.push((x1.duplicate(), y1.duplicate()));
    while out.len() < count
        invariant
            1 <= out@.len() <= count,
            dd.value() == d,
            b == pair_value(&x1, &y1),
            follows_recurrence(d as int, b, pair_values(out@)),
        decreases count - out@.len(),
    {
        let n = out.len();
        let (nx, ny) = ring_product(&dd, &out[n - 1].0, &out[n - 1].1, &x1, &y1);
        let ghost before = out@;
        out.push((nx, ny));
        assert(pair_values(out@) == pair_values(before).push(ring_mul(d as int, pair_values(before)[n - 1], b)));
    }
    assert forall|i: int| 0 <= i < count implies #[trigger] pair_value(&out@[i].0, &out@[i].1) == ring_pow(
        d as int,
        b,
        (i + 1) as nat,
    ) by {
        lemma_recurrence_is_power(d as int, b, pair_values(out@), (i + 1) as nat);
    }
    Ok(out)
}

} // verus!
