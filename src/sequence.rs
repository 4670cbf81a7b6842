//! A lazy, resettable sequence of the solutions of x² − D·y² = 1.
use vstd::prelude::*;

use crate::bignat::BigNat;
use crate::cf::fundamental_solution;
use crate::error::PellError;
use crate::ring::{lemma_ring_pow_one, ring_mul, ring_pow};
use crate::solver::{pair_value, pair_values, pell_min_solution, ring_product};
use crate::utils::{is_square, valid_discriminant};

verus! {

/// The solutions (x_k, y_k) for k = 1, 2, …, handed out one at a time.
///
/// It keeps the fundamental solution, the pair to hand out next and its
/// 1-based index k; each step multiplies by the fundamental solution, and a
/// reset goes back to k = 1 without solving again.
pub struct PellSolutionIterator {
    d: u64,
    big_d: BigNat,
    x1: BigNat,
    y1: BigNat,
    x: BigNat,
    y: BigNat,
    k: u64,
}

impl PellSolutionIterator {
    /// The pair held is the k-th solution, k ≥ 1, of a valid D, and the
    /// fundamental solution held is that of D.
    pub closed spec fn wf(&self) -> bool {
        &&& valid_discriminant(self.d as int)
        &&& self.big_d.value() == self.d
        &&& pair_value(&self.x1, &self.y1) == fundamental_solution(self.d as int)
        &&& self.k >= 1
        &&& pair_value(&self.x, &self.y) == ring_pow(
            self.d as int,
            fundamental_solution(self.d as int),
            self.k as nat,
        )
    }

    /// The coefficient D of the equation.
    pub closed spec fn discriminant(&self) -> u64 {
        self.d
    }

    /// The index k of the solution that `next` hands out.
    pub closed spec fn position(&self) -> nat {
        self.k as nat
    }

    /// The k-th solution of this sequence's equation.
    pub open spec fn element(&self, k: nat) -> (int, int) {
        ring_pow(
            self.discriminant() as int,
            fundamental_solution(self.discriminant() as int),
            k,
        )
    }

    /// The `n` solutions that `next` hands out from the present position on,
    /// as long as the position can advance.
    pub open spec fn upcoming(&self, n: nat) -> Seq<(int, int)> {
        Seq::new(n, |i: int| self.element((self.position() + i) as nat))
    }

    /// A sequence for D that starts at the fundamental solution (k = 1).
    /// Refuses D as `pell_min_solution` does.
    pub fn new(d: u64) -> (r: Result<PellSolutionIterator, PellError>)
        ensures
            match r {
                Ok(s) => {
                    &&& s.wf()
                    &&& valid_discriminant(d as int)
                    &&& s.discriminant() == d
                    &&& s.position() == 1
                },
                Err(e) => {
                    &&& !valid_discriminant(d as int)
                    &&& d <= 1 ==> e == PellError::InvalidD(d)
                    &&& d > 1 ==> is_square(d as int) && e == PellError::PerfectSquare(d)
                },
            },
    {
        let (x1, y1) = match pell_min_solution(d) {
            Ok(s) => s,
            Err(e) => {
                return Err(e);
            },
        };
        proof {
            lemma_ring_pow_one(d as int, pair_value(&x1, &y1));
        }
        let x = x1.duplicate();
        let y = y1.duplicate();
        Ok(PellSolutionIterator { d, big_d: BigNat::from_u64(d), x1, y1, x, y, k: 1 })
    }

    /// Hands out the solution at the present position and moves on to the
    /// next one. Only a position of `u64::MAX`, which cannot advance, gives
    /// `None`.
    pub fn next(&mut self) -> (r: Option<(BigNat, BigNat)>)
        requires
            old(self).wf(),
        ensures
            final(self).wf(),
            final(self).discriminant() == old(self).discriminant(),
            match r {
                Some((x, y)) => {
                    &&& old(self).position() < u64::MAX
                    &&& pair_value(&x, &y) == old(self).element(old(self).position())
                    &&& final(self).position() == old(self).position() + 1
                },
                None => {
                    &&& old(self).position() == u64::MAX
                    &&& final(self).position() == old(self).position()
                },
            },
    {
        if self.k == u64::MAX {
            return None;
        }
        let (mut x, mut y) = ring_product(&self.big_d, &self.x, &self.y, &self.x1, &self.y1);
        let ghost b = fundamental_solution(self.d as int);
        assert(ring_pow(self.d as int, b, (self.k + 1) as nat) == ring_mul(
            self.d as int,
            ring_pow(self.d as int, b, self.k as nat),
            b,
        ));
        std::mem::swap(&mut self.x, &mut x);
        std::mem::swap(&mut self.y, &mut y);
        self.k = self.k + 1;
        Some((x, y))
    }

    /// Goes back to the fundamental solution (k = 1), without solving again.
    pub fn reset(&mut self)
        requires
            old(self).wf(),
        ensures
            final(self).wf(),
            final(self).discriminant() == old(self).discriminant(),
            final(self).position() == 1,
    {
        proof {
            lemma_ring_pow_one(self.d as int, pair_value(&self.x1, &self.y1));
        }
        self.x = self.x1.duplicate();
        self.y = self.y1.duplicate();
        self.k = 1;
    }

    /// The 1-based index of the solution that `next` hands out.
    pub fn current_k(&self) -> (r: u64)
        ensures
            r == self.position(),
    {
        self.k
    }

    /// Hands out up to `n` solutions through `next`: all `n` unless the
    /// position reaches `u64::MAX` first.
    pub fn take(&mut self, n: usize) -> (r: Vec<(BigNat, BigNat)>)
        requires
            old(self).wf(),
        ensures
            final(self).wf(),
            final(self).discriminant() == old(self).discriminant(),
            old(self).position() + n <= u64::MAX ==> {
                &&& r@.len() == n
                &&& final(self).position() == old(self).position() + n
                &&& pair_values(r@) == old(self).upcoming(n as nat)
            },
    {
        let mut out: Vec<(BigNat, BigNat)> = Vec::new();
        let ghost start = self.position();
        let ghost first = *self;
        let mut i: usize = 0;
        while i < n
            invariant
                first == *old(self),
                start == first.position(),
                i <= n,
                self.wf(),
                self.discriminant() == first.discriminant(),
                out@.len() == i,
                self.position() == start + i,
                pair_values(out@) == first.upcoming(i as nat),
            decreases n - i,
        {
            let ghost pre = *self;
            match self.next() {
                Some(pair) => {
                    let ghost before = out@;
                    out.push(pair);
                    assert(pair_values(out@) =~= first.upcoming((i + 1) as nat)) by {
                        assert(pair_values(out@) =~= pair_values(
                            before,
                        ).push(pair_value(&pair.0, &pair.1)));
                        assert(first.upcoming((i + 1) as nat) =~= first.upcoming(i as nat).push(
                            first.element((start + i) as nat),
                        ));
                    }
                },
                None => {
                    return out;
                },
            }
            i = i + 1;
        }
        out
    }
}

} // verus!
