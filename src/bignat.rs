//! Natural numbers of any size, held as little-endian base-2³² digits; the
//! arithmetic itself is num-bigint's.
use num_bigint::BigUint;
use vstd::prelude::*;

use crate::decimal::decimal_of;

verus! {

/// The number that little-endian base-2³² digits stand for.
pub open spec fn nat_of(ds: Seq<u32>) -> nat
    decreases ds.len(),
{
    if ds.len() == 0 {
        0
    } else {
        (ds[0] as nat + 4294967296 * nat_of(ds.skip(1))) as nat
    }
}

/// Digits without a high zero: the one way of writing each number.
pub open spec fn canonical(ds: Seq<u32>) -> bool {
    ds.len() == 0 || ds.last() != 0
}

/// A non-empty canonical digit sequence stands for a positive number.
proof fn lemma_canonical_positive(ds: Seq<u32>)
    requires
        canonical(ds),
        ds.len() > 0,
    ensures
        nat_of(ds) > 0,
    decreases ds.len(),
{
    if ds.len() > 1 {
        assert(ds.skip(1).last() == ds.last());
        lemma_canonical_positive(ds.skip(1));
    }
}

/// Two canonical digit sequences of one number are the same sequence.
proof fn lemma_canonical_unique(a: Seq<u32>, b: Seq<u32>)
    requires
        canonical(a),
        canonical(b),
        nat_of(a) == nat_of(b),
    ensures
        a == b,
    decreases a.len(),
{
    if a.len() == 0 {
        if b.len() > 0 {
            lemma_canonical_positive(b);
        }
        assert(a =~= b);
    } else if b.len() == 0 {
        lemma_canonical_positive(a);
    } else {
        let x = nat_of(a.skip(1));
        let y = nat_of(b.skip(1));
        let a0 = a[0] as int;
        let b0 = b[0] as int;
        assert(a0 == b0 && x == y) by (nonlinear_arith)
            requires
                0 <= a0 < 4294967296,
                0 <= b0 < 4294967296,
                0 <= x,
                0 <= y,
                a0 + 4294967296 * x == b0 + 4294967296 * y,
        ;
        if a.len() > 1 {
            assert(a.skip(1).last() == a.last());
        }
        if b.len() > 1 {
            assert(b.skip(1).last() == b.last());
        }
        lemma_canonical_unique(a.skip(1), b.skip(1));
        assert(a =~= seq![a[0]] + a.skip(1));
        assert(b =~= seq![b[0]] + b.skip(1));
    }
}

/// Relies on num-bigint: `BigUint::new` reads little-endian base-2³² digits,
/// `+` adds, and `to_u32_digits` gives the sum's digits without high zeros.
#[verifier::external_body]
fn digits_add(a: &Vec<u32>, b: &Vec<u32>) -> (r: Vec<u32>)
    ensures
        canonical(r@),
        nat_of(r@) == nat_of(a@) + nat_of(b@),
{
    (BigUint::new(a.clone()) + BigUint::new(b.clone())).to_u32_digits()
}

/// Relies on num-bigint: `BigUint::new` reads little-endian base-2³² digits,
/// `*` multiplies, and `to_u32_digits` gives the product's digits without
/// high zeros.
#[verifier::external_body]
fn digits_mul(a: &Vec<u32>, b: &Vec<u32>) -> (r: Vec<u32>)
    ensures
        canonical(r@),
        nat_of(r@) == nat_of(a@) * nat_of(b@),
{
    (BigUint::new(a.clone()) * BigUint::new(b.clone())).to_u32_digits()
}

/// Relies on num-bigint: `BigUint::new` reads little-endian base-2³² digits
/// and `<` orders the numbers.
#[verifier::external_body]
fn digits_lt(a: &Vec<u32>, b: &Vec<u32>) -> (r: bool)
    ensures
        r == (nat_of(a@) < nat_of(b@)),
{
    BigUint::new(a.clone()) < BigUint::new(b.clone())
}

/// Relies on num-bigint: `BigUint::new` reads little-endian base-2³² digits
/// and `to_str_radix(10)` writes the number in decimal ("0" for zero).
#[verifier::external_body]
fn digits_to_decimal(a: &Vec<u32>) -> (r: String)
    ensures
        r@ == decimal_of(nat_of(a@)),
{
    BigUint::new(a.clone()).to_str_radix(10)
}

/// A natural number of any size.
#[derive(Debug)]
pub struct BigNat {
    digits: Vec<u32>,
}

impl BigNat {
    #[verifier::type_invariant]
    spec fn inv(self) -> bool {
        canonical(self.digits@)
    }

    /// The number.
    pub closed spec fn value(&self) -> nat {
        nat_of(self.digits@)
    }

    /// The number `n`.
    pub fn from_u64(n: u64) -> (r: BigNat)
        ensures
            r.value() == n,
    {
        let lo = (n % 4294967296) as u32;
        let hi = (n / 4294967296) as u32;
        let digits: Vec<u32>;
        if n == 0 {
            digits = Vec::new();
        } else if hi == 0 {
            digits = vec![lo];
            assert(digits@.skip(1) =~= Seq::<u32>::empty());
        } else {
            digits = vec![lo, hi];
            assert(digits@.skip(1) =~= seq![hi]);
            assert(digits@.skip(1).skip(1) =~= Seq::<u32>::empty());
        }
        proof {
            reveal_with_fuel(nat_of, 3);
        }
        BigNat { digits }
    }

    /// The sum of two numbers.
    pub fn add(&self, other: &BigNat) -> (r: BigNat)
        ensures
            r.value() == self.value() + other.value(),
    {
        BigNat { digits: digits_add(&self.digits, &other.digits) }
    }

    /// The product of two numbers.
    pub fn mul(&self, other: &BigNat) -> (r: BigNat)
        ensures
            r.value() == self.value() * other.value(),
    {
        BigNat { digits: digits_mul(&self.digits, &other.digits) }
    }

    /// Whether this number is less than `other`.
    pub fn lt(&self, other: &BigNat) -> (r: bool)
        ensures
            r == (self.value() < other.value()),
    {
        digits_lt(&self.digits, &other.digits)
    }

    /// Whether the two numbers are equal.
    pub fn equals(&self, other: &BigNat) -> (r: bool)
        ensures
            r == (self.value() == other.value()),
    {
        proof {
            use_type_invariant(self);
            use_type_invariant(other);
        }
        let a = &self.digits;
        let b = &other.digits;
        if a.len() != b.len() {
            assert(a@ != b@);
            proof {
                if self.value() == other.value() {
                    lemma_canonical_unique(a@, b@);
                }
            }
            return false;
        }
        let mut i: usize = 0;
        while i < a.len()
            invariant
                a.len() == b.len(),
                i <= a.len(),
                canonical(a@),
                canonical(b@),
                a@ == self.digits@,
                b@ == other.digits@,
                forall|j: int| 0 <= j < i ==> a@[j] == b@[j],
            decreases a.len() - i,
        {
            if a[i] != b[i] {
                assert(a@[i as int] != b@[i as int]);
                proof {
                    if self.value() == other.value() {
                        lemma_canonical_unique(a@, b@);
                    }
                }
                return false;
            }
            i = i + 1;
        }
        assert(a@ =~= b@);
        true
    }

    /// A second copy of the number.
    pub fn duplicate(&self) -> (r: BigNat)
        ensures
            r.value() == self.value(),
    {
        proof {
            use_type_invariant(self);
        }
        let digits = self.digits.clone();
        assert(digits@ =~= self.digits@);
        BigNat { digits }
    }

    /// The number in decimal notation.
    pub fn to_decimal(&self) -> (r: String)
        ensures
            r@ == decimal_of(self.value()),
    {
        digits_to_decimal(&self.digits)
    }
}

impl PartialEq for BigNat {
    fn eq(&self, other: &BigNat) -> (r: bool) {
        self.equals(other)
    }
}

impl vstd::std_specs::cmp::PartialEqSpecImpl for BigNat {
    open spec fn obeys_eq_spec() -> bool {
        true
    }

    open spec fn eq_spec(&self, other: &BigNat) -> bool {
        self.value() == other.value()
    }
}

} // verus!
