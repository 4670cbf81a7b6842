//! Exact integer square roots over `u64`.
use vstd::prelude::*;

verus! {

/// `r` is the floor of the square root of `n`.
pub open spec fn is_floor_sqrt(n: int, r: int) -> bool {
    0 <= r && r * r <= n && n < (r + 1) * (r + 1)
}

/// The floor of the square root of a non-negative `n`.
pub open spec fn floor_sqrt(n: int) -> int {
    choose|r: int| is_floor_sqrt(n, r)
}

/// `n` is the square of an integer.
pub open spec fn is_square(n: int) -> bool {
    exists|r: int| 0 <= r && #[trigger] (r * r) == n
}

/// `d` admits the Pell equation: it is greater than one and not a square.
pub open spec fn valid_discriminant(d: int) -> bool {
    d > 1 && !is_square(d)
}

/// The floor square root is unique.
pub proof fn lemma_floor_sqrt_unique(n: int, r: int, s: int)
    requires
        is_floor_sqrt(n, r),
        is_floor_sqrt(n, s),
    ensures
        r == s,
{
    if r < s {
        assert((r + 1) * (r + 1) <= s * s) by (nonlinear_arith)
            requires
                0 <= r,
                r + 1 <= s,
        ;
    } else if s < r {
        assert((s + 1) * (s + 1) <= r * r) by (nonlinear_arith)
            requires
                0 <= s,
                s + 1 <= r,
        ;
    }
}

/// `n` is a square exactly when its floor square root squares back to it.
pub proof fn lemma_square_iff_root(n: int, r: int)
    requires
        is_floor_sqrt(n, r),
    ensures
        is_square(n) <==> r * r == n,
{
    if is_square(n) {
        let s = choose|s: int| 0 <= s && #[trigger] (s * s) == n;
        assert(is_floor_sqrt(n, s)) by {
            assert(s * s < (s + 1) * (s + 1)) by (nonlinear_arith)
                requires
                    0 <= s,
            ;
        }
        lemma_floor_sqrt_unique(n, r, s);
    }
    if r * r == n {
        assert(0 <= r && r * r == n);
    }
}

/// Floor of the square root of `n`: the `r` with `r² ≤ n < (r + 1)²`, exact
/// over the whole range of `u64`.
pub fn isqrt_u64(n: u64) -> (r: u64)
    ensures
        is_floor_sqrt(n as int, r as int),
        r == floor_sqrt(n as int),
{
    // Binary search on [lo, hi) keeping lo² ≤ n < hi².
    let mut lo: u64 = 0;
    let mut hi: u64 = 4294967296;
    assert(n < 4294967296 * 4294967296);
    while hi - lo > 1
        invariant
            lo < hi <= 4294967296,
            lo * lo <= n,
            n < hi * hi,
        decreases hi - lo,
    {
        let mid: u64 = lo + (hi - lo) / 2;
        assert(mid * mid <= 4294967295 * 4294967295) by (nonlinear_arith)
            requires
                mid < 4294967296,
        ;
        if mid * mid <= n {
            lo = mid;
        } else {
            hi = mid;
        }
    }
    assert(hi == lo + 1);
    proof {
        lemma_floor_sqrt_unique(n as int, lo as int, floor_sqrt(n as int));
    }
    lo
}

/// Whether `n` is a perfect square.
pub fn is_square_u64(n: u64) -> (b: bool)
    ensures
        b == is_square(n as int),
{
    let r = isqrt_u64(n);
    proof {
        lemma_square_iff_root(n as int, r as int);
    }
    assert(r * r <= n);
    r * r == n
}

/// Whether `d` is a valid coefficient of the Pell equation: `d > 1` and
/// `d` is not a perfect square.
pub fn is_valid_pell_d(d: u64) -> (b: bool)
    ensures
        b == valid_discriminant(d as int),
{
    d > 1 && !is_square_u64(d)
}

} // verus!
