use num_bigint::BigInt;
use num_traits::One;
use pell991::{
    is_square_u64, isqrt_u64, pell_min_solution, pell_solution_k, pell_solutions,
    verify_pell_solution, BigNat, PellError,
};

fn big(x: &BigNat) -> BigInt {
    BigInt::parse_bytes(x.to_decimal().as_bytes(), 10).unwrap()
}

fn num(v: u64) -> BigNat {
    BigNat::from_u64(v)
}

#[test]
fn main_test_is_square_u64() {
    assert!(is_square_u64(0));
    assert!(is_square_u64(1));
    assert!(is_square_u64(4));
    assert!(is_square_u64(9));
    assert!(is_square_u64(16));
    assert!(is_square_u64(25));
    assert!(is_square_u64(100));
    assert!(is_square_u64(10000));
    assert!(!is_square_u64(2));
    assert!(!is_square_u64(3));
    assert!(!is_square_u64(5));
    assert!(!is_square_u64(991));
    assert!(!is_square_u64(999));
}

#[test]
fn main_test_isqrt_u64() {
    assert_eq!(isqrt_u64(0), 0);
    assert_eq!(isqrt_u64(1), 1);
    assert_eq!(isqrt_u64(2), 1);
    assert_eq!(isqrt_u64(3), 1);
    assert_eq!(isqrt_u64(4), 2);
    assert_eq!(isqrt_u64(8), 2);
    assert_eq!(isqrt_u64(9), 3);
    assert_eq!(isqrt_u64(15), 3);
    assert_eq!(isqrt_u64(16), 4);
    assert_eq!(isqrt_u64(991), 31);
    assert_eq!(isqrt_u64(u64::MAX), 4294967295);
}

#[test]
fn main_test_pell_min_solution_small_cases() {
    let (x, y) = pell_min_solution(2).unwrap();
    assert_eq!(x, num(3));
    assert_eq!(y, num(2));
    let verification = big(&x) * big(&x) - BigInt::from(2) * big(&y) * big(&y);
    assert_eq!(verification, BigInt::one());

    let (x, y) = pell_min_solution(3).unwrap();
    assert_eq!(x, num(2));
    assert_eq!(y, num(1));
    let verification = big(&x) * big(&x) - BigInt::from(3) * big(&y) * big(&y);
    assert_eq!(verification, BigInt::one());
}

#[test]
fn main_test_pell_solution_k() {
    let d = 2u64;
    let (x1, y1) = pell_min_solution(d).unwrap();

    let (x, y) = pell_solution_k(d, &x1, &y1, 1).unwrap();
    assert_eq!(x, x1);
    assert_eq!(y, y1);

    let (x2, y2) = pell_solution_k(d, &x1, &y1, 2).unwrap();
    assert_eq!(x2, num(17));
    assert_eq!(y2, num(12));

    let verification = big(&x2) * big(&x2) - BigInt::from(d) * big(&y2) * big(&y2);
    assert_eq!(verification, BigInt::one());
}

#[test]
fn main_test_pell_solution_verification() {
    let test_cases = [2, 3, 5, 6, 7, 8, 10, 11, 12, 13];
    for &d in &test_cases {
        let (x, y) = pell_min_solution(d).unwrap();
        let verification = big(&x) * big(&x) - BigInt::from(d) * big(&y) * big(&y);
        assert_eq!(
            verification,
            BigInt::one(),
            "Failed for D={}: {}^2 - {}*{}^2 != 1",
            d,
            x.to_decimal(),
            d,
            y.to_decimal()
        );
    }
}

#[test]
fn main_test_pell_error_handling() {
    assert_eq!(pell_min_solution(0), Err(PellError::InvalidD(0)));
    assert_eq!(pell_min_solution(1), Err(PellError::InvalidD(1)));

    assert_eq!(pell_min_solution(4), Err(PellError::PerfectSquare(4)));
    assert_eq!(pell_min_solution(9), Err(PellError::PerfectSquare(9)));
    assert_eq!(pell_min_solution(16), Err(PellError::PerfectSquare(16)));

    let (x1, y1) = pell_min_solution(2).unwrap();
    assert_eq!(pell_solution_k(2, &x1, &y1, 0), Err(PellError::InvalidK(0)));
}

#[test]
fn main_test_error_display() {
    assert_eq!(PellError::InvalidD(0).message(), "D must be > 1, got 0");
    assert_eq!(
        PellError::PerfectSquare(4).message(),
        "D must be non-square, got 4 which is 2²"
    );
    assert_eq!(PellError::InvalidK(0).message(), "k must be > 0, got 0");
}

#[test]
fn main_test_verify_pell_solution() {
    assert!(verify_pell_solution(2, &num(3), &num(2)));
    assert!(verify_pell_solution(3, &num(2), &num(1)));
    assert!(verify_pell_solution(2, &num(17), &num(12)));

    assert!(!verify_pell_solution(2, &num(2), &num(1)));
    assert!(!verify_pell_solution(3, &num(3), &num(2)));
}

#[test]
fn main_test_pell_solutions() {
    let solutions = pell_solutions(2, 3).unwrap();
    assert_eq!(solutions.len(), 3);

    for (i, (x, y)) in solutions.iter().enumerate() {
        assert!(verify_pell_solution(2, x, y), "Solution {} failed verification", i + 1);
    }

    let empty = pell_solutions(2, 0).unwrap();
    assert!(empty.is_empty());

    assert!(pell_solutions(4, 1).is_err());
}
