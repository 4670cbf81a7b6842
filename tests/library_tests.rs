use num_bigint::BigUint;
use pell991::{
    is_square_u64, pell_min_solution, pell_solution_k, pell_solutions, verify_pell_solution,
    BigNat, PellError, PellSolutionIterator,
};

fn num(v: u64) -> BigNat {
    BigNat::from_u64(v)
}

#[test]
fn scenario_d2_first_three() {
    let (x1, y1) = pell_min_solution(2).unwrap();
    assert_eq!((x1.to_decimal(), y1.to_decimal()), ("3".to_string(), "2".to_string()));
    let (x2, y2) = pell_solution_k(2, &x1, &y1, 2).unwrap();
    assert_eq!((x2.to_decimal(), y2.to_decimal()), ("17".to_string(), "12".to_string()));
    let (x3, y3) = pell_solution_k(2, &x1, &y1, 3).unwrap();
    assert_eq!((x3.to_decimal(), y3.to_decimal()), ("99".to_string(), "70".to_string()));
}

#[test]
fn scenario_d3_first_three() {
    let (x1, y1) = pell_min_solution(3).unwrap();
    assert_eq!((x1.to_decimal(), y1.to_decimal()), ("2".to_string(), "1".to_string()));
    let (x2, y2) = pell_solution_k(3, &x1, &y1, 2).unwrap();
    assert_eq!((x2.to_decimal(), y2.to_decimal()), ("7".to_string(), "4".to_string()));
    let (x3, y3) = pell_solution_k(3, &x1, &y1, 3).unwrap();
    assert_eq!((x3.to_decimal(), y3.to_decimal()), ("26".to_string(), "15".to_string()));
}

#[test]
fn scenario_d991() {
    let (x, y) = pell_min_solution(991).unwrap();
    assert_eq!(y.to_decimal(), "12055735790331359447442538767");
    assert_eq!(x.to_decimal(), "379516400906811930638014896080");
    assert!(verify_pell_solution(991, &x, &y));
}

#[test]
fn scenario_batch_empty_and_three() {
    assert!(pell_solutions(2, 0).unwrap().is_empty());
    // No D is looked at when nothing is asked for.
    assert!(pell_solutions(4, 0).unwrap().is_empty());
    let v = pell_solutions(2, 3).unwrap();
    let got: Vec<(String, String)> =
        v.iter().map(|(x, y)| (x.to_decimal(), y.to_decimal())).collect();
    let want: Vec<(String, String)> = [("3", "2"), ("17", "12"), ("99", "70")]
        .iter()
        .map(|(x, y)| (x.to_string(), y.to_string()))
        .collect();
    assert_eq!(got, want);
}

#[test]
fn error_conditions() {
    assert_eq!(pell_min_solution(0), Err(PellError::InvalidD(0)));
    assert_eq!(pell_min_solution(1), Err(PellError::InvalidD(1)));
    assert_eq!(pell_min_solution(4), Err(PellError::PerfectSquare(4)));
    assert_eq!(pell_min_solution(9), Err(PellError::PerfectSquare(9)));
    assert_eq!(pell_min_solution(16), Err(PellError::PerfectSquare(16)));
    assert_eq!(pell_solution_k(2, &num(3), &num(2), 0), Err(PellError::InvalidK(0)));
    assert_eq!(pell_solutions(1, 2).unwrap_err(), PellError::InvalidD(1));
    assert_eq!(pell_solutions(25, 2).unwrap_err(), PellError::PerfectSquare(25));
    assert_eq!(PellSolutionIterator::new(36).err(), Some(PellError::PerfectSquare(36)));
    assert_eq!(PellSolutionIterator::new(0).err(), Some(PellError::InvalidD(0)));
}

#[test]
fn error_messages() {
    assert_eq!(PellError::InvalidD(1).message(), "D must be > 1, got 1");
    assert_eq!(
        PellError::PerfectSquare(10000).message(),
        "D must be non-square, got 10000 which is 100²"
    );
    assert_eq!(PellError::InvalidK(0).message(), "k must be > 0, got 0");
    assert_eq!(
        PellError::InvalidD(18446744073709551615).message(),
        "D must be > 1, got 18446744073709551615"
    );
}

#[test]
fn round_trip_broad_range() {
    for d in 2..400u64 {
        if is_square_u64(d) {
            continue;
        }
        let (x, y) = pell_min_solution(d).unwrap();
        assert!(verify_pell_solution(d, &x, &y), "D = {}", d);
    }
}

#[test]
fn minimality_by_search() {
    for d in 2..60u64 {
        if is_square_u64(d) {
            continue;
        }
        let (x, _) = pell_min_solution(d).unwrap();
        let x: u64 = x.to_decimal().parse().unwrap();
        for a in 2..x {
            for b in 1..a {
                assert!(a * a != d * b * b + 1, "D = {}: ({}, {}) is smaller", d, a, b);
            }
        }
    }
}

#[test]
fn methods_agree_up_to_fifty() {
    for &d in &[2u64, 3, 7, 13, 61] {
        let (x1, y1) = pell_min_solution(d).unwrap();
        let batch = pell_solutions(d, 50).unwrap();
        let mut seq = PellSolutionIterator::new(d).unwrap();
        for k in 1..=50u64 {
            let by_power = pell_solution_k(d, &x1, &y1, k).unwrap();
            let by_batch = &batch[(k - 1) as usize];
            let by_seq = seq.next().unwrap();
            assert_eq!(&by_power, by_batch, "D = {}, k = {}", d, k);
            assert_eq!(by_power, by_seq, "D = {}, k = {}", d, k);
        }
    }
}

#[test]
fn solutions_increase() {
    let v = pell_solutions(13, 20).unwrap();
    for i in 1..v.len() {
        assert!(v[i - 1].0.lt(&v[i].0));
        assert!(v[i - 1].1.lt(&v[i].1));
    }
}

#[test]
fn reset_replays() {
    let mut seq = PellSolutionIterator::new(29).unwrap();
    let first = seq.take(6);
    seq.reset();
    assert_eq!(seq.current_k(), 1);
    let again = seq.take(6);
    assert_eq!(first, again);
    assert_eq!(seq.current_k(), 7);
}

#[test]
fn solution_k_one_returns_input() {
    let (x, y) = pell_solution_k(5, &num(9), &num(4), 1).unwrap();
    assert_eq!((x, y), (num(9), num(4)));
}

#[test]
fn big_arithmetic_goes_through_num_bigint() {
    let a = num(u64::MAX);
    let b = num(4294967296);
    let sum = a.add(&b);
    let prod = a.mul(&b);
    let want_sum = BigUint::from(u64::MAX) + BigUint::from(4294967296u64);
    let want_prod = BigUint::from(u64::MAX) * BigUint::from(4294967296u64);
    assert_eq!(sum.to_decimal(), want_sum.to_string());
    assert_eq!(prod.to_decimal(), want_prod.to_string());
    assert!(b.lt(&a));
    assert!(!a.lt(&b));
    assert!(!a.lt(&a));
    assert_eq!(num(0).to_decimal(), "0");
    assert_eq!(num(4294967295).add(&num(1)), num(4294967296));
    assert_eq!(num(0).mul(&a), num(0));
    assert_ne!(num(1), num(2));
    assert_eq!(a.duplicate(), a);
}
