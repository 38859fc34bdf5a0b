// Tests of what the user programs print.

use ferros::programs::{prime_by_trial_division, primecheck, squares};

#[test]
fn squares_table_rows() {
    let mut out = Vec::new();
    squares(100, &mut out);
    let text = String::from_utf8(out).unwrap();
    let rows: Vec<&str> = text.split_terminator("\r\n").collect();
    assert_eq!(rows.len(), 100);
    assert_eq!(rows[0], "1\t1\t1");
    assert_eq!(rows[1], "2\t4\t3");
    assert_eq!(rows[99], "100\t10000\t199");
    for (i, row) in rows.iter().enumerate() {
        let n = i as i64 + 1;
        assert_eq!(*row, format!("{}\t{}\t{}", n, n * n, 2 * n - 1));
    }
}

#[test]
fn squares_of_nothing_prints_nothing() {
    let mut out = b"x".to_vec();
    squares(0, &mut out);
    squares(-5, &mut out);
    assert_eq!(out, b"x");
}

#[test]
fn trial_division_finds_primes() {
    let primes: Vec<u32> = (2..30).filter(|&n| prime_by_trial_division(n)).collect();
    assert_eq!(primes, vec![2, 3, 5, 7, 11, 13, 17, 19, 23, 29]);
    assert!(prime_by_trial_division(7919));
    assert!(!prime_by_trial_division(7917));
}

#[test]
fn first_milestone_is_7919() {
    let mut out = Vec::new();
    primecheck(7919, &mut out);
    assert!(out.is_empty());
    primecheck(7920, &mut out);
    assert_eq!(
        out,
        b"primecheck: Found another 1000 primes; last one was 7919!\r\n"
    );
}
