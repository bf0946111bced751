use ecgen::{comb, factorial, stirling2nd, stirling2nd2};

#[test]
fn comb_test() {
    assert_eq!(comb(3, 2), 3);
    assert_eq!(comb(6, 4), comb(6, 2));
    assert_eq!(comb(6, 6), 1);
    assert_eq!(comb(0, 0), 1);
    assert_eq!(comb(0, 1), 1);
    assert_eq!(comb(1, 1), 1);
    assert_eq!(comb(1, 0), 1);
    assert_eq!(comb(2, 2), 1);
    assert_eq!(comb(2, 1), 2);
    assert_eq!(comb(2, 0), 1);
    assert_eq!(comb(3, 3), 1);
    assert_eq!(comb(3, 2), 3);
}

#[test]
fn factorial_values() {
    assert_eq!(factorial(0), 1);
    assert_eq!(factorial(1), 1);
    assert_eq!(factorial(4), 24);
    assert_eq!(factorial(5), 120);
}

#[test]
fn comb_values() {
    assert_eq!(comb(6, 3), 20);
    assert_eq!(comb(16, 5), 4368);
    assert_eq!(comb(15, 6), 5005);
}

#[test]
fn stirling2nd_values() {
    assert_eq!(stirling2nd(5, 3), 25);
    assert_eq!(stirling2nd(6, 3), 90);
    assert_eq!(stirling2nd(2, 2), 1);
    assert_eq!(stirling2nd(6, 6), 1);
    assert_eq!(stirling2nd(7, 1), 1);
}

#[test]
fn stirling2nd2_values() {
    assert_eq!(stirling2nd2(1), 1);
    assert_eq!(stirling2nd2(2), 1);
    assert_eq!(stirling2nd2(5), 15);
    assert_eq!(stirling2nd2(10), 511);
}
