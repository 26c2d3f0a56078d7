use gkr::dense_polynomial::DensePolynomial;
use gkr::field::FieldElement;
use gkr::shamir::create_polynomial;
use gkr::shamir::polynomial_with;
use gkr::shamir::recover_secret;
use gkr::shamir::shares_from;
use gkr::shamir::split_secret;

fn f(x: u64) -> FieldElement {
    FieldElement::from_u64(x)
}

fn fs(xs: &[u64]) -> Vec<FieldElement> {
    xs.iter().map(|x| f(*x)).collect()
}

#[test]
fn test_create_polynomial() {
    let secret = f(1234567890);
    let polynomial = create_polynomial(secret, 2);
    assert_eq!(polynomial.degree(), 2);
    assert_eq!(polynomial.coefficients[0], secret);
}

#[test]
fn test_split_secrest() {
    let secret = f(1234567890);
    let shares = split_secret(secret, 5, 3);
    assert_eq!(shares.len(), 5);
    // Check that the first share is not zero
    assert_ne!(shares[0].1, f(0));
}

#[test]
fn test_recover_secret() {
    let secret = f(1234567890);
    let shares = split_secret(secret, 5, 3);
    let recovered = recover_secret(&shares, 3);
    assert_eq!(recovered, secret);
}

#[test]
fn test_recover_secret_with_extra_shares() {
    // Test recovering the secret with more shares than the threshold
    let secret = f(1234567890);
    let shares = split_secret(secret, 5, 3);
    let recovered = recover_secret(&shares, 4);
    assert_eq!(recovered, secret);
}

#[test]
fn test_recover_secret_with_minimum_shares() {
    // Test recovering the secret with exactly the threshold number of shares
    let secret = f(1234567890);
    let shares = split_secret(secret, 5, 3);
    let recovered = recover_secret(&shares[..3], 3);
    assert_eq!(recovered, secret);
}

#[test]
fn test_recover_secret_with_lower_threshold() {
    let secret = f(1234567890);
    let shares = split_secret(secret, 5, 3);
    let recovered = recover_secret(&shares, 2);
    assert_ne!(recovered, secret);
}

#[test]
fn test_create_poly() {
    let secret = f(12345);
    let poly = create_polynomial(secret, 2);
    assert_eq!(poly.coefficients[0], secret);
}

#[test]
fn test_split_secret() {
    let secret = f(12345);
    let shares = split_secret(secret, 5, 3);
    let recover_secret = recover_secret(&shares, 3);
    assert_eq!(recover_secret, secret);
}

#[test]
fn shares_are_the_points_at_one_two_and_so_on() {
    // 7 + 2x + x^2.
    let polynomial = polynomial_with(f(7), &fs(&[2, 1]));
    assert_eq!(polynomial.coefficients, fs(&[7, 2, 1]));
    let shares = shares_from(&polynomial, 4);
    assert_eq!(shares, vec![(f(1), f(10)), (f(2), f(15)), (f(3), f(22)), (f(4), f(31))]);
    assert_eq!(recover_secret(&shares, 3), f(7));
    assert_eq!(recover_secret(&shares[1..], 3), f(7));
    assert_eq!(shares_from(&polynomial, 0), vec![]);
}

#[test]
fn zeros_drawn_last_are_dropped() {
    assert_eq!(polynomial_with(f(7), &fs(&[2, 0])).coefficients, fs(&[7, 2]));
    assert_eq!(polynomial_with(f(7), &vec![]).coefficients, fs(&[7]));
    assert_eq!(create_polynomial(f(7), 0).coefficients, fs(&[7]));
    let constant = DensePolynomial::new(fs(&[7]));
    assert_eq!(shares_from(&constant, 2), vec![(f(1), f(7)), (f(2), f(7))]);
}

#[test]
fn random_elements_differ() {
    let a = FieldElement::random();
    let b = FieldElement::random();
    let c = FieldElement::random();
    assert!(a != b || b != c);
}
