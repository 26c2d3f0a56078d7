use gkr::sparse_polynomial::pow_u32;
use gkr::sparse_polynomial::SparsePolynomial;

#[test]
fn degree_is_the_greatest_exponent() {
    let poly = SparsePolynomial::new(vec![(2, 1), (5, 0)]);
    assert_eq!(poly.degree(), 1);
    let poly = SparsePolynomial::new(vec![(1, 3), (4, 7), (2, 5)]);
    assert_eq!(poly.degree(), 7);
    assert_eq!(poly.coefficients, vec![(1, 3), (4, 7), (2, 5)]);
}

#[test]
fn sparse_evaluate_sums_the_terms() {
    // 2x + 5 at 3 is 11.
    let poly = SparsePolynomial::new(vec![(2, 1), (5, 0)]);
    assert_eq!(poly.evaluate(3), 11);
    assert_eq!(poly.evaluate(0), 5);
    // x^3 + 4x^7 + 2x^5 at 2 is 8 + 512 + 64.
    let poly = SparsePolynomial::new(vec![(1, 3), (4, 7), (2, 5)]);
    assert_eq!(poly.evaluate(2), 584);
}

#[test]
fn powers_of_machine_integers() {
    assert_eq!(pow_u32(2, 10), 1024);
    assert_eq!(pow_u32(0, 0), 1);
    assert_eq!(pow_u32(0, 5), 0);
    assert_eq!(pow_u32(7, 1), 7);
    assert_eq!(pow_u32(1, 4_000_000), 1);
}
