use gkr::dense_polynomial::DensePolynomial;
use gkr::field::FieldElement;

fn f(x: u64) -> FieldElement {
    FieldElement::from_u64(x)
}

fn fs(xs: &[u64]) -> Vec<FieldElement> {
    xs.iter().map(|x| f(*x)).collect()
}

#[test]
fn lib_test_linear_interpolation() {
    let points = vec![(f(1), f(2)), (f(2), f(4))];
    let poly = DensePolynomial::interpolate(&points);

    assert_eq!(poly.evaluate(f(0)), f(0));
    assert_eq!(poly.evaluate(f(1)), f(2));
    assert_eq!(poly.evaluate(f(2)), f(4));
}

#[test]
fn lib_test_quadratic_interpolation() {
    let points = vec![(f(0), f(0)), (f(1), f(1)), (f(2), f(4))];
    let poly = DensePolynomial::interpolate(&points);

    assert_eq!(poly.evaluate(f(0)), f(0));
    assert_eq!(poly.evaluate(f(1)), f(1));
    assert_eq!(poly.evaluate(f(2)), f(4));
}

#[test]
fn test_cubic_interpolation() {
    let points = vec![(f(0), f(0)), (f(1), f(1)), (f(2), f(8)), (f(3), f(27))];
    let poly = DensePolynomial::interpolate(&points);

    assert_eq!(poly.evaluate(f(0)), f(0));
    assert_eq!(poly.evaluate(f(1)), f(1));
    assert_eq!(poly.evaluate(f(2)), f(8));
    assert_eq!(poly.evaluate(f(3)), f(27));
}

#[test]
fn test_degree() {
    let poly = DensePolynomial::new(vec![f(1), f(2), f(3)]);
    assert_eq!(poly.degree(), 2);
}

#[test]
fn test_constant_polynomial() {
    let points = vec![(f(1), f(5)), (f(2), f(5))];
    let poly = DensePolynomial::interpolate(&points);

    assert_eq!(poly.evaluate(f(0)), f(5));
    assert_eq!(poly.evaluate(f(1)), f(5));
    assert_eq!(poly.evaluate(f(2)), f(5));
}

#[test]
fn new_drops_the_zeros_at_the_end() {
    assert_eq!(DensePolynomial::new(fs(&[1, 2, 0, 0])).coefficients, fs(&[1, 2]));
    assert_eq!(DensePolynomial::new(fs(&[0, 0, 0])).coefficients, fs(&[0]));
    assert_eq!(DensePolynomial::new(fs(&[0, 1])).coefficients, fs(&[0, 1]));
    assert_eq!(DensePolynomial::new(vec![]).coefficients, vec![]);
}

#[test]
fn degree_of_short_polynomials() {
    assert_eq!(DensePolynomial::new(vec![]).degree(), 0);
    assert_eq!(DensePolynomial::new(fs(&[4])).degree(), 0);
    assert_eq!(DensePolynomial::new(fs(&[4, 0, 0])).degree(), 0);
}

#[test]
fn evaluate_sums_the_terms() {
    // 1 + 2x + 3x^2 at 5 is 86.
    let poly = DensePolynomial::new(fs(&[1, 2, 3]));
    assert_eq!(poly.evaluate(f(5)), f(86));
    assert_eq!(poly.evaluate(f(0)), f(1));
    assert_eq!(DensePolynomial::new(vec![]).evaluate(f(5)), f(0));
}

#[test]
fn interpolate_gives_the_coefficients() {
    // x^2 through 0, 1, 2.
    let points = vec![(f(0), f(0)), (f(1), f(1)), (f(2), f(4))];
    assert_eq!(DensePolynomial::interpolate(&points).coefficients, fs(&[0, 0, 1]));
    // The constant 5 through two points has one coefficient.
    let constant = vec![(f(1), f(5)), (f(2), f(5))];
    assert_eq!(DensePolynomial::interpolate(&constant).coefficients, fs(&[5]));
    assert_eq!(DensePolynomial::interpolate(&[]).coefficients, fs(&[0]));
    assert_eq!(DensePolynomial::interpolate(&[(f(3), f(8))]).coefficients, fs(&[8]));
}

#[test]
fn the_parts_of_an_interpolation() {
    let points = vec![(f(0), f(0)), (f(1), f(1)), (f(2), f(4))];
    // (1 - 0) * (1 - 2) = -1.
    let den = DensePolynomial::compute_lagrange_denominator(f(1), &points, 1);
    assert_eq!(den, f(0).sub(&f(1)));
    // (X - 0) * (X - 2) = X^2 - 2X.
    let basis = DensePolynomial::compute_lagrange_basis(1, &points);
    assert_eq!(basis, vec![f(0), f(0).sub(&f(2)), f(1)]);
    // (1 + 2X) * (X - 3), cut to three coefficients: -3 - 5X + 2X^2.
    let term = DensePolynomial::compute_linear_term(f(3), &fs(&[1, 2, 0]));
    assert_eq!(term, vec![f(0).sub(&f(3)), f(0).sub(&f(5)), f(2)]);
}

#[test]
fn points_at_one_place_have_no_polynomial() {
    assert!(DensePolynomial::is_interpolable(&[(f(0), f(1)), (f(1), f(2)), (f(2), f(5))]));
    assert!(!DensePolynomial::is_interpolable(&[(f(1), f(1)), (f(2), f(2)), (f(1), f(5))]));
    assert!(!DensePolynomial::is_interpolable(&[(f(3), f(1)), (f(3), f(1))]));
    assert!(DensePolynomial::is_interpolable(&[(f(3), f(1))]));
    assert!(DensePolynomial::is_interpolable(&[]));
}
