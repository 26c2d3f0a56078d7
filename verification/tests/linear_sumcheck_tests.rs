use gkr::field::evaluate_univariate;
use gkr::field::FieldElement;
use gkr::linear_sumcheck::MultivariatePoly;
use gkr::multilinear::low_bits_point;
use gkr::linear_sumcheck::Prover;
use gkr::linear_sumcheck::Verifier;
use gkr::univariate_sumcheck::Prover as LineProver;
use gkr::univariate_sumcheck::Verifier as LineVerifier;

fn f(x: u64) -> FieldElement {
    FieldElement::from_u64(x)
}

fn fs(xs: &[u64]) -> Vec<FieldElement> {
    xs.iter().map(|x| f(*x)).collect()
}

#[test]
fn main_test_polynomial_evaluation() {
    // Test evaluation at point (1,1)
    let coefficients = vec![
        f(0), // constant term
        f(1), // x term
        f(1), // y term
        f(1), // xy term
    ];
    let polynomial = MultivariatePoly::new(coefficients, 2);

    let point = vec![f(1), f(1)];
    let evaluation = polynomial.evaluate(&point);

    // f(1,1) = 0 + 1 + 1 + 1 = 3
    assert_eq!(evaluation, f(3));
}

#[test]
fn main_test_sumcheck_protocol() {
    // Test polynomial f(x,y) = x + y + xy
    let coefficients = vec![
        f(0), // constant term
        f(1), // x term
        f(1), // y term
        f(1), // xy term
    ];
    let polynomial = MultivariatePoly::new(coefficients, 2);

    let prover = Prover::new(polynomial.copy());
    let proof = prover.generate_proof();

    let verifier = Verifier::new();
    assert!(verifier.verify_proof(&proof, &polynomial), "Sum-Check proof verification failed!");

    // Define polynomial f(x) = 3x^2 + 2x + 1
    let poly = vec![
        f(1), // constant term
        f(2), // coefficient of x
        f(3), // coefficient of x^2
    ];

    // Calculate the expected sum: f(0) + f(1)
    // f(0) = 1
    // f(1) = 3 + 2 + 1 = 6
    // Total sum = 7
    let claimed_sum = f(7);

    let prover = LineProver::new(poly.clone(), claimed_sum);
    let proof = prover.generate_proof();

    let verifier = LineVerifier::new();
    let is_valid = verifier.verify_proof(proof, &poly);

    assert!(is_valid, "Sum-Check proof verification failed!");
}

#[test]
fn test_sumcheck() {
    let poly = MultivariatePoly::new(
        vec![
            f(0), // constant term
            f(0), // x term
            f(0), // y term
            f(3), // xy term
            f(0), // z term
            f(0), // xz term
            f(2), // yz term
            f(5), // xyz term
        ],
        3,
    );
    let prover = Prover::new(poly.copy());
    let proof = prover.generate_proof();

    let verifier = Verifier::new();
    assert!(verifier.verify_proof(&proof, &poly), "Sum-Check proof verification failed!");
}

#[test]
fn test_sumcheck_failure() {
    let poly = MultivariatePoly::new(
        vec![
            f(0), // constant term
            f(1), // x term
            f(1), // y term
            f(1), // xy term
        ],
        2,
    );
    let prover = Prover::new(poly.copy());
    let proof = prover.generate_proof();

    // Modify the proof to make it invalid
    let mut invalid_proof = proof.clone();
    invalid_proof.claimed_sum = invalid_proof.claimed_sum.add(&f(1));

    let verifier = Verifier::new();
    assert!(
        !verifier.verify_proof(&invalid_proof, &poly),
        "Sum-Check proof verification should have failed!"
    );
}

#[test]
fn test_boolean_hypercube_sum() {
    // Test sum over {0,1}^2
    let coefficients = vec![
        f(0), // constant term
        f(1), // x term
        f(1), // y term
        f(1), // xy term
    ];
    let polynomial = MultivariatePoly::new(coefficients, 2);

    let sum = polynomial.sum_over_boolean_hypercube();

    // Sum = f(0,0) + f(0,1) + f(1,0) + f(1,1)
    //     = 0 + 1 + 1 + 3
    //     = 5
    assert_eq!(sum, f(5));
}

#[test]
fn coefficients_belong_to_products_of_variables() {
    // 1 + 2x + 3y + 4xy.
    let poly = MultivariatePoly::new(fs(&[1, 2, 3, 4]), 2);
    assert_eq!(poly.evaluate(&vec![f(1), f(1)]), f(10));
    assert_eq!(poly.evaluate(&vec![f(5), f(0)]), f(11));
    assert_eq!(poly.evaluate(&vec![f(0), f(5)]), f(16));
    assert_eq!(poly.evaluate(&vec![f(2), f(3)]), f(38));
    assert_eq!(poly.sum_over_boolean_hypercube(), f(18));
    assert_eq!(low_bits_point(3, 6), fs(&[0, 1, 1]));
}

#[test]
fn evaluate_at_round_sums_over_the_later_variables() {
    // 1 + 2x + 3y + 4xy.
    let poly = MultivariatePoly::new(fs(&[1, 2, 3, 4]), 2);
    // x = 1, y over {0, 1}: 3 + 10.
    assert_eq!(poly.evaluate_at_round(0, &[f(1)], f(1)), f(13));
    assert_eq!(poly.evaluate_at_round(0, &[], f(0)), f(5));
    // x = 2, y = 3.
    assert_eq!(poly.evaluate_at_round(1, &[f(2)], f(3)), f(38));
}

#[test]
fn the_line_of_a_round() {
    let poly = MultivariatePoly::new(fs(&[1, 2, 3, 4]), 2);
    let prover = Prover::new(poly);
    // Round 0: the sum over y at x = 0 is 5, at x = 1 it is 13.
    let line = prover.generate_round_polynomial(0, &[]);
    assert_eq!(line.coefficients, fs(&[5, 8]));
    let proof = prover.generate_proof();
    assert_eq!(proof.claimed_sum, f(18));
    assert_eq!(proof.round_polynomials.len(), 2);
    assert_eq!(proof.round_polynomials[0].coefficients, fs(&[5, 8]));
    assert_eq!(proof.challenges.len(), 2);
    assert_eq!(proof.final_evaluation, prover.polynomial.evaluate(&proof.challenges));
}

#[test]
fn altered_proofs_are_refused() {
    let poly = MultivariatePoly::new(fs(&[1, 2, 3, 4]), 2);
    let proof = Prover::new(poly.copy()).generate_proof();
    let verifier = Verifier::new();
    assert!(verifier.verify_proof(&proof, &poly));
    let mut altered = proof.clone();
    altered.final_evaluation = altered.final_evaluation.add(&f(1));
    assert!(!verifier.verify_proof(&altered, &poly));
    let mut altered = proof.clone();
    altered.round_polynomials.pop();
    assert!(!verifier.verify_proof(&altered, &poly));
    let mut altered = proof.clone();
    altered.round_polynomials[1].coefficients[0] =
        altered.round_polynomials[1].coefficients[0].add(&f(1));
    assert!(!verifier.verify_proof(&altered, &poly));
    let mut altered = proof.clone();
    altered.round_polynomials[0].coefficients.push(f(1));
    assert!(!verifier.verify_proof(&altered, &poly));
    let other = MultivariatePoly::new(fs(&[1, 2, 3, 5]), 2);
    assert!(!verifier.verify_proof(&proof, &other));
}

#[test]
fn the_sum_of_a_line_at_zero_and_one() {
    let verifier = LineVerifier::new();
    // 1 + 2x + 3x^2: 1 + 6.
    assert_eq!(verifier.compute_actual_sum(&fs(&[1, 2, 3])), f(7));
    assert_eq!(verifier.compute_actual_sum(&vec![]), f(0));
    let proof = LineProver::new(fs(&[1, 2, 3]), f(8)).generate_proof();
    assert_eq!(proof.polynomials, vec![fs(&[1, 2, 3])]);
    assert!(!verifier.verify_proof(proof, &fs(&[1, 2, 3])));
}

#[test]
fn a_univariate_polynomial_at_a_point() {
    // 1 + 2x + 3x^2 at 5 is 86.
    assert_eq!(evaluate_univariate(&fs(&[1, 2, 3]), &f(5)), f(86));
    assert_eq!(evaluate_univariate(&fs(&[1, 2, 3]), &f(0)), f(1));
    assert_eq!(evaluate_univariate(&fs(&[0, 0, 0]), &f(5)), f(0));
    assert_eq!(evaluate_univariate(&fs(&[4, 0, 0]), &f(5)), f(4));
    assert_eq!(evaluate_univariate(&vec![], &f(5)), f(0));
}
