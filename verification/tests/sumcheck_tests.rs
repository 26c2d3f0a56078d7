use gkr::composite::Composite;
use gkr::composite::OP;
use gkr::dense_polynomial::DensePolynomial;
use gkr::field::FieldElement;
use gkr::multilinear::MultivariatePoly;
use gkr::sumcheck::add_data_to_transcript;
use gkr::sumcheck::generate_partial_proof;
use gkr::sumcheck::sum_range;
use gkr::sumcheck::verify_partial_proof;
use gkr::sumcheck::verify_partial_proof_2;
use gkr::transcript::KeccakWrapper;
use gkr::transcript::Transcript;

fn f(x: u64) -> FieldElement {
    FieldElement::from_u64(x)
}

fn fs(xs: &[u64]) -> Vec<FieldElement> {
    xs.iter().map(|x| f(*x)).collect()
}

fn fresh() -> Transcript<KeccakWrapper> {
    Transcript::new(KeccakWrapper::new())
}

fn four_operand_composite() -> Composite {
    // 2a + 3
    let mut poly_a = MultivariatePoly::new(fs(&[3, 5]), 1);
    poly_a = poly_a.blow_up_right(2);
    // 4b + 2a
    let mut poly_b = MultivariatePoly::new(fs(&[0, 4, 2, 6]), 2);
    poly_b = poly_b.blow_up_right(1);
    // 3c + 2
    let mut poly_c = MultivariatePoly::new(fs(&[2, 5]), 1);
    poly_c = poly_c.blow_up_left(2);
    // 3c + 2
    let mut poly_d = MultivariatePoly::new(fs(&[2, 5]), 1);
    poly_d = poly_d.blow_up_left(2);
    Composite::new(
        &vec![poly_a.coeffs, poly_b.coeffs, poly_c.coeffs, poly_d.coeffs],
        vec![OP::MUL, OP::ADD, OP::MUL],
    )
}

fn records_of(round_polys: &Vec<DensePolynomial>) -> Vec<Vec<FieldElement>> {
    round_polys.iter().map(|p| p.coefficients.clone()).collect()
}

#[test]
fn test_generate_partial_proof() {
    let composite = four_operand_composite();

    let mut round_polys: Vec<DensePolynomial> = vec![];
    let mut transcript = fresh();
    let mut challenges = vec![];
    let initial_sum =
        generate_partial_proof(&composite, &mut transcript, &mut round_polys, &mut challenges);

    let mut transcript = fresh();
    let (sum, challenges, success) =
        verify_partial_proof(initial_sum, &round_polys, &mut transcript);

    assert!(success);
    assert_eq!(sum, composite.evaluate(&challenges.iter().map(|x| Some(x.clone())).collect()));
}

#[test]
fn test_generate_partial_proof_2() {
    // 2a + 3
    let mut poly_a = MultivariatePoly::new(fs(&[3, 5]), 1);
    poly_a = poly_a.blow_up_right(1);
    // 4b + 2a
    let poly_b = MultivariatePoly::new(fs(&[0, 4, 2, 6]), 2);
    let mut poly_c = MultivariatePoly::new(fs(&[2, 5]), 1);
    poly_c = poly_c.blow_up_left(1);

    let composite = Composite::new(
        &vec![poly_a.coeffs, poly_b.coeffs, poly_c.coeffs],
        vec![OP::MUL, OP::ADD],
    );

    let mut round_polys: Vec<DensePolynomial> = vec![];
    let mut transcript = fresh();
    let mut challenges = vec![];
    let initial_sum =
        generate_partial_proof(&composite, &mut transcript, &mut round_polys, &mut challenges);

    let mut transcript = fresh();
    let polys_2: Vec<Vec<FieldElement>> = records_of(&round_polys);
    let (sum_2, challenges_2, success_2) =
        verify_partial_proof_2(initial_sum, &polys_2, &mut transcript);

    let mut transcript = fresh();
    let (sum, challenges, success) =
        verify_partial_proof(initial_sum, &round_polys, &mut transcript);

    assert!(success);
    assert!(success_2);
    assert_eq!(sum, sum_2);
    assert_eq!(challenges, challenges_2);
    assert_eq!(sum, composite.evaluate(&challenges.iter().map(|x| Some(x.clone())).collect()));
}

#[test]
fn the_claimed_sum_is_the_sum_over_the_hypercube() {
    let composite = four_operand_composite();
    let mut round_polys: Vec<DensePolynomial> = vec![];
    let mut challenges = vec![];
    let claimed =
        generate_partial_proof(&composite, &mut fresh(), &mut round_polys, &mut challenges);
    let mut brute = FieldElement::zero();
    for a in 0..2u64 {
        for b in 0..2u64 {
            for c in 0..2u64 {
                brute = brute.add(&composite.evaluate(&vec![Some(f(a)), Some(f(b)), Some(f(c))]));
            }
        }
    }
    assert_eq!(claimed, brute);
    // a, b, c over {0,1}: (2a+3)(4b+2a) sums to 52 twice, (3c+2)^2 to 29 four times.
    assert_eq!(claimed, f(220));
    assert_eq!(claimed, round_polys[0].coefficients[0].add(&round_polys[0].coefficients[1]));
    assert_eq!(round_polys.len(), 3);
    assert_eq!(challenges.len(), 3);
}

#[test]
fn the_first_record_holds_the_sums_at_zero_one_and_two() {
    // One variable: f(x) = (3 + 2x) * (1 + 4x), a table product.
    let composite = Composite::new(&vec![fs(&[3, 5]), fs(&[1, 5])], vec![OP::MUL]);
    let mut round_polys: Vec<DensePolynomial> = vec![];
    let mut challenges = vec![];
    let claimed =
        generate_partial_proof(&composite, &mut fresh(), &mut round_polys, &mut challenges);
    // f(0) = 3, f(1) = 25, f(2) = 7 * 9 = 63.
    assert_eq!(round_polys[0].coefficients, fs(&[3, 25, 63]));
    assert_eq!(claimed, f(28));
}

#[test]
fn records_and_challenges_are_added_after_what_is_there() {
    let composite = Composite::new(&vec![fs(&[3, 5]), fs(&[1, 5])], vec![OP::MUL]);
    let mut round_polys: Vec<DensePolynomial> = vec![DensePolynomial::new(fs(&[7]))];
    let mut challenges = vec![f(9)];
    generate_partial_proof(&composite, &mut fresh(), &mut round_polys, &mut challenges);
    assert_eq!(round_polys.len(), 2);
    assert_eq!(round_polys[0].coefficients, fs(&[7]));
    assert_eq!(challenges.len(), 2);
    assert_eq!(challenges[0], f(9));
}

#[test]
fn a_changed_claim_is_refused() {
    let composite = four_operand_composite();
    let mut round_polys: Vec<DensePolynomial> = vec![];
    let mut challenges = vec![];
    let claimed =
        generate_partial_proof(&composite, &mut fresh(), &mut round_polys, &mut challenges);
    let (sum, drawn, success) =
        verify_partial_proof(claimed.add(&f(1)), &round_polys, &mut fresh());
    assert!(!success);
    assert_eq!(sum, FieldElement::zero());
    assert!(drawn.is_empty());
}

#[test]
fn a_changed_record_is_refused_or_ends_elsewhere() {
    let composite = four_operand_composite();
    let mut round_polys: Vec<DensePolynomial> = vec![];
    let mut challenges = vec![];
    let claimed =
        generate_partial_proof(&composite, &mut fresh(), &mut round_polys, &mut challenges);
    let honest = records_of(&round_polys);
    let (honest_sum, honest_point, _) = verify_partial_proof_2(claimed, &honest, &mut fresh());
    let honest_value =
        composite.evaluate(&honest_point.iter().map(|x| Some(x.clone())).collect());
    assert_eq!(honest_sum, honest_value);
    for round in 0..3 {
        for entry in 0..3 {
            let mut records = honest.clone();
            records[round][entry] = records[round][entry].add(&f(1));
            let (sum, point, success) = verify_partial_proof_2(claimed, &records, &mut fresh());
            if success {
                // Only the last value of the last record can pass the rounds,
                // and then the sum that is left is not the composite's value.
                assert_eq!((round, entry), (2, 2));
                let value = composite.evaluate(&point.iter().map(|x| Some(x.clone())).collect());
                assert_ne!(sum, value);
            }
        }
    }
}

#[test]
fn a_record_of_another_length_is_refused() {
    let (_, _, success) = verify_partial_proof_2(f(3), &vec![fs(&[1, 2])], &mut fresh());
    assert!(!success);
    let (_, _, success) = verify_partial_proof_2(f(3), &vec![fs(&[1, 2, 3, 4])], &mut fresh());
    assert!(!success);
}

#[test]
fn no_records_leave_the_claim() {
    let (sum, point, success) = verify_partial_proof_2(f(3), &vec![], &mut fresh());
    assert!(success);
    assert_eq!(sum, f(3));
    assert!(point.is_empty());
}

#[test]
fn the_next_sum_is_the_polynomial_through_the_record_at_the_challenge() {
    // The record of x^2 + 1 at 0, 1, 2.
    let record = fs(&[1, 2, 5]);
    let (sum, point, success) = verify_partial_proof_2(f(3), &vec![record], &mut fresh());
    assert!(success);
    let r = point[0];
    assert_eq!(sum, r.mul(&r).add(&f(1)));
}

#[test]
fn add_data_absorbs_32_bytes_for_each_element() {
    let mut direct = fresh();
    let mut bytes = vec![0u8; 64];
    bytes[31] = 5;
    bytes[63] = 7;
    direct.absorb(&bytes);
    let expected = direct.squeeze();
    let mut through = fresh();
    assert_eq!(add_data_to_transcript(&fs(&[5, 7]), &mut through), expected);
    assert_eq!(through.squeeze(), direct.squeeze());
}

#[test]
fn sum_range_adds_the_entries() {
    let table = fs(&[1, 2, 3, 4, 5]);
    assert_eq!(sum_range(&table, 1, 4), f(9));
    assert_eq!(sum_range(&table, 2, 2), f(0));
}
