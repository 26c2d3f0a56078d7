use gkr::field::FieldElement;
use gkr::multilinear::get_blow_up_poly;
use gkr::multilinear::low_bits_point;
use gkr::multilinear::vertex_point;
use gkr::multilinear::MultivariatePoly;

fn f(x: u64) -> FieldElement {
    FieldElement::from_u64(x)
}

fn fs(xs: &[u64]) -> Vec<FieldElement> {
    xs.iter().map(|x| f(*x)).collect()
}

#[test]
fn test_new() {
    let coeffs = vec![f(1), f(2), f(3), f(4)];
    let poly = MultivariatePoly::new(coeffs.clone(), 2);
    assert_eq!(poly.coeffs, coeffs);
    assert_eq!(poly.num_vars, 2);
}

#[test]
fn test_evaluate_4y_7xy() {
    let coeffs = vec![f(0), f(4), f(0), f(11)];
    let poly = MultivariatePoly::new(coeffs, 2);
    let point = vec![f(2), f(3)];
    let result = poly.evaluate(&point);
    // 4 * 2 * (1 - 3) + 11 * 2 * 3, the first coordinate on the lowest bit.
    assert_eq!(result, f(50));
}

#[test]
fn multilinear_test_evaluate() {
    let coeffs = vec![f(1), f(2), f(3), f(4)];
    let poly = MultivariatePoly::new(coeffs, 2);
    let point = vec![f(1), f(1)];
    let result = poly.evaluate(&point);
    assert_eq!(result, f(4));
}

#[test]
fn test_sum_over_boolean_hypercube() {
    let coeffs = vec![f(1), f(2), f(3), f(4)];
    let poly = MultivariatePoly::new(coeffs, 2);
    let result = poly.sum_over_boolean_hypercube();
    assert_eq!(result, f(10));
}

#[test]
fn test_evaluate_at_round() {
    let coeffs = vec![f(1), f(2), f(3), f(4)];
    let poly = MultivariatePoly::new(coeffs, 2);
    let partial_evaluation = vec![f(1)];
    let x = f(1);
    let result = poly.evaluate_at_round(0, &partial_evaluation, x);
    assert_eq!(result, f(6));
}

#[test]
fn evaluate_reads_coordinate_j_on_bit_j() {
    let poly = MultivariatePoly::new(fs(&[10, 20, 30, 40]), 2);
    assert_eq!(poly.evaluate(&vec![f(1), f(0)]), f(20));
    assert_eq!(poly.evaluate(&vec![f(0), f(1)]), f(30));
    assert_eq!(poly.evaluate_partial(&vec![f(1), f(0)]), f(30));
    assert_eq!(poly.evaluate_partial(&vec![f(0), f(1)]), f(20));
    let poly = MultivariatePoly::new(fs(&[3, 1, 4, 1, 5, 9, 2, 6]), 3);
    let point = vec![f(7), f(11), f(13)];
    let turned = vec![f(13), f(11), f(7)];
    assert_eq!(poly.evaluate(&point), poly.evaluate_partial(&turned));
    assert_ne!(poly.evaluate(&point), poly.evaluate(&turned));
}

#[test]
fn test_scalar_mul() {
    let coeffs = vec![f(1), f(2), f(3), f(4)];
    let poly = MultivariatePoly::new(coeffs.clone(), 2);
    let scalar = f(2);
    let result = poly.scalar_mul(scalar);
    let expected_coeffs: Vec<FieldElement> = coeffs.iter().map(|x| x.mul(&scalar)).collect();
    assert_eq!(result.coeffs, expected_coeffs);
    assert_eq!(result.coeffs, fs(&[2, 4, 6, 8]));
}

#[test]
fn test_blow_up_right() {
    let coeffs = vec![f(1), f(2), f(3), f(4)];
    let poly = MultivariatePoly::new(coeffs, 2);
    let result = poly.blow_up_right(1);
    assert_eq!(result.num_vars, 3);
}

#[test]
fn test_blow_up_left() {
    let coeffs = vec![f(1), f(2), f(3), f(4)];
    let poly = MultivariatePoly::new(coeffs, 2);
    let result = poly.blow_up_left(1);
    assert_eq!(result.num_vars, 3);
}

#[test]
fn test_partial_evaluate_4y_7xy_at_x_2() {
    let coeffs = vec![f(0), f(4), f(0), f(11)];
    let poly = MultivariatePoly::new(coeffs, 2);
    let result = MultivariatePoly::partial_evaluate(&poly.coeffs, 0, f(2));
    // The pairs differ in bit 0: 0 + 2 * (4 - 0) and 0 + 2 * (11 - 0).
    let expected_result = vec![f(8), f(22)];
    assert_eq!(result, expected_result);
}

#[test]
fn test_evaluate_partial_4y_7xy_at_x_2_y_3() {
    let coeffs = vec![f(0), f(4), f(0), f(11)];
    let poly = MultivariatePoly::new(coeffs, 2);
    let point = vec![f(2), f(3)];
    let result = poly.evaluate_partial(&point);
    assert_eq!(result, f(54));
}

#[test]
fn partial_evaluate_pairs_indices_that_differ_in_the_bit_of_the_variable() {
    let table = fs(&[0, 4, 0, 11]);
    // Bit 1: the pairs (0, 2) and (1, 3).
    let result = MultivariatePoly::partial_evaluate(&table, 1, f(3));
    assert_eq!(result, fs(&[0, 25]));
    // Bit 0: the pairs (0, 1) and (2, 3).
    let result = MultivariatePoly::partial_evaluate(&table, 0, f(3));
    assert_eq!(result, fs(&[12, 33]));
    let table = fs(&[0, 1, 2, 3, 4, 5, 6, 7]);
    assert_eq!(MultivariatePoly::partial_evaluate(&table, 0, f(0)), fs(&[0, 2, 4, 6]));
    assert_eq!(MultivariatePoly::partial_evaluate(&table, 1, f(0)), fs(&[0, 1, 4, 5]));
    assert_eq!(MultivariatePoly::partial_evaluate(&table, 2, f(0)), fs(&[0, 1, 2, 3]));
    assert_eq!(MultivariatePoly::partial_evaluate(&table, 1, f(1)), fs(&[2, 3, 6, 7]));
}

#[test]
fn partial_evaluate_then_evaluate_on_one_entry() {
    // The table 0, 1, 0, 0 with variable 0 at 2, then the other at 3.
    let poly = MultivariatePoly::new(fs(&[0, 1, 0, 0]), 2);
    let fixed = MultivariatePoly::new(
        MultivariatePoly::partial_evaluate(&poly.coeffs, 0, f(2)),
        1,
    );
    assert_eq!(fixed.coeffs, fs(&[2, 0]));
    // 2 * (1 - 3) = -4 on both sides.
    assert_eq!(fixed.evaluate(&vec![f(3)]), f(0).sub(&f(4)));
    assert_eq!(poly.evaluate(&vec![f(2), f(3)]), f(0).sub(&f(4)));
}

#[test]
fn partial_evaluate_then_evaluate_is_evaluate() {
    let poly = MultivariatePoly::new(fs(&[3, 1, 4, 1, 5, 9, 2, 6]), 3);
    let v = f(7);
    let rest = vec![f(10), f(20)];
    for j in 0..3usize {
        let fixed = MultivariatePoly::new(
            MultivariatePoly::partial_evaluate(&poly.coeffs, j, v),
            2,
        );
        // The value is coordinate `j` of `evaluate`.
        let mut point = rest.clone();
        point.insert(j, v);
        assert_eq!(fixed.evaluate(&rest), poly.evaluate(&point));
        // Counted from the leading variable it stands `2 - j` places on.
        let mut point = rest.clone();
        point.insert(2 - j, v);
        assert_eq!(fixed.evaluate_partial(&rest), poly.evaluate_partial(&point));
    }
}

#[test]
fn evaluate_at_a_vertex_is_the_table_entry() {
    let table = fs(&[3, 1, 4, 1, 5, 9, 2, 6]);
    let poly = MultivariatePoly::new(table.clone(), 3);
    for i in 0..8usize {
        assert_eq!(poly.evaluate(&low_bits_point(3, i)), table[i]);
        assert_eq!(poly.evaluate_partial(&vertex_point(3, 8, i)), table[i]);
    }
    assert_eq!(vertex_point(3, 8, 6), fs(&[1, 1, 0]));
    assert_eq!(low_bits_point(3, 6), fs(&[0, 1, 1]));
}

#[test]
fn evaluate_of_a_constant_is_the_constant() {
    let poly = MultivariatePoly::new(fs(&[9]), 0);
    assert_eq!(poly.evaluate(&vec![]), f(9));
    assert_eq!(poly.evaluate_partial(&vec![]), f(9));
}

#[test]
fn evaluate_partial_of_a_prefix_sets_the_rest_to_zero() {
    let poly = MultivariatePoly::new(fs(&[0, 4, 0, 11]), 2);
    // x = 2, y = 0: 4y + 7xy = 0.
    assert_eq!(poly.evaluate_partial(&vec![f(2)]), f(0));
    assert_eq!(poly.evaluate_partial(&vec![]), f(0));
    assert_eq!(poly.evaluate_partial(&vec![f(2)]), poly.evaluate(&vec![f(0), f(2)]));
}

#[test]
fn sum_over_hypercube_is_the_sum_of_the_table() {
    let poly = MultivariatePoly::new(fs(&[1, 2, 3, 4]), 2);
    assert_eq!(poly.sum_over_boolean_hypercube(), f(10));
    let mut brute = FieldElement::zero();
    for i in 0..4usize {
        brute = brute.add(&poly.evaluate(&low_bits_point(2, i)));
    }
    assert_eq!(poly.sum_over_boolean_hypercube(), brute);
}

#[test]
fn evaluate_at_round_sums_over_the_variables_left() {
    let poly = MultivariatePoly::new(fs(&[1, 2, 3, 4]), 2);
    // First coordinate at 1, second over {0, 1}: the entries at 1 and 3.
    assert_eq!(poly.evaluate_at_round(0, &[f(1)], f(1)), f(6));
    // First coordinate at 0, second at 1: the entry at 2.
    assert_eq!(poly.evaluate_at_round(1, &[f(0)], f(1)), f(3));
    // First coordinate at 5, second at 1: 3 (1 - 5) + 4 * 5 = 8.
    assert_eq!(poly.evaluate_at_round(1, &[f(5)], f(1)), f(8));
}

#[test]
fn blow_up_right_repeats_each_entry() {
    let poly = MultivariatePoly::new(fs(&[1, 2, 3, 4]), 2);
    assert_eq!(poly.blow_up_right(1).coeffs, fs(&[1, 1, 2, 2, 3, 3, 4, 4]));
    assert_eq!(poly.blow_up_right(0).coeffs, fs(&[1, 2, 3, 4]));
}

#[test]
fn blow_up_left_repeats_the_table() {
    let poly = MultivariatePoly::new(fs(&[1, 2, 3, 4]), 2);
    assert_eq!(poly.blow_up_left(1).coeffs, fs(&[1, 2, 3, 4, 1, 2, 3, 4]));
}

#[test]
fn blow_up_does_not_depend_on_the_new_variable() {
    let w = MultivariatePoly::new(fs(&[3, 5, 8, 13]), 2);
    let p = vec![f(21), f(34)];
    let by_partial = w.evaluate_partial(&p);
    let by_evaluate = w.evaluate(&p);
    for q in [0u64, 1, 2, 99] {
        let right = w.blow_up_right(1);
        let left = w.blow_up_left(1);
        // Counted from the highest bit: added after the last, before the first.
        assert_eq!(right.evaluate_partial(&vec![p[0], p[1], f(q)]), by_partial);
        assert_eq!(left.evaluate_partial(&vec![f(q), p[0], p[1]]), by_partial);
        // Counted from the lowest bit, as `evaluate` counts.
        assert_eq!(right.evaluate(&vec![f(q), p[0], p[1]]), by_evaluate);
        assert_eq!(left.evaluate(&vec![p[0], p[1], f(q)]), by_evaluate);
    }
    let right2 = w.blow_up_right(2);
    assert_eq!(right2.evaluate_partial(&vec![p[0], p[1], f(7), f(9)]), by_partial);
    assert_eq!(right2.evaluate(&vec![f(7), f(9), p[0], p[1]]), by_evaluate);
    let left2 = w.blow_up_left(2);
    assert_eq!(left2.evaluate_partial(&vec![f(7), f(9), p[0], p[1]]), by_partial);
    assert_eq!(left2.evaluate(&vec![p[0], p[1], f(7), f(9)]), by_evaluate);
}

#[test]
fn get_blow_up_poly_is_a_table_of_zeros() {
    let poly = MultivariatePoly::new(fs(&[1, 2, 3, 4]), 2);
    assert_eq!(get_blow_up_poly(&poly, 2), fs(&[0; 16]));
}

#[test]
fn add_and_mul_are_entry_by_entry() {
    let a = MultivariatePoly::new(fs(&[1, 2, 3, 4]), 2);
    let b = MultivariatePoly::new(fs(&[10, 20, 30, 40]), 2);
    assert_eq!(a.add(&b).coeffs, fs(&[11, 22, 33, 44]));
    assert_eq!(a.mul(&b).coeffs, fs(&[10, 40, 90, 160]));
    assert_eq!(a.copy(), a);
}

#[test]
fn solve_sets_the_variables_that_have_a_value() {
    let poly = MultivariatePoly::new(fs(&[0, 4, 3, 7, 2, 6, 5, 9]), 3);
    let first = poly.solve(&vec![Some(f(2)), None, None]);
    assert_eq!(first.coeffs, fs(&[4, 8, 7, 11]));
    assert_eq!(first.num_vars, 2);
    let last = poly.solve(&vec![None, None, Some(f(2))]);
    assert_eq!(last.coeffs, fs(&[8, 11, 10, 13]));
    let middle = poly.solve(&vec![None, Some(f(2))]);
    assert_eq!(middle.coeffs, fs(&[6, 10, 8, 12]));
    let all = poly.solve(&vec![Some(f(2)), Some(f(3)), Some(f(5))]);
    assert_eq!(all.coeffs, vec![poly.evaluate_partial(&vec![f(2), f(3), f(5)])]);
    assert_eq!(all.coeffs, vec![poly.evaluate(&vec![f(5), f(3), f(2)])]);
    assert_eq!(all.num_vars, 0);
    let none = poly.solve(&vec![]);
    assert_eq!(none, poly);
}
