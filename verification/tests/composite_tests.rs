use gkr::composite::getPrecedence;
use gkr::composite::shunting_yard_algo;
use gkr::composite::to_postfix;
use gkr::composite::Composite;
use gkr::composite::ExpressionError;
use gkr::composite::PostfixToken;
use gkr::composite::OP;
use gkr::composite::OP_ELEMENT;
use gkr::field::FieldElement;
use gkr::multilinear::MultivariatePoly;

fn f(x: u64) -> FieldElement {
    FieldElement::from_u64(x)
}

fn fs(xs: &[u64]) -> Vec<FieldElement> {
    xs.iter().map(|x| f(*x)).collect()
}

// 2*2*3*3*3+3*7*7
#[test]
fn test_shunting_yard_algo() {
    let result = shunting_yard_algo(
        &vec![2, 2, 3, 3, 3, 3, 7, 7].iter().map(|x| OP_ELEMENT::Value(f(*x))).collect(),
        &vec![OP::MUL, OP::MUL, OP::MUL, OP::MUL, OP::ADD, OP::MUL, OP::MUL],
    )
    .unwrap();

    let mut _result = FieldElement::zero();
    if let OP_ELEMENT::Value(x) = result {
        _result = x;
    };

    assert_eq!(_result, f(255));
}

#[test]
fn test_shunting_yard_algo_complex() {
    // 2 + 3 * 4 + 5 + 6 * 7 = 19 + 42 = 61
    let result = shunting_yard_algo(
        &vec![2, 3, 4, 5, 6, 7].iter().map(|x| OP_ELEMENT::Value(f(*x))).collect(),
        &vec![OP::ADD, OP::MUL, OP::ADD, OP::ADD, OP::MUL],
    )
    .unwrap();

    let mut _result = FieldElement::zero();
    if let OP_ELEMENT::Value(x) = result {
        _result = x;
    };

    assert_eq!(_result, f(61));
}

#[test]
fn test_shunting_yard_algo_with_polynomials() {
    // (2a + 3b) * (4b + 7ab) + (2ab + 3b + 6a)
    let poly_a = MultivariatePoly::new(vec![f(0), f(3), f(2), f(5)], 2);
    let poly_b = MultivariatePoly::new(vec![f(0), f(4), f(0), f(11)], 2);
    let poly_c = MultivariatePoly::new(vec![f(0), f(3), f(6), f(11)], 2);

    let result = shunting_yard_algo(
        &vec![OP_ELEMENT::Poly(poly_a), OP_ELEMENT::Poly(poly_b), OP_ELEMENT::Poly(poly_c)],
        &vec![OP::MUL, OP::ADD],
    )
    .unwrap();

    let expected_poly = MultivariatePoly::new(vec![f(0), f(15), f(6), f(66)], 2);

    if let OP_ELEMENT::Poly(x) = result {
        assert_eq!(x.coeffs, expected_poly.coeffs);
    } else {
        panic!("Expected a polynomial result");
    }
}

#[test]
fn test_partial_evaluate() {
    // (2a + 3b) * (4b + 7ab) + (2ab + 3b + 6a)
    let poly_a = fs(&[0, 3, 2, 5]);
    let poly_b = fs(&[0, 4, 0, 11]);
    let poly_c = fs(&[0, 3, 6, 11]);

    let main_poly = Composite::new(&vec![poly_a, poly_b, poly_c], vec![OP::MUL, OP::ADD]);
    let partially_evaluated = main_poly.partial_evaluate(&vec![f(2), f(3)], 0);

    // Evaluate the partially evaluated polynomial
    let result = partially_evaluated.evaluate(&vec![Option::Some(f(3))]);

    assert_eq!(result, f(735));
}

#[test]
fn composite_test_evaluate() {
    // (2a + 3b) * (4b + 7ab) + (2ab + 3b + 6a)
    let poly_a = fs(&[0, 3, 2, 5]);
    let poly_b = fs(&[0, 4, 0, 11]);
    let poly_c = fs(&[0, 3, 6, 11]);

    let main_poly = Composite::new(&vec![poly_a, poly_b, poly_c], vec![OP::MUL, OP::ADD]);
    let result = main_poly.evaluate(&vec![2, 3].iter().map(|x| Option::Some(f(*x))).collect());

    assert_eq!(result, f(735));
}

#[test]
fn test_reduce() {
    let poly_a = fs(&[0, 3, 2, 5]);
    let poly_b = fs(&[0, 4, 0, 11]);
    let poly_c = fs(&[0, 3, 6, 11]);

    let main_poly = Composite::new(&vec![poly_a, poly_b, poly_c], vec![OP::MUL, OP::ADD]);
    let result = main_poly.reduce();

    assert_eq!(result.coeffs, fs(&[0, 15, 6, 66]));
}

#[test]
fn precedence_of_mul_is_above_add() {
    assert_eq!(getPrecedence(&OP::ADD), 0);
    assert_eq!(getPrecedence(&OP::MUL), 1);
}

#[test]
fn postfix_order_of_a_sum_of_products() {
    // a * b + c * d  ->  a b * c d * +
    let tokens = to_postfix(&vec![OP::MUL, OP::ADD, OP::MUL]);
    assert_eq!(
        tokens,
        vec![
            PostfixToken::Operand(0),
            PostfixToken::Operand(1),
            PostfixToken::Operator(OP::MUL),
            PostfixToken::Operand(2),
            PostfixToken::Operand(3),
            PostfixToken::Operator(OP::MUL),
            PostfixToken::Operator(OP::ADD),
        ]
    );
    assert_eq!(to_postfix(&vec![]), vec![PostfixToken::Operand(0)]);
}

#[test]
fn a_single_operand_is_its_own_value() {
    let result = shunting_yard_algo(&vec![OP_ELEMENT::Value(f(9))], &vec![]).unwrap();
    assert!(matches!(result, OP_ELEMENT::Value(x) if x == f(9)));
}

#[test]
fn operator_count_is_checked() {
    let r = shunting_yard_algo(&vec![OP_ELEMENT::Value(f(1))], &vec![OP::ADD]);
    assert!(matches!(r, Err(ExpressionError::OperatorCount)));
    let r = shunting_yard_algo(&vec![], &vec![]);
    assert!(matches!(r, Err(ExpressionError::OperatorCount)));
}

#[test]
fn an_operator_is_no_operand() {
    let r = shunting_yard_algo(
        &vec![OP_ELEMENT::Value(f(1)), OP_ELEMENT::OP(OP::ADD)],
        &vec![OP::ADD],
    );
    assert!(matches!(r, Err(ExpressionError::OperatorAsOperand)));
}

#[test]
fn scalars_and_polynomials_do_not_mix() {
    let p = MultivariatePoly::new(fs(&[1, 2]), 1);
    let r = shunting_yard_algo(
        &vec![OP_ELEMENT::Value(f(1)), OP_ELEMENT::Poly(p)],
        &vec![OP::ADD],
    );
    assert!(matches!(r, Err(ExpressionError::MixedOperands)));
}

#[test]
fn polynomials_of_different_sizes_do_not_combine() {
    let p = MultivariatePoly::new(fs(&[1, 2]), 1);
    let q = MultivariatePoly::new(fs(&[1, 2, 3, 4]), 2);
    let r = shunting_yard_algo(&vec![OP_ELEMENT::Poly(p), OP_ELEMENT::Poly(q)], &vec![OP::MUL]);
    assert!(matches!(r, Err(ExpressionError::SizeMismatch)));
}

#[test]
fn composite_value_at_a_vertex_is_the_reduced_entry() {
    let a = fs(&[0, 3, 2, 5]);
    let b = fs(&[0, 4, 0, 11]);
    let c = fs(&[0, 3, 6, 11]);
    let composite = Composite::new(&vec![a, b, c], vec![OP::MUL, OP::ADD]);
    let reduced = composite.reduce();
    assert_eq!(composite.evaluate(&vec![Some(f(1)), Some(f(0))]), reduced.coeffs[2]);
    assert_eq!(composite.evaluate(&vec![Some(f(1)), Some(f(1))]), reduced.coeffs[3]);
    let copy = composite.copy();
    assert_eq!(copy.polys, composite.polys);
    assert_eq!(copy.ops, composite.ops);
}
