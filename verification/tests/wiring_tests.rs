use gkr::circuit::CIRCUIT_OP;
use gkr::field::FieldElement;
use gkr::multilinear_pairs::MultilinearPoly;
use gkr::transcript::KeccakWrapper;
use gkr::transcript::Transcript;
use gkr::wiring::Circuit;
use gkr::wiring::Gate;
use gkr::wiring::GateType;

fn f(x: u64) -> FieldElement {
    FieldElement::from_u64(x)
}

fn fs(xs: &[u64]) -> Vec<FieldElement> {
    xs.iter().map(|x| f(*x)).collect()
}

fn add(left: usize, right: usize, output: usize) -> Gate {
    Gate::new(left, right, CIRCUIT_OP::ADD, output)
}

fn mul(left: usize, right: usize, output: usize) -> Gate {
    Gate::new(left, right, CIRCUIT_OP::MUL, output)
}

#[test]
fn test_addi_small_circuit() {
    let mut circuit = Circuit::new(vec![]);
    circuit.add_layer(vec![add(0, 1, 2), add(2, 3, 3)]);

    let add_poly = circuit.addi(0);
    let expected_poly = circuit.create_expected_poly(0, GateType::Addition);

    println!("Generated Addition Polynomial: {:?}", add_poly);
    println!("Expected Addition Polynomial: {:?}", expected_poly);
    assert_eq!(add_poly, expected_poly);
}

#[test]
fn test_addi_larger_circuit() {
    let mut circuit = Circuit::new(vec![]);
    circuit.add_layer(vec![add(0, 1, 2), add(4, 5, 6)]);

    let add_poly = circuit.addi(0);
    let expected_poly = circuit.create_expected_poly(0, GateType::Addition);

    assert_eq!(add_poly, expected_poly);
}

#[test]
fn test_muli_small_circuit() {
    let mut circuit = Circuit::new(vec![]);
    circuit.add_layer(vec![mul(0, 1, 2), mul(2, 3, 3)]);

    let mul_poly = circuit.muli(0);
    let expected_poly = circuit.create_expected_poly(0, GateType::Multiplication);

    assert_eq!(mul_poly, expected_poly);
}

#[test]
fn the_places_of_the_gates_of_a_layer() {
    let circuit = Circuit::new(vec![vec![add(0, 1, 0), mul(1, 1, 1)]]);
    // The greatest index is one: one bit for each of output, left and right.
    assert_eq!(circuit.get_max_index_in_layer(0), 1);
    assert_eq!(Circuit::num_of_layer_variables(1), 3);
    assert_eq!(circuit.addi(0).coeffs, fs(&[0, 1, 0, 0, 0, 0, 0, 0]));
    assert_eq!(circuit.muli(0).coeffs, fs(&[0, 0, 0, 0, 0, 0, 0, 1]));
    assert_eq!(circuit.addi(0).num_vars, 3);
}

#[test]
fn the_bits_of_an_index() {
    assert_eq!(Circuit::bits_per_index(0), 0);
    assert_eq!(Circuit::bits_per_index(1), 1);
    assert_eq!(Circuit::bits_per_index(3), 2);
    assert_eq!(Circuit::bits_per_index(4), 3);
    assert_eq!(Circuit::bits_per_index(6), 3);
    assert_eq!(Circuit::num_of_layer_variables(6), 9);
    // Two bits each: output 2, left 0, right 1.
    assert_eq!(Circuit::convert_to_binary_and_to_decimal(3, 2, 0, 1), 33);
    assert_eq!(Circuit::convert_to_binary_and_to_decimal(3, 3, 2, 3), 59);
    assert_eq!(Circuit::convert_to_binary_and_to_decimal(0, 0, 0, 0), 0);
}

#[test]
fn a_layer_with_one_place() {
    let circuit = Circuit::new(vec![vec![add(0, 0, 0)]]);
    assert_eq!(circuit.addi(0).coeffs, fs(&[1]));
    assert_eq!(circuit.muli(0).coeffs, fs(&[0]));
}

#[test]
fn pairs_of_the_first_variable() {
    assert_eq!(MultilinearPoly::pairs(0, 3), vec![(0, 4), (1, 5), (2, 6), (3, 7)]);
    assert_eq!(MultilinearPoly::pairs(0, 1), vec![(0, 1)]);
    assert_eq!(MultilinearPoly::insert_bit(3, 1), 5);
    assert_eq!(MultilinearPoly::insert_bit(3, 0), 6);
    assert_eq!(MultilinearPoly::insert_bit(3, 2), 3);
}

#[test]
fn pairs_of_a_later_variable() {
    // A zero bit goes in at the place of the variable; the partner has the
    // highest bit set.
    assert_eq!(MultilinearPoly::pairs(1, 3), vec![(0, 4), (1, 5), (4, 6), (5, 7)]);
    assert_eq!(MultilinearPoly::pairs(2, 3), vec![(0, 4), (2, 5), (4, 6), (6, 7)]);
}

#[test]
fn evaluation_by_pairing() {
    // 4y + 7xy on (x, y): values 0, 4, 0, 11.
    let poly = MultilinearPoly::new(2, fs(&[0, 4, 0, 11]));
    assert_eq!(poly.evaluate(&[f(2), f(3)]), f(54));
    assert_eq!(poly.partial_evalulate(0, &f(2)).evals, fs(&[0, 18]));
    assert_eq!(poly.partial_evalulate(0, &f(2)).num_vars, 1);
    assert_eq!(MultilinearPoly::zero(2).evals, fs(&[0, 0, 0, 0]));
    assert_eq!(MultilinearPoly::zero(2).evaluate(&[f(2), f(3)]), f(0));
    assert_eq!(MultilinearPoly::new(0, fs(&[9])).evaluate(&[]), f(9));
}

#[test]
fn init_is_new() {
    let mut a = Transcript::new(KeccakWrapper::new());
    let mut b = Transcript::init(KeccakWrapper::new());
    a.absorb(b"x");
    b.absorb(b"x");
    assert_eq!(a.squeeze(), b.squeeze());
}
