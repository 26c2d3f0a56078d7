use gkr::circuit::Circuit;
use gkr::circuit::Gate;
use gkr::circuit::CIRCUIT_OP;
use gkr::field::FieldElement;

fn f(x: u64) -> FieldElement {
    FieldElement::from_u64(x)
}

fn two_layer_circuit() -> Circuit {
    let mut circuit = Circuit::new();
    // Layer 1: [1,2,3,4] -> [1+2=3, 3*4=12]
    circuit.add_layer(vec![Gate::Add(0, 1), Gate::Mul(2, 3)]);
    // Layer 2: Available values [1,2,3,4,3,12] -> [3+12=15]
    circuit.add_layer(vec![Gate::Add(4, 5)]);
    circuit
}

fn four_layer_circuit(second: Gate) -> Circuit {
    let mut circuit = Circuit::new();
    circuit.add_layer(vec![Gate::Add(0, 1), Gate::Mul(2, 3)]);
    circuit.add_layer(vec![second, Gate::Mul(6, 7)]);
    circuit.add_layer(vec![Gate::Add(8, 9), Gate::Mul(10, 11)]);
    circuit.add_layer(vec![Gate::Add(12, 13)]);
    circuit
}

fn eight_inputs() -> Vec<FieldElement> {
    (1..=8).map(f).collect()
}

fn check_circuit_evaluation() {
    let circuit = two_layer_circuit();
    let evaluation = circuit.evaluate(vec![f(1), f(2), f(3), f(4)]);

    assert_eq!(evaluation.len(), 3);
    assert_eq!(evaluation[1], vec![f(1).add(&f(2)), f(3).mul(&f(4))]);
    assert_eq!(evaluation[2], vec![evaluation[1][0].add(&evaluation[1][1])]);

    for (step, values) in evaluation.iter().enumerate() {
        println!("Step {}: {:?}", step, values);
    }
}

fn check_circuit_evaluation_with_more_inputs() {
    let circuit = four_layer_circuit(Gate::Add(4, 5));
    let evaluation = circuit.evaluate(eight_inputs());

    assert_eq!(evaluation.len(), 5);
    let expected_layer1 = vec![f(1).add(&f(2)), f(3).mul(&f(4))];
    assert_eq!(evaluation[1], expected_layer1);
    let expected_layer2 = vec![f(5).add(&f(6)), f(7).mul(&f(8))];
    assert_eq!(evaluation[2], expected_layer2);
    let expected_layer3 = vec![
        expected_layer1[0].add(&expected_layer1[1]),
        expected_layer2[0].mul(&expected_layer2[1]),
    ];
    assert_eq!(evaluation[3], expected_layer3);
    let expected_layer4 = vec![expected_layer3[0].add(&expected_layer3[1])];
    assert_eq!(evaluation[4], expected_layer4);

    for (step, values) in evaluation.iter().enumerate() {
        println!("Step {}: {:?}", step, values);
    }
}

fn check_circuit_evaluation_one() {
    let circuit = four_layer_circuit(Gate::Mul(4, 5));
    let evaluation = circuit.evaluate(eight_inputs());

    assert_eq!(evaluation.len(), 5);
    let expected_layer1 = vec![f(1).add(&f(2)), f(3).mul(&f(4))];
    assert_eq!(evaluation[1], expected_layer1);
    let expected_layer2 = vec![f(5).mul(&f(6)), f(7).mul(&f(8))];
    assert_eq!(evaluation[2], expected_layer2);
    let expected_layer3 = vec![
        expected_layer1[0].add(&expected_layer1[1]),
        expected_layer2[0].mul(&expected_layer2[1]),
    ];
    assert_eq!(evaluation[3], expected_layer3);
    let expected_layer4 = vec![expected_layer3[0].add(&expected_layer3[1])];
    assert_eq!(evaluation[4], expected_layer4);

    for (step, values) in evaluation.iter().enumerate() {
        println!("Step {}: {:?}", step, values);
    }
}

fn check_get_layer_evaluation() {
    let circuit = two_layer_circuit();
    let inputs = vec![f(1), f(2), f(3), f(4)];

    let layer_0_eval = circuit.get_layer_evaluation(inputs.clone(), 0);
    assert_eq!(layer_0_eval, Some(vec![f(1), f(2), f(3), f(4)]));

    let layer_1_eval = circuit.get_layer_evaluation(inputs.clone(), 1);
    assert_eq!(layer_1_eval, Some(vec![f(1).add(&f(2)), f(3).mul(&f(4))]));

    let layer_2_eval = circuit.get_layer_evaluation(inputs.clone(), 2);
    assert_eq!(layer_2_eval, Some(vec![f(1).add(&f(2)).add(&f(3).mul(&f(4)))]));

    let layer_3_eval = circuit.get_layer_evaluation(inputs, 3);
    assert_eq!(layer_3_eval, None);
}

fn check_get_layer_evaluation_with_more_inputs() {
    let circuit = four_layer_circuit(Gate::Add(4, 5));
    let inputs = eight_inputs();

    let layer_0_eval = circuit.get_layer_evaluation(inputs.clone(), 0);
    assert_eq!(layer_0_eval, Some(eight_inputs()));

    let layer_1_eval = circuit.get_layer_evaluation(inputs.clone(), 1);
    assert_eq!(layer_1_eval, Some(vec![f(1).add(&f(2)), f(3).mul(&f(4))]));

    let layer_2_eval = circuit.get_layer_evaluation(inputs.clone(), 2);
    assert_eq!(layer_2_eval, Some(vec![f(5).add(&f(6)), f(7).mul(&f(8))]));

    let layer_3_eval = circuit.get_layer_evaluation(inputs.clone(), 3);
    assert_eq!(
        layer_3_eval,
        Some(vec![
            f(1).add(&f(2)).add(&f(3).mul(&f(4))),
            f(5).add(&f(6)).mul(&f(7).mul(&f(8))),
        ])
    );

    let layer_4_eval = circuit.get_layer_evaluation(inputs.clone(), 4);
    assert_eq!(
        layer_4_eval,
        Some(vec![f(1)
            .add(&f(2))
            .add(&f(3).mul(&f(4)))
            .add(&f(5).add(&f(6)).mul(&f(7).mul(&f(8))))])
    );

    let layer_5_eval = circuit.get_layer_evaluation(inputs, 5);
    assert_eq!(layer_5_eval, None);
}

#[test]
fn circuit_test_circuit_evaluation() {
    check_circuit_evaluation();
}

#[test]
fn circuit_test_circuit_evaluation_with_more_inputs() {
    check_circuit_evaluation_with_more_inputs();
}

#[test]
fn circuit_test_circuit_evaluation_one() {
    check_circuit_evaluation_one();
}

#[test]
fn circuit_test_get_layer_evaluation() {
    check_get_layer_evaluation();
}

#[test]
fn circuit_test_get_layer_evaluation_with_more_inputs() {
    check_get_layer_evaluation_with_more_inputs();
}

#[test]
fn main_test_circuit_evaluation() {
    check_circuit_evaluation();
}

#[test]
fn main_test_circuit_evaluation_with_more_inputs() {
    check_circuit_evaluation_with_more_inputs();
}

#[test]
fn main_test_circuit_evaluation_one() {
    check_circuit_evaluation_one();
}

#[test]
fn main_test_get_layer_evaluation() {
    check_get_layer_evaluation();
}

#[test]
fn main_test_get_layer_evaluation_with_more_inputs() {
    check_get_layer_evaluation_with_more_inputs();
}

#[test]
fn test_addi() {
    // Define a simple circuit with one layer and one Add gate
    let circuit = Circuit { layers: vec![vec![Gate::Add(0, 1)]] };

    // Define input values
    let all_values = vec![f(2), f(3)];

    // Test the addi function
    let result = circuit.addi(0, &all_values);
    assert_eq!(result, Some(vec![f(5)])); // 2 + 3 = 5

    // Test out-of-bounds indices
    let invalid_circuit = Circuit { layers: vec![vec![Gate::Add(2, 3)]] };
    let invalid_result = invalid_circuit.addi(0, &all_values);
    assert_eq!(invalid_result, None); // Should return None for out-of-bounds indices
}

#[test]
fn test_addi_with_more_inputs() {
    let circuit = Circuit { layers: vec![vec![Gate::Add(0, 1), Gate::Add(2, 3)]] };

    let all_values = vec![f(1), f(2), f(3), f(4)];

    let result = circuit.addi(0, &all_values);
    assert_eq!(result, Some(vec![f(1).add(&f(2)), f(3).add(&f(4))])); // [1+2=3, 3+4=7]

    // Test out-of-bounds indices
    let invalid_circuit = Circuit { layers: vec![vec![Gate::Add(4, 5)]] };
    let invalid_result = invalid_circuit.addi(0, &all_values);
    assert_eq!(invalid_result, None); // Should return None for out-of-bounds indices
}

#[test]
fn test_muli() {
    let circuit = two_layer_circuit();

    let inputs = vec![f(1), f(2), f(3), f(4)];
    let evaluation = circuit.evaluate(inputs.clone());

    // Test muli for layer 1
    let muli_layer_1 = circuit.muli(0, &inputs);
    assert_eq!(muli_layer_1, Some(vec![f(3).mul(&f(4))]));

    // Test muli for out of bounds layer
    let muli_layer_2 = circuit.muli(1, &evaluation[1]);
    assert_eq!(muli_layer_2, None);
}

#[test]
fn addi_and_muli_beyond_the_last_layer() {
    let circuit = two_layer_circuit();
    let inputs = vec![f(1), f(2), f(3), f(4)];
    assert_eq!(circuit.addi(2, &inputs), None);
    assert_eq!(circuit.muli(2, &inputs), None);
    // A layer without Add gates gives no results, which is not nothing.
    let only_mul = Circuit { layers: vec![vec![Gate::Mul(0, 1)]] };
    assert_eq!(only_mul.addi(0, &inputs), Some(vec![]));
    // A Mul gate out of range does not stop addi, and the other way round.
    let mixed = Circuit { layers: vec![vec![Gate::Add(0, 1), Gate::Mul(7, 8)]] };
    assert_eq!(mixed.addi(0, &inputs), Some(vec![f(3)]));
    assert_eq!(mixed.muli(0, &inputs), None);
}

#[test]
fn the_operations_of_a_circuit_differ() {
    assert_ne!(CIRCUIT_OP::ADD, CIRCUIT_OP::MUL);
}
