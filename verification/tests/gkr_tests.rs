use gkr::circuit::CIRCUIT_OP;
use gkr::field::FieldElement;
use gkr::gkr::apply_alpha_beta;
use gkr::gkr::check_shape;
use gkr::gkr::generate_proof;
use gkr::gkr::get_add_and_muls;
use gkr::gkr::is_provable;
use gkr::gkr::max_input_of;
use gkr::gkr::next_pow_of_2;
use gkr::gkr::padded_poly;
use gkr::gkr::restrict_to;
use gkr::gkr::take_range;
use gkr::gkr::verify_proof;
use gkr::gkr::wiring_polys;
use gkr::gkr::GKR_PROOF;
use gkr::multilinear::MultivariatePoly;
use gkr::transcript::KeccakWrapper;
use gkr::transcript::Transcript;
use gkr::wiring::Circuit;
use gkr::wiring::Gate;

fn f(x: u64) -> FieldElement {
    FieldElement::from_u64(x)
}

fn fs(xs: &[u64]) -> Vec<FieldElement> {
    xs.iter().map(|x| f(*x)).collect()
}

fn fresh() -> Transcript<KeccakWrapper> {
    Transcript::new(KeccakWrapper::new())
}

fn two_layer_gates() -> Vec<Vec<Gate>> {
    vec![
        // layer 1
        vec![Gate::new(0, 1, CIRCUIT_OP::ADD, 0)],
        vec![Gate::new(0, 1, CIRCUIT_OP::ADD, 0), Gate::new(2, 3, CIRCUIT_OP::MUL, 1)],
    ]
}

fn three_layer_gates() -> Vec<Vec<Gate>> {
    vec![
        vec![Gate::new(0, 1, CIRCUIT_OP::MUL, 0)],
        vec![Gate::new(0, 1, CIRCUIT_OP::ADD, 0), Gate::new(2, 3, CIRCUIT_OP::MUL, 1)],
        vec![
            Gate::new(0, 1, CIRCUIT_OP::ADD, 0),
            Gate::new(2, 3, CIRCUIT_OP::MUL, 1),
            Gate::new(4, 5, CIRCUIT_OP::MUL, 2),
            Gate::new(6, 7, CIRCUIT_OP::ADD, 3),
        ],
    ]
}

fn prove(gates: Vec<Vec<Gate>>, inputs: &Vec<FieldElement>) -> (Circuit, GKR_PROOF) {
    let mut circuit = Circuit::new(gates);
    assert!(is_provable(&circuit, inputs.len()));
    let proof = generate_proof(&mut circuit, inputs, &mut fresh());
    (circuit, proof)
}

fn verify(circuit: &mut Circuit, inputs: &Vec<FieldElement>, proof: &GKR_PROOF) -> bool {
    verify_proof(circuit, inputs, &mut fresh(), proof.clone())
}

#[test]
fn test_get_add_and_muls() {
    let circuit = Circuit::new(two_layer_gates());

    let mut add_and_muls = vec![];
    get_add_and_muls(&circuit, &mut add_and_muls);

    assert_eq!(add_and_muls[0].0.coeffs, fs(&[0, 1, 0, 0, 0, 0, 0, 0]));

    assert_eq!(add_and_muls[0].1.coeffs, fs(&[0, 0, 0, 0, 0, 0, 0, 0]));

    assert_eq!(
        add_and_muls[1].0.coeffs,
        fs(&[
            0, 1, 0, 0, 0, 0, 0, 0, 0, 0, 0, 0, 0, 0, 0, 0, 0, 0, 0, 0, 0, 0, 0, 0, 0, 0, 0, 0,
            0, 0, 0, 0
        ])
    );

    assert_eq!(
        add_and_muls[1].1.coeffs,
        fs(&[
            0, 0, 0, 0, 0, 0, 0, 0, 0, 0, 0, 0, 0, 0, 0, 0, 0, 0, 0, 0, 0, 0, 0, 0, 0, 0, 0, 1,
            0, 0, 0, 0,
        ])
    );
}

// 4b + 2a
#[test]
fn test_apply_alpha_beta() {
    let poly = MultivariatePoly::new(fs(&[0, 4, 3, 7, 2, 6, 5, 9]), 3);
    let new_poly: MultivariatePoly = apply_alpha_beta(f(2), f(3), &vec![f(2), f(3)], &poly);

    assert_eq!(new_poly.coeffs, fs(&[26, 46, 41, 61]))
}

#[test]
fn bits_for_the_places_of_a_layer() {
    assert_eq!(next_pow_of_2(0), 1);
    assert_eq!(next_pow_of_2(1), 1);
    assert_eq!(next_pow_of_2(2), 1);
    assert_eq!(next_pow_of_2(3), 2);
    assert_eq!(next_pow_of_2(4), 2);
    assert_eq!(next_pow_of_2(5), 3);
    assert_eq!(next_pow_of_2(8), 3);
    assert_eq!(next_pow_of_2(9), 4);
    assert_eq!(next_pow_of_2(1 << 20), 20);
    assert_eq!(next_pow_of_2((1 << 20) + 1), 21);
    assert_eq!(next_pow_of_2(usize::MAX), usize::BITS as usize);
}

#[test]
fn the_circuit_runs_from_the_inputs_up() {
    let mut circuit = Circuit::new(two_layer_gates());
    circuit.evaluate(&fs(&[1, 2, 3, 4]));
    assert_eq!(circuit.layers, vec![fs(&[15]), fs(&[3, 12]), fs(&[1, 2, 3, 4])]);
}

#[test]
fn a_circuit_must_fit_its_inputs() {
    let circuit = Circuit::new(two_layer_gates());
    assert!(circuit.is_wired(4));
    assert!(circuit.is_wired(9));
    assert!(!circuit.is_wired(3));
    assert!(!circuit.is_wired(0));
    assert!(!Circuit::new(vec![]).is_wired(4));
    assert!(!Circuit::new(vec![vec![]]).is_wired(4));
    // A gate must stand at the place that it names.
    let misplaced = Circuit::new(vec![vec![Gate::new(0, 1, CIRCUIT_OP::ADD, 1)]]);
    assert!(!misplaced.is_wired(2));
    // An operand must exist in the next layer.
    let beyond = Circuit::new(vec![
        vec![Gate::new(0, 2, CIRCUIT_OP::ADD, 0)],
        vec![Gate::new(0, 1, CIRCUIT_OP::ADD, 0), Gate::new(2, 3, CIRCUIT_OP::MUL, 1)],
    ]);
    assert!(!beyond.is_wired(4));
}

#[test]
fn end_to_end_on_two_layers() {
    let inputs = fs(&[1, 2, 3, 4]);
    let (mut circuit, proof) = prove(two_layer_gates(), &inputs);
    assert_eq!(proof.output, fs(&[15]));
    assert_eq!(proof.claimed_sums.len(), 2);
    assert_eq!(proof.round_polys.len(), 2);
    assert_eq!(proof.evaluations.len(), 2);
    // Layer 0 takes from two values: one bit each side, two rounds.
    assert_eq!(proof.round_polys[0].len(), 2);
    // Layer 1 takes from four inputs: two bits each side, four rounds.
    assert_eq!(proof.round_polys[1].len(), 4);
    assert!(verify(&mut circuit, &inputs, &proof));
}

#[test]
fn the_first_claim_is_the_output_at_the_challenges() {
    let inputs = fs(&[1, 2, 3, 4]);
    let (_, proof) = prove(two_layer_gates(), &inputs);
    let padded = padded_poly(&proof.output, 1);
    assert_eq!(padded.coeffs, fs(&[15, 0]));
    let mut transcript = fresh();
    gkr::sumcheck::absorb_elements(&padded.coeffs, &mut transcript);
    let r = transcript.squeeze();
    assert_eq!(proof.claimed_sums[0], padded.evaluate(&vec![r]));
}

#[test]
fn altered_inputs_are_refused() {
    let inputs = fs(&[1, 2, 3, 4]);
    let (mut circuit, proof) = prove(two_layer_gates(), &inputs);
    for k in 0..4 {
        let mut altered = inputs.clone();
        altered[k] = altered[k].add(&f(1));
        assert!(!verify(&mut circuit, &altered, &proof));
    }
}

#[test]
fn an_altered_proof_is_refused() {
    let inputs = fs(&[1, 2, 3, 4]);
    let (mut circuit, proof) = prove(two_layer_gates(), &inputs);
    for layer in 0..2 {
        let mut altered = proof.clone();
        altered.claimed_sums[layer] = altered.claimed_sums[layer].add(&f(1));
        assert!(!verify(&mut circuit, &inputs, &altered));
        for round in 0..proof.round_polys[layer].len() {
            for entry in 0..3 {
                let mut altered = proof.clone();
                altered.round_polys[layer][round][entry] =
                    altered.round_polys[layer][round][entry].add(&f(1));
                assert!(!verify(&mut circuit, &inputs, &altered));
            }
        }
    }
    let mut altered = proof.clone();
    altered.evaluations[0].0 = altered.evaluations[0].0.add(&f(1));
    assert!(!verify(&mut circuit, &inputs, &altered));
    let mut altered = proof.clone();
    altered.output[0] = f(16);
    assert!(!verify(&mut circuit, &inputs, &altered));
}

#[test]
fn a_proof_of_another_shape_is_refused() {
    let inputs = fs(&[1, 2, 3, 4]);
    let (mut circuit, proof) = prove(two_layer_gates(), &inputs);
    assert!(check_shape(&circuit, 4, &proof));
    let mut short = proof.clone();
    short.claimed_sums.pop();
    assert!(!check_shape(&circuit, 4, &short));
    assert!(!verify(&mut circuit, &inputs, &short));
    let mut short = proof.clone();
    short.round_polys[1].pop();
    assert!(!verify(&mut circuit, &inputs, &short));
    let mut short = proof.clone();
    short.evaluations.pop();
    assert!(!verify(&mut circuit, &inputs, &short));
    let mut long = proof.clone();
    long.output.push(f(0));
    assert!(!verify(&mut circuit, &inputs, &long));
    let mut bad = proof.clone();
    bad.round_polys[0][0].push(f(0));
    assert!(!verify(&mut circuit, &inputs, &bad));
}

#[test]
fn end_to_end_on_three_layers() {
    let inputs = fs(&[1, 2, 3, 4, 5, 6, 7, 8]);
    let (mut circuit, proof) = prove(three_layer_gates(), &inputs);
    // (1+2) + (3*4) = 15, (5*6) * (7+8) = 450, 15 * 450 = 6750.
    assert_eq!(proof.output, fs(&[6750]));
    assert!(verify(&mut circuit, &inputs, &proof));
    let mut altered = inputs.clone();
    altered[7] = f(9);
    assert!(!verify(&mut circuit, &altered, &proof));
    let mut altered = proof.clone();
    altered.evaluations[1].1 = altered.evaluations[1].1.add(&f(1));
    assert!(!verify(&mut circuit, &inputs, &altered));
}

#[test]
fn end_to_end_with_a_layer_that_is_no_power_of_two() {
    // Three gates over four inputs, then one gate over the three.
    let gates = vec![
        vec![Gate::new(0, 2, CIRCUIT_OP::MUL, 0)],
        vec![
            Gate::new(0, 1, CIRCUIT_OP::ADD, 0),
            Gate::new(1, 2, CIRCUIT_OP::MUL, 1),
            Gate::new(2, 3, CIRCUIT_OP::ADD, 2),
        ],
    ];
    let inputs = fs(&[5, 7, 11, 13]);
    let (mut circuit, proof) = prove(gates, &inputs);
    // (5 + 7) * (11 + 13) = 288.
    assert_eq!(proof.output, fs(&[288]));
    assert!(verify(&mut circuit, &inputs, &proof));
    assert!(!verify(&mut circuit, &fs(&[5, 7, 12, 13]), &proof));
}

#[test]
fn the_number_of_inputs_must_be_a_power_of_two() {
    let gates = vec![vec![
        Gate::new(0, 1, CIRCUIT_OP::ADD, 0),
        Gate::new(1, 2, CIRCUIT_OP::MUL, 1),
    ]];
    let circuit = Circuit::new(gates);
    assert!(circuit.is_wired(3));
    assert!(!is_provable(&circuit, 3));
    assert!(is_provable(&circuit, 4));
    assert!(is_provable(&Circuit::new(two_layer_gates()), 4));
    assert!(!is_provable(&Circuit::new(two_layer_gates()), 2));
}

#[test]
fn end_to_end_on_one_layer_with_one_input() {
    let gates = vec![vec![Gate::new(0, 0, CIRCUIT_OP::MUL, 0)]];
    let inputs = fs(&[9]);
    let (mut circuit, proof) = prove(gates, &inputs);
    assert_eq!(proof.output, fs(&[81]));
    assert!(verify(&mut circuit, &inputs, &proof));
    assert!(!verify(&mut circuit, &fs(&[8]), &proof));
}

#[test]
fn prover_and_verifier_leave_the_transcript_alike() {
    let inputs = fs(&[1, 2, 3, 4]);
    let mut circuit = Circuit::new(two_layer_gates());
    let mut proving = fresh();
    let proof = generate_proof(&mut circuit, &inputs, &mut proving);
    let mut verifying = fresh();
    assert!(verify_proof(&mut circuit, &inputs, &mut verifying, proof));
    assert_eq!(proving.squeeze(), verifying.squeeze());
}

#[test]
fn the_wiring_of_a_layer() {
    let layer = vec![Gate::new(0, 1, CIRCUIT_OP::ADD, 0), Gate::new(1, 1, CIRCUIT_OP::MUL, 1)];
    let (add, mul) = wiring_polys(&layer, 1, 1);
    // Place, left, right: gate 0 is ADD at (0, 0, 1), gate 1 is MUL at (1, 1, 1).
    assert_eq!(add.coeffs, fs(&[0, 1, 0, 0, 0, 0, 0, 0]));
    assert_eq!(mul.coeffs, fs(&[0, 0, 0, 0, 0, 0, 0, 1]));
    assert_eq!(add.num_vars, 3);
    assert_eq!(max_input_of(&layer), 1);
    assert_eq!(max_input_of(&vec![]), 0);
}

#[test]
fn restricting_and_taking_ranges() {
    let poly = MultivariatePoly::new(fs(&[0, 4, 3, 7, 2, 6, 5, 9]), 3);
    assert_eq!(restrict_to(&poly, &vec![f(2)]).coeffs, fs(&[4, 8, 7, 11]));
    assert_eq!(restrict_to(&poly, &vec![]).coeffs, poly.coeffs);
    assert_eq!(take_range(&fs(&[1, 2, 3, 4]), 1, 3), fs(&[2, 3]));
    assert_eq!(padded_poly(&fs(&[1, 2, 3]), 2).coeffs, fs(&[1, 2, 3, 0]));
}
