//! The GKR protocol: a prover convinces a verifier of the outputs of a
//! layered circuit, one sum-check per layer, from the layer of the outputs
//! down to the inputs.

use vstd::prelude::*;
use crate::field::FieldElement;
use crate::field::fred;
use crate::field::values;
use crate::field::reduced;
use crate::field::encode_all;
use crate::powers::two_pow;
use crate::powers::lemma_two_pow_positive;
use crate::powers::lemma_two_pow_adds;
use crate::powers::lemma_two_pow_monotonic;
use crate::powers::lemma_two_pow_strictly_monotonic;
use crate::powers::lemma_two_pow_64;
use crate::powers::checked_two_pow;
use crate::powers::lemma_log2_of_two_pow;
use crate::dense_polynomial::DensePolynomial;
use crate::circuit::CIRCUIT_OP;
use crate::wiring::Gate;
use crate::wiring::Circuit;
use crate::wiring::gates_of;
use crate::wiring::wired;
use crate::wiring::layer_len;
use crate::wiring::layer_values;
use crate::multilinear::MultivariatePoly;
use crate::multilinear::mle_eval;
use crate::multilinear::restrict;
use crate::multilinear::option_values;
use crate::multilinear::assigned_count;
use crate::multilinear::scaled;
use crate::multilinear::pointwise_sum;
use crate::multilinear::pointwise_product;
use crate::multilinear::blow_left;
use crate::multilinear::blow_right;
use crate::multilinear::copy_table;
use crate::composite::Composite;
use crate::composite::OP;
use crate::sumcheck::absorb_elements;
use crate::sumcheck::generate_partial_proof;
use crate::sumcheck::verify_partial_proof_2;
use crate::sumcheck::prover_state;
use crate::sumcheck::prover_record;
use crate::sumcheck::prover_challenge;
use crate::sumcheck::verifier_outcome;
use crate::sumcheck::reduced_table;
use crate::sumcheck::range_sum;
use crate::sumcheck::records_of;
use crate::transcript::HashTrait;
use crate::transcript::Transcript;
use crate::transcript::challenge_of;
use crate::transcript::state_after;

verus! {

/// The number of bits that indices below `len` take, and at least one: the
/// least `k` from one on with `len <= 2^k`.
pub open spec fn bits_for(len: int) -> nat
    decreases len,
{
    if len <= 2 {
        1
    } else {
        1 + bits_for((len + 1) / 2)
    }
}

/// `bits_for(len)` is the least `k` from one on with `len <= 2^k`.
pub proof fn lemma_bits_for_least(len: int, k: nat)
    requires
        k >= 1,
        len <= two_pow(k),
        k == 1 || two_pow((k - 1) as nat) < len,
    ensures
        bits_for(len) == k,
    decreases k,
{
    assert(two_pow(1) == 2) by {
        reveal_with_fuel(two_pow, 2);
    }
    if len <= 2 {
        if k > 1 {
            lemma_two_pow_monotonic(1, (k - 1) as nat);
        }
    } else {
        assert(k >= 2);
        let half = (len + 1) / 2;
        let p = two_pow((k - 2) as nat);
        assert(two_pow((k - 1) as nat) == 2 * p);
        assert(two_pow(k) == 2 * two_pow((k - 1) as nat));
        lemma_bits_for_least(half, (k - 1) as nat);
    }
}

/// Indices below `len` fit `bits_for(len)` bits, and no fewer from one on.
pub proof fn lemma_bits_for_bounds(len: int)
    ensures
        bits_for(len) >= 1,
        len <= two_pow(bits_for(len)),
        bits_for(len) == 1 || two_pow((bits_for(len) - 1) as nat) < len,
    decreases len,
{
    assert(two_pow(1) == 2) by {
        reveal_with_fuel(two_pow, 2);
    }
    if len > 2 {
        lemma_bits_for_bounds((len + 1) / 2);
        let k = bits_for((len + 1) / 2);
        assert(two_pow(k + 1) == 2 * two_pow(k));
        if k > 1 {
            assert(two_pow(k) == 2 * two_pow((k - 1) as nat));
        }
    }
}

/// The number of bits that indices below `no` take, and at least one.
pub fn next_pow_of_2(no: usize) -> (r: usize)
    ensures
        r == bits_for(no as int),
        1 <= r <= 64,
{
    let mut bits: usize = 1;
    let mut cap: usize = 2;
    proof {
        assert(two_pow(1) == 2) by {
            reveal_with_fuel(two_pow, 2);
        }
    }
    while cap < no
        invariant
            1 <= bits < 64,
            cap >= 2,
            cap == two_pow(bits as nat),
            bits == 1 || two_pow((bits - 1) as nat) < no,
        decreases 64 - bits,
    {
        proof {
            assert(two_pow((bits + 1) as nat) == 2 * two_pow(bits as nat));
        }
        if cap > usize::MAX / 2 {
            proof {
                lemma_two_pow_64();
                if bits + 1 < 64 {
                    lemma_two_pow_strictly_monotonic((bits + 1) as nat, 64);
                }
                if bits + 1 > 64 {
                    lemma_two_pow_strictly_monotonic(64, (bits + 1) as nat);
                }
                lemma_bits_for_least(no as int, (bits + 1) as nat);
            }
            return bits + 1;
        }
        cap = cap * 2;
        bits = bits + 1;
        proof {
            if bits >= 64 {
                lemma_two_pow_64();
                lemma_two_pow_monotonic(64, bits as nat);
            }
        }
    }
    proof {
        lemma_bits_for_least(no as int, bits as nat);
    }
    bits
}

/// Whether the triple of an index, read as the place of a gate, then of its
/// left and of its right operand, each operand on `in_bits` bits, is a gate
/// of the layer with the given operation: one if so, and zero if not.
pub open spec fn wiring_entry(gates: Seq<Gate>, op: CIRCUIT_OP, in_bits: nat, index: int) -> int {
    let width = two_pow(in_bits);
    let place = index / (width * width);
    let left = (index / width) % width;
    let right = index % width;
    if 0 <= place < gates.len() && gates[place].op == op && gates[place].left_input == left
        && gates[place].right_input == right {
        1
    } else {
        0
    }
}

/// The wiring of a layer for one operation, as a table over the places of
/// the gates on `out_bits` bits and of both operands on `in_bits` bits each.
pub open spec fn wiring_table(gates: Seq<Gate>, op: CIRCUIT_OP, out_bits: nat, in_bits: nat) -> Seq<
    int,
> {
    Seq::new(
        two_pow(out_bits + 2 * in_bits) as nat,
        |index: int| wiring_entry(gates, op, in_bits, index),
    )
}

/// The greatest place of an operand that the first `k` gates name.
pub open spec fn max_input(gates: Seq<Gate>, k: int) -> int
    decreases k,
{
    if k <= 0 {
        0
    } else {
        let before = max_input(gates, k - 1);
        let left = gates[k - 1].left_input as int;
        let right = gates[k - 1].right_input as int;
        if left >= before && left >= right {
            left
        } else if right >= before {
            right
        } else {
            before
        }
    }
}

/// The number of bits of the places of the operands of layer `i`: those of
/// the gates of the next layer, and for the last layer those up to the
/// greatest place that its gates name.
pub open spec fn input_bits(gates: Seq<Seq<Gate>>, i: int) -> nat {
    if i + 1 < gates.len() {
        bits_for(gates[i + 1].len() as int)
    } else {
        bits_for(max_input(gates[i], gates[i].len() as int) + 1)
    }
}

/// The number of bits of the places of the gates of layer `i`.
pub open spec fn output_bits(gates: Seq<Seq<Gate>>, i: int) -> nat {
    bits_for(gates[i].len() as int)
}

/// The three parts of the index of a triple are the triple.
pub proof fn lemma_index_parts(place: int, left: int, right: int, width: int)
    requires
        width >= 1,
        place >= 0,
        0 <= left < width,
        0 <= right < width,
    ensures
        ({
            let index = place * (width * width) + left * width + right;
            &&& index / (width * width) == place
            &&& (index / width) % width == left
            &&& index % width == right
        }),
{
    let index = place * (width * width) + left * width + right;
    let upper = place * width + left;
    assert(index == upper * width + right) by (nonlinear_arith)
        requires
            index == place * (width * width) + left * width + right,
            upper == place * width + left,
    ;
    vstd::arithmetic::div_mod::lemma_fundamental_div_mod_converse(index, width, upper, right);
    vstd::arithmetic::div_mod::lemma_fundamental_div_mod_converse(upper, width, place, left);
    assert(upper >= 0) by (nonlinear_arith)
        requires
            upper == place * width + left,
            place >= 0,
            width >= 1,
            left >= 0,
    ;
    assert(index >= 0) by (nonlinear_arith)
        requires
            index == upper * width + right,
            upper >= 0,
            width >= 1,
            right >= 0,
    ;
    vstd::arithmetic::div_mod::lemma_div_denominator(index, width, width);
}

/// An index is the index of the triple of its three parts.
pub proof fn lemma_index_whole(index: int, width: int)
    requires
        width >= 1,
        index >= 0,
    ensures
        index == (index / (width * width)) * (width * width) + ((index / width) % width) * width
            + index % width,
{
    let upper = index / width;
    vstd::arithmetic::div_mod::lemma_fundamental_div_mod(index, width);
    vstd::arithmetic::div_mod::lemma_fundamental_div_mod(upper, width);
    vstd::arithmetic::div_mod::lemma_div_denominator(index, width, width);
    let place = upper / width;
    let left = upper % width;
    assert(index == place * (width * width) + left * width + index % width) by (nonlinear_arith)
        requires
            index == width * upper + index % width,
            upper == width * place + left,
    ;
}

/// The wiring of a layer as two polynomials, one for its `ADD` gates and one
/// for its `MUL` gates: each is one at the triples of the place of such a
/// gate and the places of its operands, and zero elsewhere.
pub fn wiring_polys(layer: &Vec<Gate>, out_bits: usize, in_bits: usize) -> (r: (
    MultivariatePoly,
    MultivariatePoly,
))
    requires
        layer@.len() <= two_pow(out_bits as nat),
        forall|j: int|
            0 <= j < layer@.len() ==> (#[trigger] layer@[j]).left_input < two_pow(in_bits as nat)
                && layer@[j].right_input < two_pow(in_bits as nat),
        out_bits + 2 * in_bits <= usize::MAX,
        two_pow((out_bits + 2 * in_bits) as nat) <= usize::MAX,
    ensures
        r.0.wf(),
        r.1.wf(),
        r.0.num_vars == out_bits + 2 * in_bits,
        r.1.num_vars == out_bits + 2 * in_bits,
        r.0.values() == wiring_table(layer@, CIRCUIT_OP::ADD, out_bits as nat, in_bits as nat),
        r.1.values() == wiring_table(layer@, CIRCUIT_OP::MUL, out_bits as nat, in_bits as nat),
{
    let vars = out_bits + 2 * in_bits;
    proof {
        lemma_two_pow_adds(out_bits as nat, (2 * in_bits) as nat);
        lemma_two_pow_adds(in_bits as nat, in_bits as nat);
        lemma_two_pow_positive(out_bits as nat);
        lemma_two_pow_positive(in_bits as nat);
        lemma_two_pow_monotonic(in_bits as nat, vars as nat);
        lemma_two_pow_monotonic((2 * in_bits) as nat, vars as nat);
    }
    let width = checked_two_pow(in_bits).unwrap();
    let square = checked_two_pow(2 * in_bits).unwrap();
    let points_len = checked_two_pow(vars).unwrap();
    assert(square == width * width);
    assert(points_len == two_pow(out_bits as nat) * square);
    let mut add_poly: Vec<FieldElement> = Vec::with_capacity(points_len);
    let mut mul_poly: Vec<FieldElement> = Vec::with_capacity(points_len);
    let mut t: usize = 0;
    while t < points_len
        invariant
            t <= points_len,
            add_poly@.len() == t,
            mul_poly@.len() == t,
            forall|s: int| 0 <= s < t ==> (#[trigger] add_poly@[s])@ == 0,
            forall|s: int| 0 <= s < t ==> (#[trigger] mul_poly@[s])@ == 0,
        decreases points_len - t,
    {
        add_poly.push(FieldElement::zero());
        mul_poly.push(FieldElement::zero());
        t = t + 1;
    }
    let mut j: usize = 0;
    while j < layer.len()
        invariant
            j <= layer@.len(),
            width >= 1,
            width == two_pow(in_bits as nat),
            square == width * width,
            points_len == two_pow(out_bits as nat) * square,
            layer@.len() <= two_pow(out_bits as nat),
            forall|s: int|
                0 <= s < layer@.len() ==> (#[trigger] layer@[s]).left_input < width
                    && layer@[s].right_input < width,
            add_poly@.len() == points_len,
            mul_poly@.len() == points_len,
            forall|s: int|
                0 <= s < points_len ==> (#[trigger] add_poly@[s])@ == wiring_entry(
                    layer@.subrange(0, j as int),
                    CIRCUIT_OP::ADD,
                    in_bits as nat,
                    s,
                ),
            forall|s: int|
                0 <= s < points_len ==> (#[trigger] mul_poly@[s])@ == wiring_entry(
                    layer@.subrange(0, j as int),
                    CIRCUIT_OP::MUL,
                    in_bits as nat,
                    s,
                ),
        decreases layer@.len() - j,
    {
        let gate = layer[j];
        let ghost before = layer@.subrange(0, j as int);
        let ghost after = layer@.subrange(0, j + 1);
        let ghost target = j * (width * width) + gate.left_input * width + gate.right_input;
        proof {
            assert(layer@[j as int].left_input < width);
            assert(target < points_len && j * square >= 0 && gate.left_input * width >= 0
                && j * square + gate.left_input * width <= target) by (nonlinear_arith)
                requires
                    target == j * (width * width) + gate.left_input * width + gate.right_input,
                    square == width * width,
                    points_len == two_pow(out_bits as nat) * square,
                    j < two_pow(out_bits as nat),
                    gate.left_input < width,
                    gate.right_input < width,
                    width >= 1,
            ;
            lemma_index_parts(j as int, gate.left_input as int, gate.right_input as int, width as int);
        }
        let index = j * square + gate.left_input * width + gate.right_input;
        let ghost add_before = add_poly@;
        let ghost mul_before = mul_poly@;
        match gate.op {
            CIRCUIT_OP::ADD => {
                add_poly.set(index, FieldElement::one());
            },
            CIRCUIT_OP::MUL => {
                mul_poly.set(index, FieldElement::one());
            },
        }
        proof {
            assert forall|s: int| 0 <= s < points_len implies (#[trigger] add_poly@[s])@
                == wiring_entry(after, CIRCUIT_OP::ADD, in_bits as nat, s) by {
                assert(add_before[s]@ == wiring_entry(before, CIRCUIT_OP::ADD, in_bits as nat, s));
                let place = s / (width * width);
                assert(after[j as int] == gate);
                if place < j {
                    assert(after[place] == before[place]);
                }
                if s != index {
                    lemma_index_whole(s, width as int);
                }
            }
            assert forall|s: int| 0 <= s < points_len implies (#[trigger] mul_poly@[s])@
                == wiring_entry(after, CIRCUIT_OP::MUL, in_bits as nat, s) by {
                assert(mul_before[s]@ == wiring_entry(before, CIRCUIT_OP::MUL, in_bits as nat, s));
                let place = s / (width * width);
                assert(after[j as int] == gate);
                if place < j {
                    assert(after[place] == before[place]);
                }
                if s != index {
                    lemma_index_whole(s, width as int);
                }
            }
        }
        j = j + 1;
    }
    proof {
        assert(layer@.subrange(0, layer@.len() as int) =~= layer@);
        assert(values(add_poly@) =~= wiring_table(
            layer@,
            CIRCUIT_OP::ADD,
            out_bits as nat,
            in_bits as nat,
        ));
        assert(values(mul_poly@) =~= wiring_table(
            layer@,
            CIRCUIT_OP::MUL,
            out_bits as nat,
            in_bits as nat,
        ));
    }
    (MultivariatePoly::new(add_poly, vars), MultivariatePoly::new(mul_poly, vars))
}

/// Whether the wiring of every layer can be built: no layer is empty, the
/// operands of a layer but the last exist in the next layer, the places of
/// the operands of the last layer can be counted, and no table is longer
/// than memory allows.
pub open spec fn wiring_fits(gates: Seq<Seq<Gate>>) -> bool {
    &&& forall|i: int| 0 <= i < gates.len() ==> (#[trigger] gates[i]).len() >= 1
    &&& forall|i: int, j: int|
        0 <= i < gates.len() - 1 && 0 <= j < gates[i].len() ==> (#[trigger] gates[i][j]).left_input
            < gates[i + 1].len() && gates[i][j].right_input < gates[i + 1].len()
    &&& gates.len() >= 1 ==> max_input(gates.last(), gates.last().len() as int) < usize::MAX
    &&& forall|i: int|
        0 <= i < gates.len() ==> two_pow(#[trigger] output_bits(gates, i) + 2 * input_bits(gates, i))
            <= usize::MAX
}

/// The greatest place of an operand that the gates of a layer name.
pub fn max_input_of(layer: &Vec<Gate>) -> (r: usize)
    ensures
        r == max_input(layer@, layer@.len() as int),
        forall|j: int|
            0 <= j < layer@.len() ==> (#[trigger] layer@[j]).left_input <= r
                && layer@[j].right_input <= r,
{
    let mut best: usize = 0;
    let mut k: usize = 0;
    while k < layer.len()
        invariant
            k <= layer@.len(),
            best == max_input(layer@, k as int),
            forall|j: int|
                0 <= j < k ==> (#[trigger] layer@[j]).left_input <= best
                    && layer@[j].right_input <= best,
        decreases layer@.len() - k,
    {
        let gate = layer[k];
        if gate.left_input >= best && gate.left_input >= gate.right_input {
            best = gate.left_input;
        } else if gate.right_input >= best {
            best = gate.right_input;
        }
        k = k + 1;
    }
    best
}

/// Adds to `add_and_muls` the wiring of each layer of the circuit, the layer
/// of the outputs first: for each layer the polynomial of its `ADD` gates
/// and the polynomial of its `MUL` gates.
pub fn get_add_and_muls(
    circuit: &Circuit,
    add_and_muls: &mut Vec<(MultivariatePoly, MultivariatePoly)>,
)
    requires
        wiring_fits(gates_of(circuit.gates@)),
    ensures
        final(add_and_muls)@.len() == old(add_and_muls)@.len() + circuit.gates@.len(),
        forall|k: int|
            0 <= k < old(add_and_muls)@.len() ==> final(add_and_muls)@[k] == old(
                add_and_muls,
            )@[k],
        forall|i: int|
            0 <= i < circuit.gates@.len() ==> {
                let pair = #[trigger] final(add_and_muls)@[old(add_and_muls)@.len() + i];
                let gates = gates_of(circuit.gates@);
                &&& pair.0.wf()
                &&& pair.1.wf()
                &&& pair.0.num_vars == output_bits(gates, i) + 2 * input_bits(gates, i)
                &&& pair.1.num_vars == output_bits(gates, i) + 2 * input_bits(gates, i)
                &&& pair.0.values() == wiring_table(
                    gates[i],
                    CIRCUIT_OP::ADD,
                    output_bits(gates, i),
                    input_bits(gates, i),
                )
                &&& pair.1.values() == wiring_table(
                    gates[i],
                    CIRCUIT_OP::MUL,
                    output_bits(gates, i),
                    input_bits(gates, i),
                )
            },
{
    let ghost gates = gates_of(circuit.gates@);
    let ghost held = add_and_muls@;
    let depth = circuit.gates.len();
    let mut i: usize = 0;
    while i < depth
        invariant
            i <= depth,
            depth == circuit.gates@.len(),
            gates == gates_of(circuit.gates@),
            wiring_fits(gates),
            add_and_muls@.len() == held.len() + i,
            forall|k: int| 0 <= k < held.len() ==> add_and_muls@[k] == held[k],
            forall|t: int|
                0 <= t < i ==> {
                    let pair = #[trigger] add_and_muls@[held.len() + t];
                    &&& pair.0.wf()
                    &&& pair.1.wf()
                    &&& pair.0.num_vars == output_bits(gates, t) + 2 * input_bits(gates, t)
                    &&& pair.1.num_vars == output_bits(gates, t) + 2 * input_bits(gates, t)
                    &&& pair.0.values() == wiring_table(
                        gates[t],
                        CIRCUIT_OP::ADD,
                        output_bits(gates, t),
                        input_bits(gates, t),
                    )
                    &&& pair.1.values() == wiring_table(
                        gates[t],
                        CIRCUIT_OP::MUL,
                        output_bits(gates, t),
                        input_bits(gates, t),
                    )
                },
        decreases depth - i,
    {
        let layer = &circuit.gates[i];
        let gates_length = layer.len();
        proof {
            assert(layer@ == gates[i as int]);
            assert(gates[i as int].len() >= 1);
            assert(two_pow(output_bits(gates, i as int) + 2 * input_bits(gates, i as int))
                <= usize::MAX);
        }
        let layer_length = if depth <= i + 1 {
            let greatest = max_input_of(layer);
            assert(gates.last() == gates[i as int]);
            greatest + 1
        } else {
            circuit.gates[i + 1].len()
        };
        let max_layer_bits = next_pow_of_2(layer_length);
        let max_gates_bits = next_pow_of_2(gates_length);
        proof {
            assert(max_layer_bits == input_bits(gates, i as int));
            assert(max_gates_bits == output_bits(gates, i as int));
            lemma_bits_for_bounds(layer_length as int);
            lemma_bits_for_bounds(gates_length as int);
            assert forall|j: int| 0 <= j < layer@.len() implies (#[trigger] layer@[j]).left_input
                < two_pow(max_layer_bits as nat) && layer@[j].right_input < two_pow(
                max_layer_bits as nat,
            ) by {
                assert(gates[i as int][j] == layer@[j]);
            }
        }
        let pair = wiring_polys(layer, max_gates_bits, max_layer_bits);
        add_and_muls.push(pair);
        i = i + 1;
    }
}

/// The assignment that gives the first variables the coordinates of a
/// point.
pub open spec fn all_some(point: Seq<int>) -> Seq<Option<int>> {
    Seq::new(point.len(), |i: int| Some(point[i]))
}

/// An assignment of the coordinates of a point gives as many variables a
/// value as the point has coordinates.
pub proof fn lemma_all_some_count(point: Seq<int>)
    ensures
        assigned_count(all_some(point)) == point.len(),
    decreases point.len(),
{
    if point.len() > 0 {
        lemma_all_some_count(point.drop_last());
        assert(all_some(point).drop_last() =~= all_some(point.drop_last()));
    }
}

/// The table left when the first variables are set to the coordinates of a
/// point.
pub open spec fn restrict_prefix(vals: Seq<int>, point: Seq<int>) -> Seq<int> {
    restrict(vals, all_some(point), 0)
}

/// `alpha` times the table with its first variables at `first`, plus `beta`
/// times the table with them at `second`.
pub open spec fn folded(
    vals: Seq<int>,
    alpha: int,
    beta: int,
    first: Seq<int>,
    second: Seq<int>,
) -> Seq<int> {
    reduced(
        pointwise_sum(
            reduced(scaled(restrict_prefix(vals, first), alpha)),
            reduced(scaled(restrict_prefix(vals, second), beta)),
        ),
    )
}

/// A list of values with zeros after it, up to `2^bits` entries.
pub open spec fn padded(vals: Seq<int>, bits: nat) -> Seq<int> {
    Seq::new(
        two_pow(bits) as nat,
        |i: int|
            if i < vals.len() {
                vals[i]
            } else {
                0
            },
    )
}

/// The entries of a list from `lo` up to `hi`.
pub fn take_range(list: &Vec<FieldElement>, lo: usize, hi: usize) -> (r: Vec<FieldElement>)
    requires
        lo <= hi <= list@.len(),
    ensures
        r@ == list@.subrange(lo as int, hi as int),
{
    let mut out: Vec<FieldElement> = Vec::with_capacity(hi - lo);
    let mut i: usize = lo;
    while i < hi
        invariant
            lo <= i <= hi <= list@.len(),
            out@ == list@.subrange(lo as int, i as int),
        decreases hi - i,
    {
        out.push(list[i]);
        proof {
            assert(list@.subrange(lo as int, i as int).push(list@[i as int]) =~= list@.subrange(
                lo as int,
                i + 1,
            ));
        }
        i = i + 1;
    }
    out
}

/// The polynomial with its first variables set to the coordinates of a
/// point.
pub fn restrict_to(poly: &MultivariatePoly, point: &Vec<FieldElement>) -> (r: MultivariatePoly)
    requires
        poly.wf(),
        point@.len() <= poly.num_vars,
    ensures
        r.wf(),
        r.num_vars == poly.num_vars - point@.len(),
        r.values() == restrict_prefix(poly.values(), values(point@)),
{
    let mut assignment: Vec<Option<FieldElement>> = Vec::with_capacity(point.len());
    let mut i: usize = 0;
    while i < point.len()
        invariant
            i <= point@.len(),
            assignment@.len() == i,
            forall|t: int| 0 <= t < i ==> (#[trigger] assignment@[t]) == Some(point@[t]),
        decreases point@.len() - i,
    {
        assignment.push(Some(point[i]));
        i = i + 1;
    }
    proof {
        assert(option_values(assignment@) =~= all_some(values(point@)));
        lemma_all_some_count(values(point@));
    }
    poly.solve(&assignment)
}

/// The polynomial with its first variables set to the first half of the
/// challenges, times `alpha`, plus the polynomial with them set to the
/// second half, times `beta`.
pub fn apply_alpha_beta(
    alpha: FieldElement,
    beta: FieldElement,
    challenges: &Vec<FieldElement>,
    former_op_poly: &MultivariatePoly,
) -> (r: MultivariatePoly)
    requires
        former_op_poly.wf(),
        challenges@.len() / 2 <= former_op_poly.num_vars,
    ensures
        r.wf(),
        r.num_vars == former_op_poly.num_vars - challenges@.len() / 2,
        r.values() == folded(
            former_op_poly.values(),
            alpha@,
            beta@,
            values(challenges@).subrange(0, challenges@.len() as int / 2),
            values(challenges@).subrange(
                challenges@.len() as int / 2,
                2 * (challenges@.len() as int / 2),
            ),
        ),
{
    let no_of_challenges = challenges.len() / 2;
    let first = take_range(challenges, 0, no_of_challenges);
    let second = take_range(challenges, no_of_challenges, 2 * no_of_challenges);
    proof {
        assert(values(first@) =~= values(challenges@).subrange(0, no_of_challenges as int));
        assert(values(second@) =~= values(challenges@).subrange(
            no_of_challenges as int,
            2 * no_of_challenges,
        ));
    }
    let at_first = restrict_to(former_op_poly, &first);
    let at_second = restrict_to(former_op_poly, &second);
    at_first.scalar_mul(alpha).add(&at_second.scalar_mul(beta))
}

/// The polynomial whose table is a list of values with zeros after it.
pub fn padded_poly(vals: &Vec<FieldElement>, bits: usize) -> (r: MultivariatePoly)
    requires
        vals@.len() <= two_pow(bits as nat) <= usize::MAX,
    ensures
        r.wf(),
        r.num_vars == bits,
        r.values() == padded(values(vals@), bits as nat),
{
    let len = checked_two_pow(bits).unwrap();
    let mut table: Vec<FieldElement> = Vec::with_capacity(len);
    let mut i: usize = 0;
    while i < len
        invariant
            i <= len,
            table@.len() == i,
            forall|t: int|
                0 <= t < i ==> (#[trigger] table@[t])@ == (if t < vals@.len() {
                    vals@[t]@
                } else {
                    0
                }),
        decreases len - i,
    {
        if i < vals.len() {
            table.push(vals[i]);
        } else {
            table.push(FieldElement::zero());
        }
        i = i + 1;
    }
    proof {
        assert(values(table@) =~= padded(values(vals@), bits as nat));
    }
    MultivariatePoly::new(table, bits)
}


/// The operators of the composite of a layer: the wiring of the `ADD` gates
/// times the sums of the operands, plus the wiring of the `MUL` gates times
/// their products.
pub open spec fn layer_ops() -> Seq<OP> {
    seq![OP::MUL, OP::ADD, OP::MUL]
}

/// A layer as the protocol sees it: its gates, the values that they take
/// their operands from, the number of bits of the place of a gate and of an
/// operand, and whether it is the layer of the outputs.
pub struct LayerView {
    pub gates: Seq<Gate>,
    pub below: Seq<int>,
    pub out_bits: nat,
    pub in_bits: nat,
    pub first: bool,
}

/// The number of bits of the places of the values that layer `i` takes its
/// operands from.
pub open spec fn operand_bits(gates: Seq<Seq<Gate>>, inputs_len: int, i: int) -> nat {
    bits_for(layer_len(gates, inputs_len, i + 1))
}

/// Layer `i` of a circuit on given inputs.
pub open spec fn layer_view(gates: Seq<Seq<Gate>>, inputs: Seq<int>, i: int) -> LayerView {
    LayerView {
        gates: gates[i],
        below: layer_values(gates, inputs, i + 1),
        out_bits: output_bits(gates, i),
        in_bits: operand_bits(gates, inputs.len() as int, i),
        first: i == 0,
    }
}

/// Whether a proof can be made for a circuit and a number of inputs: they
/// fit together, the number of inputs is a power of two, and no table is
/// longer than memory allows.
pub open spec fn provable(gates: Seq<Seq<Gate>>, inputs_len: int) -> bool {
    &&& wired(gates, inputs_len)
    &&& crate::powers::is_power_of_two(inputs_len)
    &&& forall|i: int|
        0 <= i < gates.len() ==> two_pow(
            #[trigger] output_bits(gates, i) + 2 * operand_bits(gates, inputs_len, i),
        ) <= usize::MAX
}

/// The wiring of a layer for one operation with the places of its gates
/// bound: for the first layer to the challenges, for a later one to both
/// halves of the challenges, the two tables weighted by `alpha` and `beta`.
pub open spec fn bound_wiring(
    gates: Seq<Gate>,
    out_bits: nat,
    in_bits: nat,
    first: bool,
    op: CIRCUIT_OP,
    challenges: Seq<int>,
    alpha: int,
    beta: int,
) -> Seq<int> {
    let table = wiring_table(gates, op, out_bits, in_bits);
    if first {
        restrict_prefix(table, challenges)
    } else {
        let k = challenges.len() as int / 2;
        folded(table, alpha, beta, challenges.subrange(0, k), challenges.subrange(k, 2 * k))
    }
}

/// The values that a layer takes its operands from, with zeros after them.
pub open spec fn operand_table(layer: LayerView) -> Seq<int> {
    padded(layer.below, layer.in_bits)
}

/// The tables of the composite of a layer over the places of both
/// operands: the bound wiring of the `ADD` gates, the sums of the two
/// operands, the bound wiring of the `MUL` gates, the products of the two
/// operands.
pub open spec fn layer_tables(layer: LayerView, challenges: Seq<int>, alpha: int, beta: int) -> Seq<
    Seq<int>,
> {
    let w = operand_table(layer);
    let left = blow_right(w, layer.in_bits);
    let right = blow_left(w, layer.in_bits);
    seq![
        bound_wiring(
            layer.gates,
            layer.out_bits,
            layer.in_bits,
            layer.first,
            CIRCUIT_OP::ADD,
            challenges,
            alpha,
            beta,
        ),
        reduced(pointwise_sum(left, right)),
        bound_wiring(
            layer.gates,
            layer.out_bits,
            layer.in_bits,
            layer.first,
            CIRCUIT_OP::MUL,
            challenges,
            alpha,
            beta,
        ),
        reduced(pointwise_product(left, right)),
    ]
}

/// The challenges that open the protocol and the bytes that the transcript
/// then holds: the outputs, with zeros after them, are fed to it, and one
/// challenge is taken for each bit of the place of an output.
pub open spec fn opening<K: HashTrait>(bits: nat, outputs: Seq<int>, absorbed: Seq<u8>) -> (
    Seq<int>,
    Seq<u8>,
) {
    let fed = absorbed + encode_all(padded(outputs, bits));
    (
        Seq::new(bits, |t: int| challenge_of::<K>(state_after::<K>(fed, t as nat))),
        state_after::<K>(fed, bits),
    )
}

/// The first of the two weights of a layer, taken from the transcript.
pub open spec fn layer_alpha<K: HashTrait>(absorbed: Seq<u8>) -> int {
    challenge_of::<K>(absorbed)
}

/// The second of the two weights of a layer, taken from the transcript
/// after the first.
pub open spec fn layer_beta<K: HashTrait>(absorbed: Seq<u8>) -> int {
    challenge_of::<K>(K::digest(absorbed))
}

/// The bytes that the transcript holds when the sum-check of a layer
/// starts: for a layer after the first the two weights have been taken.
pub open spec fn layer_entry<K: HashTrait>(layer: LayerView, absorbed: Seq<u8>) -> Seq<u8> {
    if layer.first {
        absorbed
    } else {
        state_after::<K>(absorbed, 2)
    }
}

/// The tables of the composite of a layer for a prover or verifier that
/// comes to the layer with the given challenges and transcript.
pub open spec fn tables_at<K: HashTrait>(layer: LayerView, state: (Seq<int>, Seq<u8>)) -> Seq<
    Seq<int>,
> {
    layer_tables(layer, state.0, layer_alpha::<K>(state.1), layer_beta::<K>(state.1))
}

/// The sum that the prover claims for a layer: the sum of the composite
/// over the hypercube.
pub open spec fn prover_claim<K: HashTrait>(layer: LayerView, state: (Seq<int>, Seq<u8>)) -> int {
    fred(
        range_sum(
            reduced_table(tables_at::<K>(layer, state), layer_ops()),
            0,
            two_pow(2 * layer.in_bits),
        ),
    )
}

/// The records of the sum-check of a layer.
pub open spec fn prover_records<K: HashTrait>(layer: LayerView, state: (Seq<int>, Seq<u8>)) -> Seq<
    Seq<int>,
> {
    Seq::new(
        2 * layer.in_bits,
        |t: int|
            prover_record::<K>(
                tables_at::<K>(layer, state),
                layer_ops(),
                2 * layer.in_bits,
                layer_entry::<K>(layer, state.1),
                t as nat,
            ),
    )
}

/// The challenges of the sum-check of a layer.
pub open spec fn prover_point<K: HashTrait>(layer: LayerView, state: (Seq<int>, Seq<u8>)) -> Seq<
    int,
> {
    Seq::new(
        2 * layer.in_bits,
        |t: int|
            prover_challenge::<K>(
                tables_at::<K>(layer, state),
                layer_ops(),
                2 * layer.in_bits,
                layer_entry::<K>(layer, state.1),
                t as nat,
            ),
    )
}

/// The values of the multilinear extension of a table at the first and at
/// the second half of a point.
pub open spec fn half_evaluations(w: Seq<int>, point: Seq<int>) -> (int, int) {
    let k = point.len() as int / 2;
    (fred(mle_eval(w, point.subrange(0, k))), fred(mle_eval(w, point.subrange(k, 2 * k))))
}

/// What the prover says the operands of a layer evaluate to at the two
/// halves of the point that the sum-check ends on.
pub open spec fn prover_evaluations<K: HashTrait>(
    layer: LayerView,
    state: (Seq<int>, Seq<u8>),
) -> (int, int) {
    half_evaluations(operand_table(layer), prover_point::<K>(layer, state))
}

/// The challenges and the transcript with which the prover leaves a layer:
/// the point that the sum-check ended on, and the bytes after the sum-check
/// with the two evaluations fed after them.
pub open spec fn prover_leaves<K: HashTrait>(layer: LayerView, state: (Seq<int>, Seq<u8>)) -> (
    Seq<int>,
    Seq<u8>,
) {
    let evaluations = prover_evaluations::<K>(layer, state);
    (
        prover_point::<K>(layer, state),
        prover_state::<K>(
            tables_at::<K>(layer, state),
            layer_ops(),
            2 * layer.in_bits,
            layer_entry::<K>(layer, state.1),
            2 * layer.in_bits,
        ).1 + encode_all(seq![evaluations.0, evaluations.1]),
    )
}

/// The challenges and the transcript with which the prover comes to layer
/// `i`.
pub open spec fn prover_at<K: HashTrait>(
    gates: Seq<Seq<Gate>>,
    inputs: Seq<int>,
    absorbed: Seq<u8>,
    i: nat,
) -> (Seq<int>, Seq<u8>)
    decreases i,
{
    if i == 0 {
        opening::<K>(output_bits(gates, 0), layer_values(gates, inputs, 0), absorbed)
    } else {
        prover_leaves::<K>(
            layer_view(gates, inputs, i - 1),
            prover_at::<K>(gates, inputs, absorbed, (i - 1) as nat),
        )
    }
}

/// A proof of the outputs of a circuit: for each layer, the layer of the
/// outputs first, the sum that its sum-check claims, the records of the
/// rounds, and the two evaluations of the values below; and the outputs.
#[allow(non_camel_case_types)]
#[derive(Clone, Debug)]
pub struct GKR_PROOF {
    pub claimed_sums: Vec<FieldElement>,
    pub round_polys: Vec<Vec<Vec<FieldElement>>>,
    pub evaluations: Vec<(FieldElement, FieldElement)>,
    pub output: Vec<FieldElement>,
}

/// The wiring of a layer with the places of its gates bound, as two
/// polynomials over the places of both operands.
pub fn bind_wiring(
    layer: &Vec<Gate>,
    out_bits: usize,
    in_bits: usize,
    first: bool,
    challenges: &Vec<FieldElement>,
    alpha: FieldElement,
    beta: FieldElement,
) -> (r: (MultivariatePoly, MultivariatePoly))
    requires
        layer@.len() <= two_pow(out_bits as nat),
        forall|j: int|
            0 <= j < layer@.len() ==> (#[trigger] layer@[j]).left_input < two_pow(in_bits as nat)
                && layer@[j].right_input < two_pow(in_bits as nat),
        out_bits + 2 * in_bits <= usize::MAX,
        two_pow((out_bits + 2 * in_bits) as nat) <= usize::MAX,
        challenges@.len() == if first {
            out_bits as int
        } else {
            2 * out_bits
        },
    ensures
        r.0.wf(),
        r.1.wf(),
        r.0.num_vars == 2 * in_bits,
        r.1.num_vars == 2 * in_bits,
        r.0.values() == bound_wiring(
            layer@,
            out_bits as nat,
            in_bits as nat,
            first,
            CIRCUIT_OP::ADD,
            values(challenges@),
            alpha@,
            beta@,
        ),
        r.1.values() == bound_wiring(
            layer@,
            out_bits as nat,
            in_bits as nat,
            first,
            CIRCUIT_OP::MUL,
            values(challenges@),
            alpha@,
            beta@,
        ),
{
    let (add_poly, mul_poly) = wiring_polys(layer, out_bits, in_bits);
    if first {
        (restrict_to(&add_poly, challenges), restrict_to(&mul_poly, challenges))
    } else {
        (
            apply_alpha_beta(alpha, beta, challenges, &add_poly),
            apply_alpha_beta(alpha, beta, challenges, &mul_poly),
        )
    }
}

/// Whether a layer can be handled with the given widths: its gates and the
/// values below have places of those widths, and its tables fit memory.
pub open spec fn layer_fits(layer: LayerView, challenges_len: int) -> bool {
    &&& layer.gates.len() <= two_pow(layer.out_bits)
    &&& forall|j: int|
        0 <= j < layer.gates.len() ==> (#[trigger] layer.gates[j]).left_input < two_pow(
            layer.in_bits,
        ) && layer.gates[j].right_input < two_pow(layer.in_bits)
    &&& layer.below.len() <= two_pow(layer.in_bits)
    &&& 1 <= layer.in_bits <= 64
    &&& layer.out_bits <= 64
    &&& two_pow(layer.out_bits + 2 * layer.in_bits) <= usize::MAX
    &&& challenges_len == if layer.first {
        layer.out_bits as int
    } else {
        2 * layer.out_bits as int
    }
}

/// The composite of a layer: the bound wiring of its `ADD` gates times the
/// sums of the two operands, plus the bound wiring of its `MUL` gates times
/// their products, over the places of both operands.
fn layer_composite(
    layer: &Vec<Gate>,
    w_next: &MultivariatePoly,
    out_bits: usize,
    in_bits: usize,
    first: bool,
    challenges: &Vec<FieldElement>,
    alpha: FieldElement,
    beta: FieldElement,
    Ghost(view): Ghost<LayerView>,
) -> (r: Composite)
    requires
        view.gates == layer@,
        view.out_bits == out_bits,
        view.in_bits == in_bits,
        view.first == first,
        layer_fits(view, challenges@.len() as int),
        w_next.wf(),
        w_next.num_vars == in_bits,
        w_next.values() == operand_table(view),
    ensures
        r.wf(),
        r.num_vars() == 2 * in_bits,
        r.ops@ == layer_ops(),
        r.tables() == layer_tables(view, values(challenges@), alpha@, beta@),
{
    proof {
        lemma_two_pow_monotonic((2 * in_bits) as nat, (out_bits + 2 * in_bits) as nat);
        lemma_log2_of_two_pow((2 * in_bits) as nat);
    }
    let w_b = w_next.blow_up_right(in_bits as u32);
    let w_c = w_next.blow_up_left(in_bits as u32);
    let w_plus = w_b.add(&w_c);
    let w_mul = w_b.mul(&w_c);
    let (add_poly, mul_poly) = bind_wiring(layer, out_bits, in_bits, first, challenges, alpha, beta);
    let mut hypercubes: Vec<Vec<FieldElement>> = Vec::with_capacity(4);
    hypercubes.push(add_poly.coeffs);
    hypercubes.push(w_plus.coeffs);
    hypercubes.push(mul_poly.coeffs);
    hypercubes.push(w_mul.coeffs);
    let mut ops: Vec<OP> = Vec::with_capacity(3);
    ops.push(OP::MUL);
    ops.push(OP::ADD);
    ops.push(OP::MUL);
    proof {
        assert(ops@ =~= layer_ops());
    }
    let f_poly = Composite::new(&hypercubes, ops);
    proof {
        assert(f_poly.polys@[0].coeffs@ == hypercubes@[0]@);
        assert(f_poly.polys@[1].coeffs@ == hypercubes@[1]@);
        assert(f_poly.polys@[2].coeffs@ == hypercubes@[2]@);
        assert(f_poly.polys@[3].coeffs@ == hypercubes@[3]@);
        assert(f_poly.tables() =~= layer_tables(view, values(challenges@), alpha@, beta@));
    }
    f_poly
}

/// The prover's part in a layer. For a layer after the first it takes the
/// two weights from the transcript. It runs the sum-check on the composite
/// of the layer, evaluates the values below at the two halves of the point
/// that the sum-check ends on, and feeds the two evaluations to the
/// transcript. It returns the sum that the sum-check claims, the records of
/// its rounds, the two evaluations and the point.
pub fn prove_layer<K: HashTrait>(
    layer: &Vec<Gate>,
    below: &Vec<FieldElement>,
    out_bits: usize,
    in_bits: usize,
    first: bool,
    challenges: &Vec<FieldElement>,
    transcript: &mut Transcript<K>,
) -> (r: (FieldElement, Vec<Vec<FieldElement>>, (FieldElement, FieldElement), Vec<FieldElement>))
    requires
        layer_fits(
            LayerView {
                gates: layer@,
                below: values(below@),
                out_bits: out_bits as nat,
                in_bits: in_bits as nat,
                first,
            },
            challenges@.len() as int,
        ),
    ensures
        ({
            let view = LayerView {
                gates: layer@,
                below: values(below@),
                out_bits: out_bits as nat,
                in_bits: in_bits as nat,
                first,
            };
            let state = (values(challenges@), old(transcript).absorbed());
            &&& r.0@ == prover_claim::<K>(view, state)
            &&& records_of(r.1@) == prover_records::<K>(view, state)
            &&& (r.2.0@, r.2.1@) == prover_evaluations::<K>(view, state)
            &&& values(r.3@) == prover_point::<K>(view, state)
            &&& final(transcript).absorbed() == prover_leaves::<K>(view, state).1
        }),
{
    let ghost view = LayerView {
        gates: layer@,
        below: values(below@),
        out_bits: out_bits as nat,
        in_bits: in_bits as nat,
        first,
    };
    let ghost state = (values(challenges@), transcript.absorbed());
    let mut alpha = FieldElement::zero();
    let mut beta = FieldElement::zero();
    if !first {
        alpha = transcript.squeeze();
        beta = transcript.squeeze();
        proof {
            reveal_with_fuel(state_after, 3);
        }
    }
    proof {
        lemma_two_pow_monotonic(in_bits as nat, (out_bits + 2 * in_bits) as nat);
    }
    let w_next = padded_poly(below, in_bits);
    let f_poly = layer_composite(
        layer,
        &w_next,
        out_bits,
        in_bits,
        first,
        challenges,
        alpha,
        beta,
        Ghost(view),
    );
    let ghost tables = tables_at::<K>(view, state);
    let ghost entry = layer_entry::<K>(view, state.1);
    let ghost vars = (2 * in_bits) as nat;
    proof {
        assert(f_poly.tables() == tables);
        assert(transcript.absorbed() == entry);
    }
    let mut round_polys: Vec<DensePolynomial> = Vec::new();
    let mut point: Vec<FieldElement> = Vec::new();
    let sum = generate_partial_proof(&f_poly, transcript, &mut round_polys, &mut point);
    let mut records: Vec<Vec<FieldElement>> = Vec::with_capacity(round_polys.len());
    let mut t: usize = 0;
    while t < round_polys.len()
        invariant
            t <= round_polys@.len(),
            records@.len() == t,
            forall|s: int| 0 <= s < t ==> (#[trigger] records@[s])@ == round_polys@[s].coefficients@,
        decreases round_polys@.len() - t,
    {
        records.push(copy_table(&round_polys[t].coefficients));
        t = t + 1;
    }
    proof {
        assert(records_of(records@) =~= prover_records::<K>(view, state)) by {
            assert forall|s: int| 0 <= s < vars implies records_of(records@)[s]
                == prover_records::<K>(view, state)[s] by {
                assert(round_polys@[0 + s].values() == prover_record::<K>(
                    tables,
                    layer_ops(),
                    vars,
                    entry,
                    s as nat,
                ));
            }
        }
        assert(values(point@) =~= prover_point::<K>(view, state)) by {
            assert forall|s: int| 0 <= s < vars implies values(point@)[s] == prover_point::<K>(
                view,
                state,
            )[s] by {
                assert(point@[0 + s]@ == prover_challenge::<K>(
                    tables,
                    layer_ops(),
                    vars,
                    entry,
                    s as nat,
                ));
            }
        }
    }
    let b_point = take_range(&point, 0, in_bits);
    let c_point = take_range(&point, in_bits, 2 * in_bits);
    let w_b_eval = w_next.evaluate_partial(&b_point);
    let w_c_eval = w_next.evaluate_partial(&c_point);
    proof {
        assert(values(b_point@) =~= values(point@).subrange(0, in_bits as int));
        assert(values(c_point@) =~= values(point@).subrange(in_bits as int, 2 * in_bits));
        assert(values(b_point@) + Seq::new(0, |j: int| 0int) =~= values(b_point@));
        assert(values(c_point@) + Seq::new(0, |j: int| 0int) =~= values(c_point@));
    }
    let mut data: Vec<FieldElement> = Vec::with_capacity(2);
    data.push(w_b_eval);
    data.push(w_c_eval);
    proof {
        assert(values(data@) =~= seq![w_b_eval@, w_c_eval@]);
    }
    absorb_elements(&data, transcript);
    (sum, records, (w_b_eval, w_c_eval), point)
}

/// The widths of layer `i` of a circuit that a proof can be made for fit
/// its gates, the values below it and memory.
pub proof fn lemma_layer_fits(gates: Seq<Seq<Gate>>, inputs: Seq<int>, i: int)
    requires
        provable(gates, inputs.len() as int),
        0 <= i < gates.len(),
    ensures
        layer_fits(
            layer_view(gates, inputs, i),
            if i == 0 {
                output_bits(gates, 0) as int
            } else {
                2 * operand_bits(gates, inputs.len() as int, i - 1) as int
            },
        ),
        layer_values(gates, inputs, i + 1).len() == layer_len(gates, inputs.len() as int, i + 1),
        i + 1 < gates.len() ==> operand_bits(gates, inputs.len() as int, i) == output_bits(
            gates,
            i + 1,
        ),
        two_pow(output_bits(gates, i)) <= usize::MAX,
        gates[i].len() <= two_pow(output_bits(gates, i)),
{
    let view = layer_view(gates, inputs, i);
    let inputs_len = inputs.len() as int;
    lemma_bits_for_bounds(gates[i].len() as int);
    lemma_bits_for_bounds(layer_len(gates, inputs_len, i + 1));
    assert(two_pow(output_bits(gates, i) + 2 * operand_bits(gates, inputs_len, i)) <= usize::MAX);
    lemma_two_pow_monotonic(view.out_bits, view.out_bits + 2 * view.in_bits);
    lemma_two_pow_64();
    if view.in_bits > 64 {
        lemma_two_pow_monotonic(65, view.out_bits + 2 * view.in_bits);
        assert(two_pow(65) == 2 * two_pow(64));
    }
    if view.out_bits > 64 {
        lemma_two_pow_monotonic(65, view.out_bits + 2 * view.in_bits);
        assert(two_pow(65) == 2 * two_pow(64));
    }
    assert forall|j: int| 0 <= j < view.gates.len() implies (#[trigger] view.gates[j]).left_input
        < two_pow(view.in_bits) && view.gates[j].right_input < two_pow(view.in_bits) by {
        assert(gates[i][j].left_input < layer_len(gates, inputs_len, i + 1));
    }
    if i + 1 < gates.len() {
        assert(layer_values(gates, inputs, i + 1).len() == gates[i + 1].len());
    }
}

/// The prover: it runs the circuit on the inputs, opens the protocol on the
/// outputs, and goes through the layers from the layer of the outputs to
/// the layer next to the inputs. The proof holds what it claims, records and
/// says for each layer, and the outputs.
pub fn generate_proof<K: HashTrait>(
    circuit: &mut Circuit,
    inputs: &Vec<FieldElement>,
    transcript: &mut Transcript<K>,
) -> (r: GKR_PROOF)
    requires
        provable(gates_of(old(circuit).gates@), inputs@.len() as int),
    ensures
        final(circuit).gates == old(circuit).gates,
        final(circuit).layers@.len() == old(circuit).gates@.len() + 1,
        forall|i: int|
            0 <= i <= old(circuit).gates@.len() ==> values((#[trigger] final(circuit).layers@[i])@)
                == layer_values(gates_of(old(circuit).gates@), values(inputs@), i),
        values(r.output@) == layer_values(gates_of(old(circuit).gates@), values(inputs@), 0),
        r.claimed_sums@.len() == old(circuit).gates@.len(),
        r.round_polys@.len() == old(circuit).gates@.len(),
        r.evaluations@.len() == old(circuit).gates@.len(),
        forall|i: int|
            0 <= i < old(circuit).gates@.len() ==> {
                let gates = gates_of(old(circuit).gates@);
                let view = layer_view(gates, values(inputs@), i);
                let state = prover_at::<K>(
                    gates,
                    values(inputs@),
                    old(transcript).absorbed(),
                    i as nat,
                );
                &&& (#[trigger] r.claimed_sums@[i])@ == prover_claim::<K>(view, state)
                &&& records_of(r.round_polys@[i]@) == prover_records::<K>(view, state)
                &&& (r.evaluations@[i].0@, r.evaluations@[i].1@) == prover_evaluations::<K>(
                    view,
                    state,
                )
            },
        final(transcript).absorbed() == prover_at::<K>(
            gates_of(old(circuit).gates@),
            values(inputs@),
            old(transcript).absorbed(),
            old(circuit).gates@.len(),
        ).1,
{
    let ghost gates = gates_of(circuit.gates@);
    let ghost ins = values(inputs@);
    let ghost absorbed = transcript.absorbed();
    circuit.evaluate(inputs);
    let depth = circuit.gates.len();
    let mut claimed_sums: Vec<FieldElement> = Vec::with_capacity(depth);
    let mut round_polys: Vec<Vec<Vec<FieldElement>>> = Vec::with_capacity(depth);
    let mut evaluations: Vec<(FieldElement, FieldElement)> = Vec::with_capacity(depth);
    proof {
        lemma_layer_fits(gates, ins, 0);
        assert(values(circuit.layers@[0]@) == layer_values(gates, ins, 0));
        assert(layer_values(gates, ins, 0).len() == gates[0].len());
    }
    let first_bits = next_pow_of_2(circuit.layers[0].len());
    let w_0 = padded_poly(&circuit.layers[0], first_bits);
    absorb_elements(&w_0.coeffs, transcript);
    let mut challenges = transcript.sample_n_field_elements(first_bits);
    proof {
        assert(values(challenges@) =~= opening::<K>(
            first_bits as nat,
            layer_values(gates, ins, 0),
            absorbed,
        ).0);
    }
    let mut i: usize = 0;
    while i < depth
        invariant
            i <= depth,
            depth == circuit.gates@.len(),
            gates == gates_of(circuit.gates@),
            ins == values(inputs@),
            provable(gates, ins.len() as int),
            circuit.layers@.len() == depth + 1,
            forall|t: int|
                0 <= t <= depth ==> values((#[trigger] circuit.layers@[t])@) == layer_values(
                    gates,
                    ins,
                    t,
                ),
            (values(challenges@), transcript.absorbed()) == prover_at::<K>(
                gates,
                ins,
                absorbed,
                i as nat,
            ),
            challenges@.len() == if i == 0 {
                output_bits(gates, 0) as int
            } else {
                2 * operand_bits(gates, ins.len() as int, i - 1) as int
            },
            claimed_sums@.len() == i,
            round_polys@.len() == i,
            evaluations@.len() == i,
            forall|t: int|
                0 <= t < i ==> {
                    let view = layer_view(gates, ins, t);
                    let state = prover_at::<K>(gates, ins, absorbed, t as nat);
                    &&& (#[trigger] claimed_sums@[t])@ == prover_claim::<K>(view, state)
                    &&& records_of(round_polys@[t]@) == prover_records::<K>(view, state)
                    &&& (evaluations@[t].0@, evaluations@[t].1@) == prover_evaluations::<K>(
                        view,
                        state,
                    )
                },
        decreases depth - i,
    {
        let ghost view = layer_view(gates, ins, i as int);
        let ghost state = prover_at::<K>(gates, ins, absorbed, i as nat);
        proof {
            lemma_layer_fits(gates, ins, i as int);
            assert(values(circuit.layers@[i + 1]@) == layer_values(gates, ins, i + 1));
            assert(circuit.gates@[i as int]@ == gates[i as int]);
        }
        let layer = &circuit.gates[i];
        let below = &circuit.layers[i + 1];
        let out_bits = next_pow_of_2(layer.len());
        let in_bits = next_pow_of_2(below.len());
        proof {
            assert(view == LayerView {
                gates: layer@,
                below: values(below@),
                out_bits: out_bits as nat,
                in_bits: in_bits as nat,
                first: i == 0,
            });
        }
        let ghost sums_before = claimed_sums@;
        let ghost polys_before = round_polys@;
        let ghost evaluations_before = evaluations@;
        let (sum, records, evals, point) = prove_layer(
            layer,
            below,
            out_bits,
            in_bits,
            i == 0,
            &challenges,
            transcript,
        );
        claimed_sums.push(sum);
        round_polys.push(records);
        evaluations.push(evals);
        proof {
            assert(sum@ == prover_claim::<K>(view, state));
            assert(records_of(records@) == prover_records::<K>(view, state));
            assert((evals.0@, evals.1@) == prover_evaluations::<K>(view, state));
            assert(values(point@) == prover_point::<K>(view, state));
            assert(prover_at::<K>(gates, ins, absorbed, (i + 1) as nat) == prover_leaves::<K>(
                view,
                state,
            ));
            assert(point@.len() == values(point@).len());
            assert forall|t: int| 0 <= t < i + 1 implies {
                let layer_t = layer_view(gates, ins, t);
                let state_t = prover_at::<K>(gates, ins, absorbed, t as nat);
                &&& (#[trigger] claimed_sums@[t])@ == prover_claim::<K>(layer_t, state_t)
                &&& records_of(round_polys@[t]@) == prover_records::<K>(layer_t, state_t)
                &&& (evaluations@[t].0@, evaluations@[t].1@) == prover_evaluations::<K>(
                    layer_t,
                    state_t,
                )
            } by {
                if t < i {
                    assert(claimed_sums@[t] == sums_before[t]);
                    assert(round_polys@[t] == polys_before[t]);
                    assert(evaluations@[t] == evaluations_before[t]);
                }
            }
        }
        challenges = point;
        i = i + 1;
    }
    let output = copy_table(&circuit.layers[0]);
    GKR_PROOF { claimed_sums, round_polys, evaluations, output }
}

impl GKR_PROOF {
    /// The records of the layers as integers.
    pub open spec fn records(&self) -> Seq<Seq<Seq<int>>> {
        Seq::new(self.round_polys@.len(), |i: int| records_of(self.round_polys@[i]@))
    }

    /// The evaluations of the layers as integers.
    pub open spec fn said(&self) -> Seq<(int, int)> {
        Seq::new(
            self.evaluations@.len(),
            |i: int| (self.evaluations@[i].0@, self.evaluations@[i].1@),
        )
    }
}

/// Whether a proof has the shape of a proof for a circuit: as many outputs
/// as the circuit has, one entry of each kind for each layer, and for each
/// layer one record for each bit of the places of both operands.
pub open spec fn well_shaped(gates: Seq<Seq<Gate>>, inputs_len: int, proof: GKR_PROOF) -> bool {
    &&& proof.output@.len() == gates[0].len()
    &&& proof.claimed_sums@.len() == gates.len()
    &&& proof.round_polys@.len() == gates.len()
    &&& proof.evaluations@.len() == gates.len()
    &&& forall|i: int|
        0 <= i < gates.len() ==> (#[trigger] proof.round_polys@[i])@.len() == 2 * operand_bits(
            gates,
            inputs_len,
            i,
        )
}

/// Layer `i` as the verifier sees it: it knows the values below only for
/// the last layer, where they are the inputs.
pub open spec fn verifier_view(gates: Seq<Seq<Gate>>, inputs: Seq<int>, i: int) -> LayerView {
    LayerView {
        gates: gates[i],
        below: if i + 1 == gates.len() {
            inputs
        } else {
            Seq::empty()
        },
        out_bits: output_bits(gates, i),
        in_bits: operand_bits(gates, inputs.len() as int, i),
        first: i == 0,
    }
}

/// What the sum-check of a layer must end on: the bound wiring of the `ADD`
/// gates at the point times the sum of the two evaluations, plus the bound
/// wiring of the `MUL` gates at the point times their product.
pub open spec fn layer_check(
    layer: LayerView,
    challenges: Seq<int>,
    alpha: int,
    beta: int,
    point: Seq<int>,
    said: (int, int),
) -> int {
    let add_at = fred(
        mle_eval(
            bound_wiring(
                layer.gates,
                layer.out_bits,
                layer.in_bits,
                layer.first,
                CIRCUIT_OP::ADD,
                challenges,
                alpha,
                beta,
            ),
            point,
        ),
    );
    let mul_at = fred(
        mle_eval(
            bound_wiring(
                layer.gates,
                layer.out_bits,
                layer.in_bits,
                layer.first,
                CIRCUIT_OP::MUL,
                challenges,
                alpha,
                beta,
            ),
            point,
        ),
    );
    fred(fred(add_at * fred(said.0 + said.1)) + fred(mul_at * fred(said.0 * said.1)))
}

/// How the verifier ends on one layer, from the challenges and the bytes of
/// the transcript that it comes with: whether it accepts the layer, the
/// point that the sum-check ended on, and the bytes that the transcript
/// holds afterwards. For a layer after the first it takes the two weights;
/// it follows the sum-check from the sum that the proof claims; it takes
/// the two evaluations from the proof, or for the last layer from the
/// inputs; it feeds them to the transcript; and it checks what the
/// sum-check ended on.
pub open spec fn verify_layer_outcome<K: HashTrait>(
    layer: LayerView,
    last: bool,
    claimed: int,
    records: Seq<Seq<int>>,
    said: (int, int),
    challenges: Seq<int>,
    absorbed: Seq<u8>,
) -> (bool, Seq<int>, Seq<u8>) {
    let outcome = verifier_outcome::<K>(
        claimed,
        records,
        layer_entry::<K>(layer, absorbed),
        Seq::empty(),
    );
    if !outcome.0 {
        (false, Seq::empty(), outcome.3)
    } else {
        let point = outcome.2;
        let evaluations = if last {
            half_evaluations(operand_table(layer), point)
        } else {
            said
        };
        let fed = outcome.3 + encode_all(seq![evaluations.0, evaluations.1]);
        if outcome.1 != layer_check(
            layer,
            challenges,
            layer_alpha::<K>(absorbed),
            layer_beta::<K>(absorbed),
            point,
            evaluations,
        ) {
            (false, Seq::empty(), fed)
        } else {
            (true, point, fed)
        }
    }
}

/// How the verifier ends on the layers from `i` on: whether it accepts
/// them all, and the bytes that the transcript holds at the end. It stops
/// at the first layer that it refuses.
pub open spec fn verify_from<K: HashTrait>(
    gates: Seq<Seq<Gate>>,
    inputs: Seq<int>,
    claimed: Seq<int>,
    records: Seq<Seq<Seq<int>>>,
    said: Seq<(int, int)>,
    i: int,
    challenges: Seq<int>,
    absorbed: Seq<u8>,
) -> (bool, Seq<u8>)
    decreases gates.len() - i,
{
    if i < 0 || i >= gates.len() {
        (true, absorbed)
    } else {
        let outcome = verify_layer_outcome::<K>(
            verifier_view(gates, inputs, i),
            i + 1 == gates.len(),
            claimed[i],
            records[i],
            said[i],
            challenges,
            absorbed,
        );
        if !outcome.0 {
            (false, outcome.2)
        } else {
            verify_from::<K>(gates, inputs, claimed, records, said, i + 1, outcome.1, outcome.2)
        }
    }
}

/// A sum-check that is accepted draws one challenge for each record.
pub proof fn lemma_outcome_length<K: HashTrait>(
    sum: int,
    records: Seq<Seq<int>>,
    absorbed: Seq<u8>,
    challenges: Seq<int>,
)
    requires
        verifier_outcome::<K>(sum, records, absorbed, challenges).0,
    ensures
        verifier_outcome::<K>(sum, records, absorbed, challenges).2.len() == challenges.len()
            + records.len(),
    decreases records.len(),
{
    if records.len() > 0 {
        let record = records[0];
        let fed = absorbed + encode_all(seq![sum] + record);
        let c = challenge_of::<K>(fed);
        lemma_outcome_length::<K>(
            crate::sumcheck::round_value(record, c),
            records.drop_first(),
            K::digest(fed),
            challenges.push(c),
        );
    }
}

/// The verifier's part in a layer: see `verify_layer_outcome`.
pub fn verify_layer<K: HashTrait>(
    layer: &Vec<Gate>,
    out_bits: usize,
    in_bits: usize,
    first: bool,
    last: bool,
    inputs: &Vec<FieldElement>,
    claimed: FieldElement,
    records: &Vec<Vec<FieldElement>>,
    said: (FieldElement, FieldElement),
    challenges: &Vec<FieldElement>,
    transcript: &mut Transcript<K>,
) -> (r: (bool, Vec<FieldElement>))
    requires
        layer_fits(
            LayerView {
                gates: layer@,
                below: if last {
                    values(inputs@)
                } else {
                    Seq::empty()
                },
                out_bits: out_bits as nat,
                in_bits: in_bits as nat,
                first,
            },
            challenges@.len() as int,
        ),
        records@.len() == 2 * in_bits,
    ensures
        ({
            let view = LayerView {
                gates: layer@,
                below: if last {
                    values(inputs@)
                } else {
                    Seq::empty()
                },
                out_bits: out_bits as nat,
                in_bits: in_bits as nat,
                first,
            };
            let outcome = verify_layer_outcome::<K>(
                view,
                last,
                claimed@,
                records_of(records@),
                (said.0@, said.1@),
                values(challenges@),
                old(transcript).absorbed(),
            );
            &&& r.0 == outcome.0
            &&& values(r.1@) == outcome.1
            &&& final(transcript).absorbed() == outcome.2
            &&& r.0 ==> r.1@.len() == 2 * in_bits
        }),
{
    let ghost view = LayerView {
        gates: layer@,
        below: if last {
            values(inputs@)
        } else {
            Seq::empty()
        },
        out_bits: out_bits as nat,
        in_bits: in_bits as nat,
        first,
    };
    let ghost absorbed = transcript.absorbed();
    let mut alpha = FieldElement::zero();
    let mut beta = FieldElement::zero();
    if !first {
        alpha = transcript.squeeze();
        beta = transcript.squeeze();
        proof {
            reveal_with_fuel(state_after, 3);
        }
    }
    let ghost entry = transcript.absorbed();
    let (sum, point, success) = verify_partial_proof_2(claimed, records, transcript);
    if !success {
        let none: Vec<FieldElement> = Vec::new();
        proof {
            assert(values(none@) =~= Seq::<int>::empty());
        }
        return (false, none);
    }
    proof {
        lemma_outcome_length::<K>(claimed@, records_of(records@), entry, Seq::empty());
        assert(values(point@).len() == point@.len());
        lemma_two_pow_monotonic(in_bits as nat, (out_bits + 2 * in_bits) as nat);
    }
    let (w_b_eval, w_c_eval) = if last {
        let w_inputs = padded_poly(inputs, in_bits);
        let b_point = take_range(&point, 0, in_bits);
        let c_point = take_range(&point, in_bits, 2 * in_bits);
        proof {
            assert(values(b_point@) =~= values(point@).subrange(0, in_bits as int));
            assert(values(c_point@) =~= values(point@).subrange(in_bits as int, 2 * in_bits));
            assert(values(b_point@) + Seq::new(0, |j: int| 0int) =~= values(b_point@));
            assert(values(c_point@) + Seq::new(0, |j: int| 0int) =~= values(c_point@));
        }
        (w_inputs.evaluate_partial(&b_point), w_inputs.evaluate_partial(&c_point))
    } else {
        said
    };
    let mut data: Vec<FieldElement> = Vec::with_capacity(2);
    data.push(w_b_eval);
    data.push(w_c_eval);
    proof {
        assert(values(data@) =~= seq![w_b_eval@, w_c_eval@]);
    }
    absorb_elements(&data, transcript);
    let (add_poly, mul_poly) = bind_wiring(layer, out_bits, in_bits, first, challenges, alpha, beta);
    proof {
        assert(values(point@) + Seq::new(0, |j: int| 0int) =~= values(point@));
    }
    let add_at = add_poly.evaluate_partial(&point);
    let mul_at = mul_poly.evaluate_partial(&point);
    let w_plus = w_b_eval.add(&w_c_eval);
    let w_mul = w_b_eval.mul(&w_c_eval);
    let expected = add_at.mul(&w_plus).add(&mul_at.mul(&w_mul));
    if !sum.equals(&expected) {
        let none: Vec<FieldElement> = Vec::new();
        proof {
            assert(values(none@) =~= Seq::<int>::empty());
        }
        return (false, none);
    }
    (true, point)
}

/// Whether a proof has the shape of a proof for the circuit and the number
/// of inputs.
pub fn check_shape(circuit: &Circuit, inputs_len: usize, gkr_proof: &GKR_PROOF) -> (r: bool)
    requires
        circuit.gates@.len() >= 1,
    ensures
        r == well_shaped(gates_of(circuit.gates@), inputs_len as int, *gkr_proof),
{
    let ghost gates = gates_of(circuit.gates@);
    let depth = circuit.gates.len();
    if gkr_proof.output.len() != circuit.gates[0].len() || gkr_proof.claimed_sums.len() != depth
        || gkr_proof.round_polys.len() != depth || gkr_proof.evaluations.len() != depth {
        return false;
    }
    let mut i: usize = 0;
    while i < depth
        invariant
            i <= depth,
            depth == circuit.gates@.len(),
            gates == gates_of(circuit.gates@),
            gkr_proof.round_polys@.len() == depth,
            forall|t: int|
                0 <= t < i ==> (#[trigger] gkr_proof.round_polys@[t])@.len() == 2 * operand_bits(
                    gates,
                    inputs_len as int,
                    t,
                ),
        decreases depth - i,
    {
        let below_len = if i + 1 < depth {
            circuit.gates[i + 1].len()
        } else {
            inputs_len
        };
        assert(below_len == layer_len(gates, inputs_len as int, i + 1));
        let in_bits = next_pow_of_2(below_len);
        if gkr_proof.round_polys[i].len() != 2 * in_bits {
            return false;
        }
        i = i + 1;
    }
    true
}

/// The verifier: it checks the shape of the proof, opens the protocol on
/// the outputs that the proof names, and goes through the layers as the
/// prover did, with the records of the proof in place of the composites. It
/// accepts where it accepts every layer. A proof of another shape is
/// refused before the transcript is touched.
pub fn verify_proof<K: HashTrait>(
    circuit: &mut Circuit,
    inputs: &Vec<FieldElement>,
    transcript: &mut Transcript<K>,
    gkr_proof: GKR_PROOF,
) -> (r: bool)
    requires
        provable(gates_of(old(circuit).gates@), inputs@.len() as int),
    ensures
        *final(circuit) == *old(circuit),
        ({
            let gates = gates_of(old(circuit).gates@);
            let shaped = well_shaped(gates, inputs@.len() as int, gkr_proof);
            let start = opening::<K>(
                output_bits(gates, 0),
                values(gkr_proof.output@),
                old(transcript).absorbed(),
            );
            let end = verify_from::<K>(
                gates,
                values(inputs@),
                values(gkr_proof.claimed_sums@),
                gkr_proof.records(),
                gkr_proof.said(),
                0,
                start.0,
                start.1,
            );
            &&& r == (shaped && end.0)
            &&& final(transcript).absorbed() == if shaped {
                end.1
            } else {
                old(transcript).absorbed()
            }
        }),
{
    let ghost gates = gates_of(circuit.gates@);
    let ghost ins = values(inputs@);
    let ghost absorbed = transcript.absorbed();
    let ghost claimed = values(gkr_proof.claimed_sums@);
    let ghost records = gkr_proof.records();
    let ghost said = gkr_proof.said();
    if !check_shape(circuit, inputs.len(), &gkr_proof) {
        return false;
    }
    let depth = circuit.gates.len();
    proof {
        lemma_layer_fits(gates, ins, 0);
    }
    let first_bits = next_pow_of_2(circuit.gates[0].len());
    let w_0 = padded_poly(&gkr_proof.output, first_bits);
    absorb_elements(&w_0.coeffs, transcript);
    let mut challenges = transcript.sample_n_field_elements(first_bits);
    let ghost start = opening::<K>(output_bits(gates, 0), values(gkr_proof.output@), absorbed);
    proof {
        assert(values(challenges@) =~= start.0);
    }
    let ghost goal = verify_from::<K>(gates, ins, claimed, records, said, 0, start.0, start.1);
    let mut i: usize = 0;
    while i < depth
        invariant
            i <= depth,
            depth == circuit.gates@.len(),
            gates == gates_of(circuit.gates@),
            ins == values(inputs@),
            claimed == values(gkr_proof.claimed_sums@),
            records == gkr_proof.records(),
            said == gkr_proof.said(),
            provable(gates, ins.len() as int),
            well_shaped(gates, ins.len() as int, gkr_proof),
            absorbed == old(transcript).absorbed(),
            *circuit == *old(circuit),
            start == opening::<K>(output_bits(gates, 0), values(gkr_proof.output@), absorbed),
            goal == verify_from::<K>(gates, ins, claimed, records, said, 0, start.0, start.1),
            challenges@.len() == if i == 0 {
                output_bits(gates, 0) as int
            } else {
                2 * operand_bits(gates, ins.len() as int, i - 1) as int
            },
            verify_from::<K>(
                gates,
                ins,
                claimed,
                records,
                said,
                i as int,
                values(challenges@),
                transcript.absorbed(),
            ) == goal,
        decreases depth - i,
    {
        proof {
            lemma_layer_fits(gates, ins, i as int);
            assert(circuit.gates@[i as int]@ == gates[i as int]);
            assert(gkr_proof.round_polys@[i as int]@.len() == 2 * operand_bits(
                gates,
                ins.len() as int,
                i as int,
            ));
        }
        let layer = &circuit.gates[i];
        let below_len = if i + 1 < depth {
            circuit.gates[i + 1].len()
        } else {
            inputs.len()
        };
        let out_bits = next_pow_of_2(layer.len());
        let in_bits = next_pow_of_2(below_len);
        proof {
            assert(below_len == layer_len(gates, ins.len() as int, i + 1));
            let view = verifier_view(gates, ins, i as int);
            assert(view == LayerView {
                gates: layer@,
                below: if i + 1 == depth {
                    values(inputs@)
                } else {
                    Seq::empty()
                },
                out_bits: out_bits as nat,
                in_bits: in_bits as nat,
                first: i == 0,
            });
            let fits = layer_view(gates, ins, i as int);
            assert(layer_fits(fits, challenges@.len() as int));
            lemma_two_pow_positive(in_bits as nat);
            assert(layer_fits(view, challenges@.len() as int));
        }
        let (accepted, point) = verify_layer(
            layer,
            out_bits,
            in_bits,
            i == 0,
            i + 1 == depth,
            inputs,
            gkr_proof.claimed_sums[i],
            &gkr_proof.round_polys[i],
            gkr_proof.evaluations[i],
            &challenges,
            transcript,
        );
        proof {
            assert(claimed[i as int] == gkr_proof.claimed_sums@[i as int]@);
            assert(records[i as int] == records_of(gkr_proof.round_polys@[i as int]@));
            assert(said[i as int] == (
                gkr_proof.evaluations@[i as int].0@,
                gkr_proof.evaluations@[i as int].1@,
            ));
        }
        if !accepted {
            return false;
        }
        challenges = point;
        i = i + 1;
    }
    true
}

/// Whether a proof can be made for the circuit and a number of inputs.
pub fn is_provable(circuit: &Circuit, inputs_len: usize) -> (r: bool)
    ensures
        r == provable(gates_of(circuit.gates@), inputs_len as int),
{
    let ghost gates = gates_of(circuit.gates@);
    if !circuit.is_wired(inputs_len) {
        return false;
    }
    if crate::powers::exact_log2(inputs_len).is_none() {
        return false;
    }
    let depth = circuit.gates.len();
    let mut i: usize = 0;
    while i < depth
        invariant
            i <= depth,
            depth == circuit.gates@.len(),
            gates == gates_of(circuit.gates@),
            wired(gates, inputs_len as int),
            crate::powers::is_power_of_two(inputs_len as int),
            forall|t: int|
                0 <= t < i ==> two_pow(
                    #[trigger] output_bits(gates, t) + 2 * operand_bits(gates, inputs_len as int, t),
                ) <= usize::MAX,
        decreases depth - i,
    {
        let below_len = if i + 1 < depth {
            circuit.gates[i + 1].len()
        } else {
            inputs_len
        };
        assert(below_len == layer_len(gates, inputs_len as int, i + 1));
        assert(circuit.gates@[i as int]@ == gates[i as int]);
        let out_bits = next_pow_of_2(circuit.gates[i].len());
        let in_bits = next_pow_of_2(below_len);
        if checked_two_pow(out_bits + 2 * in_bits).is_none() {
            assert(two_pow(
                output_bits(gates, i as int) + 2 * operand_bits(gates, inputs_len as int, i as int),
            ) > usize::MAX);
            return false;
        }
        i = i + 1;
    }
    true
}

} // verus!
