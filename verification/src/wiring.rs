//! Layered circuits: the layer of the outputs first, the layer next to the
//! inputs last. A gate of a layer takes its two operands from the values of
//! the layer after it, or from the inputs, and its result stands at the
//! gate's place among the values of its own layer.

use vstd::prelude::*;
use crate::field::FieldElement;
use crate::field::fred;
use crate::field::values;
use crate::circuit::CIRCUIT_OP;
use crate::multilinear::copy_table;
use crate::multilinear::MultivariatePoly;
use crate::powers::two_pow;
use crate::powers::checked_two_pow;
use crate::powers::lemma_two_pow_adds;
use crate::powers::lemma_two_pow_positive;
use crate::powers::lemma_two_pow_monotonic;

verus! {

/// A gate of a layer.
#[derive(Clone, Copy, Debug, PartialEq, Eq, Structural)]
pub struct Gate {
    pub left_input: usize,
    pub right_input: usize,
    pub op: CIRCUIT_OP,
    pub output: usize,
}

impl Gate {
    /// A gate that puts at `output` what `op` makes of the values at
    /// `left_input` and `right_input` of the next layer.
    pub fn new(left_input: usize, right_input: usize, op: CIRCUIT_OP, output: usize) -> (r: Gate)
        ensures
            r == (Gate { left_input, right_input, op, output }),
    {
        Gate { left_input, right_input, op, output }
    }

    /// The result of a gate on the values of the next layer.
    pub open spec fn value(self, vals: Seq<int>) -> int {
        match self.op {
            CIRCUIT_OP::ADD => fred(vals[self.left_input as int] + vals[self.right_input as int]),
            CIRCUIT_OP::MUL => fred(vals[self.left_input as int] * vals[self.right_input as int]),
        }
    }
}

/// The gates of each layer, as values.
pub open spec fn gates_of(gates: Seq<Vec<Gate>>) -> Seq<Seq<Gate>> {
    Seq::new(gates.len(), |i: int| gates[i]@)
}

/// The number of values of layer `i`: of gates for a layer of gates, of
/// inputs for the layer after the last.
pub open spec fn layer_len(gates: Seq<Seq<Gate>>, inputs_len: int, i: int) -> int {
    if 0 <= i < gates.len() {
        gates[i].len() as int
    } else {
        inputs_len
    }
}

/// Whether a circuit and a number of inputs fit together: no layer is
/// empty, there is at least one input, every gate stands at the place it
/// names as its output, and both its operands exist in the next layer.
pub open spec fn wired(gates: Seq<Seq<Gate>>, inputs_len: int) -> bool {
    &&& gates.len() >= 1
    &&& inputs_len >= 1
    &&& forall|i: int| 0 <= i < gates.len() ==> (#[trigger] gates[i]).len() >= 1
    &&& forall|i: int, j: int|
        0 <= i < gates.len() && 0 <= j < gates[i].len() ==> {
            &&& (#[trigger] gates[i][j]).output == j
            &&& gates[i][j].left_input < layer_len(gates, inputs_len, i + 1)
            &&& gates[i][j].right_input < layer_len(gates, inputs_len, i + 1)
        }
}

/// The values of layer `i` on given inputs: the inputs themselves after the
/// last layer of gates, and the results of the gates on the values of the
/// next layer before.
pub open spec fn layer_values(gates: Seq<Seq<Gate>>, inputs: Seq<int>, i: int) -> Seq<int>
    decreases gates.len() - i,
{
    if i < 0 || i >= gates.len() {
        inputs
    } else {
        Seq::new(gates[i].len(), |j: int| gates[i][j].value(layer_values(gates, inputs, i + 1)))
    }
}

/// A layered circuit, with the values of its layers once it has run.
#[derive(Clone, Debug)]
pub struct Circuit {
    pub gates: Vec<Vec<Gate>>,
    pub layers: Vec<Vec<FieldElement>>,
}

impl Circuit {
    /// The circuit with the given layers of gates, which has not run.
    pub fn new(gates: Vec<Vec<Gate>>) -> (r: Circuit)
        ensures
            r.gates == gates,
            r.layers@.len() == 0,
    {
        Circuit { gates, layers: Vec::new() }
    }

    /// Whether the circuit fits a number of inputs.
    pub fn is_wired(&self, inputs_len: usize) -> (r: bool)
        ensures
            r == wired(gates_of(self.gates@), inputs_len as int),
    {
        let ghost gates = gates_of(self.gates@);
        if self.gates.len() == 0 || inputs_len == 0 {
            return false;
        }
        let mut i: usize = 0;
        while i < self.gates.len()
            invariant
                i <= self.gates@.len(),
                gates == gates_of(self.gates@),
                inputs_len >= 1,
                forall|t: int| 0 <= t < i ==> (#[trigger] gates[t]).len() >= 1,
                forall|t: int, j: int|
                    0 <= t < i && 0 <= j < gates[t].len() ==> {
                        &&& (#[trigger] gates[t][j]).output == j
                        &&& gates[t][j].left_input < layer_len(gates, inputs_len as int, t + 1)
                        &&& gates[t][j].right_input < layer_len(gates, inputs_len as int, t + 1)
                    },
            decreases self.gates@.len() - i,
        {
            let layer = &self.gates[i];
            assert(layer@ == gates[i as int]);
            if layer.len() == 0 {
                return false;
            }
            let next_len = if i + 1 < self.gates.len() {
                self.gates[i + 1].len()
            } else {
                inputs_len
            };
            assert(next_len == layer_len(gates, inputs_len as int, i + 1));
            let mut j: usize = 0;
            while j < layer.len()
                invariant
                    j <= layer@.len(),
                    i < self.gates@.len(),
                    gates == gates_of(self.gates@),
                    layer@ == gates[i as int],
                    next_len == layer_len(gates, inputs_len as int, i + 1),
                    forall|t: int|
                        0 <= t < j ==> {
                            &&& (#[trigger] layer@[t]).output == t
                            &&& layer@[t].left_input < next_len
                            &&& layer@[t].right_input < next_len
                        },
                decreases layer@.len() - j,
            {
                let gate = layer[j];
                if gate.output != j || gate.left_input >= next_len || gate.right_input
                    >= next_len {
                    assert(gates[i as int][j as int] == gate);
                    return false;
                }
                j = j + 1;
            }
            i = i + 1;
        }
        true
    }

    /// Runs the circuit on the inputs: `layers` then holds the values of
    /// each layer, those of the outputs first and the inputs last.
    pub fn evaluate(&mut self, inputs: &Vec<FieldElement>)
        requires
            wired(gates_of(old(self).gates@), inputs@.len() as int),
        ensures
            final(self).gates == old(self).gates,
            final(self).layers@.len() == old(self).gates@.len() + 1,
            forall|i: int|
                0 <= i <= old(self).gates@.len() ==> values((#[trigger] final(self).layers@[i])@)
                    == layer_values(gates_of(old(self).gates@), values(inputs@), i),
    {
        let depth = self.gates.len();
        let ghost gates = gates_of(self.gates@);
        let ghost ins = values(inputs@);
        // The values from the inputs upwards: entry `t` is layer `depth - t`.
        let mut upwards: Vec<Vec<FieldElement>> = Vec::new();
        upwards.push(copy_table(inputs));
        let mut t: usize = 0;
        while t < depth
            invariant
                t <= depth,
                depth == self.gates@.len(),
                gates == gates_of(self.gates@),
                ins == values(inputs@),
                wired(gates, inputs@.len() as int),
                upwards@.len() == t + 1,
                forall|s: int|
                    0 <= s <= t ==> values((#[trigger] upwards@[s])@) == layer_values(
                        gates,
                        ins,
                        depth - s,
                    ),
            decreases depth - t,
        {
            let i = depth - 1 - t;
            let layer = &self.gates[i];
            let below = &upwards[t];
            let ghost vals = values(below@);
            proof {
                assert(layer@ == gates[i as int]);
                assert(vals == layer_values(gates, ins, i + 1));
                assert(vals.len() == layer_len(gates, inputs@.len() as int, i + 1)) by {
                    if i + 1 < depth {
                        assert(layer_values(gates, ins, i + 1).len() == gates[i + 1].len());
                    }
                }
            }
            let mut results: Vec<FieldElement> = Vec::with_capacity(layer.len());
            let mut j: usize = 0;
            while j < layer.len()
                invariant
                    j <= layer@.len(),
                    i < depth,
                    depth == gates.len(),
                    layer@ == gates[i as int],
                    wired(gates, inputs@.len() as int),
                    vals == values(below@),
                    vals.len() == layer_len(gates, inputs@.len() as int, i + 1),
                    results@.len() == j,
                    forall|s: int| 0 <= s < j ==> (#[trigger] results@[s])@ == layer@[s].value(vals),
                decreases layer@.len() - j,
            {
                let gate = layer[j];
                assert(gates[i as int][j as int] == gate);
                let result = match gate.op {
                    CIRCUIT_OP::ADD => below[gate.left_input].add(&below[gate.right_input]),
                    CIRCUIT_OP::MUL => below[gate.left_input].mul(&below[gate.right_input]),
                };
                results.push(result);
                j = j + 1;
            }
            proof {
                assert(values(results@) =~= layer_values(gates, ins, i as int));
            }
            upwards.push(results);
            t = t + 1;
        }
        let total = upwards.len();
        let mut layers: Vec<Vec<FieldElement>> = Vec::with_capacity(total);
        let mut i: usize = 0;
        while i < total
            invariant
                i <= total,
                total == depth + 1,
                upwards@.len() == total,
                layers@.len() == i,
                forall|s: int| 0 <= s < i ==> (#[trigger] layers@[s])@ == upwards@[depth - s]@,
            decreases total - i,
        {
            layers.push(copy_table(&upwards[depth - i]));
            i = i + 1;
        }
        proof {
            assert forall|s: int| 0 <= s <= depth implies values((#[trigger] layers@[s])@)
                == layer_values(gates, ins, s) by {
                assert(values(upwards@[depth - s]@) == layer_values(gates, ins, depth - (depth - s)));
            }
        }
        self.layers = layers;
    }
}

/// The kind of gate that a wiring polynomial speaks of.
#[derive(Clone, Copy, Debug, PartialEq, Eq, Structural)]
pub enum GateType {
    Addition,
    Multiplication,
}

impl GateType {
    /// The operation of the gates of a kind.
    pub open spec fn op(self) -> CIRCUIT_OP {
        match self {
            GateType::Addition => CIRCUIT_OP::ADD,
            GateType::Multiplication => CIRCUIT_OP::MUL,
        }
    }
}

/// The greatest index that the first `k` gates of a layer name, as an
/// operand or as their output.
pub open spec fn greatest_index(layer: Seq<Gate>, k: int) -> int
    decreases k,
{
    if k <= 0 {
        0
    } else {
        let before = greatest_index(layer, k - 1);
        let gate = layer[k - 1];
        let a = if gate.left_input > before {
            gate.left_input as int
        } else {
            before
        };
        let b = if gate.right_input > a {
            gate.right_input as int
        } else {
            a
        };
        if gate.output > b {
            gate.output as int
        } else {
            b
        }
    }
}

/// The least number of bits that hold every index up to `max_index`.
pub open spec fn index_bits(max_index: int) -> nat
    decreases max_index,
{
    if max_index <= 0 {
        0
    } else {
        1 + index_bits(max_index / 2)
    }
}

/// The place of a gate in a table over the outputs, the left and the right
/// operands, each on `bits` bits: the output in the highest bits, the right
/// operand in the lowest.
pub open spec fn position(gate: Gate, bits: nat) -> int {
    gate.output * (two_pow(bits) * two_pow(bits)) + gate.left_input * two_pow(bits)
        + gate.right_input
}

/// One where a gate of the layer with the given operation has its place,
/// zero elsewhere.
pub open spec fn position_entry(layer: Seq<Gate>, op: CIRCUIT_OP, bits: nat, index: int) -> int {
    if exists|j: int|
        0 <= j < layer.len() && (#[trigger] layer[j]).op == op && position(layer[j], bits)
            == index {
        1
    } else {
        0
    }
}

/// The table of the places of the gates of a layer with the given
/// operation.
pub open spec fn position_table(layer: Seq<Gate>, op: CIRCUIT_OP, bits: nat) -> Seq<int> {
    Seq::new(two_pow(3 * bits) as nat, |index: int| position_entry(layer, op, bits, index))
}

/// Every index up to `max_index` is below two to the power of its bits.
pub proof fn lemma_index_bits(max_index: int)
    requires
        max_index >= 0,
    ensures
        max_index < two_pow(index_bits(max_index)),
    decreases max_index,
{
    if max_index > 0 {
        lemma_index_bits(max_index / 2);
    }
}

impl Circuit {
    /// Adds a layer after the last.
    pub fn add_layer(&mut self, layer: Vec<Gate>)
        ensures
            final(self).gates@ == old(self).gates@.push(layer),
            final(self).layers == old(self).layers,
    {
        self.gates.push(layer);
    }

    /// The greatest index that the gates of a layer name.
    pub fn get_max_index_in_layer(&self, layer_index: usize) -> (r: usize)
        requires
            layer_index < self.gates@.len(),
        ensures
            r == greatest_index(
                self.gates@[layer_index as int]@,
                self.gates@[layer_index as int]@.len() as int,
            ),
            forall|j: int|
                0 <= j < self.gates@[layer_index as int]@.len() ==> {
                    let gate = #[trigger] self.gates@[layer_index as int]@[j];
                    gate.left_input <= r && gate.right_input <= r && gate.output <= r
                },
    {
        let layer = &self.gates[layer_index];
        let mut max_index: usize = 0;
        let mut k: usize = 0;
        while k < layer.len()
            invariant
                k <= layer@.len(),
                max_index == greatest_index(layer@, k as int),
                forall|j: int|
                    0 <= j < k ==> {
                        let gate = #[trigger] layer@[j];
                        gate.left_input <= max_index && gate.right_input <= max_index
                            && gate.output <= max_index
                    },
            decreases layer@.len() - k,
        {
            let gate = layer[k];
            if gate.left_input > max_index {
                max_index = gate.left_input;
            }
            if gate.right_input > max_index {
                max_index = gate.right_input;
            }
            if gate.output > max_index {
                max_index = gate.output;
            }
            k = k + 1;
        }
        max_index
    }

    /// The number of bits of an index up to `max_index`.
    pub fn bits_per_index(max_index: usize) -> (r: usize)
        ensures
            r == index_bits(max_index as int),
            r <= 64,
            max_index < two_pow(r as nat),
    {
        let mut bits: usize = 0;
        let mut rest = max_index;
        let ghost mut weight: int = 1;
        proof {
            lemma_index_bits(max_index as int);
            assert(two_pow(0) == 1);
        }
        while rest > 0
            invariant
                bits <= 64,
                weight >= 1,
                weight == two_pow(bits as nat),
                rest * weight <= max_index,
                index_bits(max_index as int) == bits + index_bits(rest as int),
            decreases rest,
        {
            proof {
                if bits == 64 {
                    crate::powers::lemma_two_pow_64();
                    assert(rest * weight >= weight) by (nonlinear_arith)
                        requires
                            rest >= 1,
                            weight >= 0,
                    ;
                }
                assert((rest / 2) * (2 * weight) <= rest * weight) by (nonlinear_arith)
                    requires
                        rest >= 0,
                        weight >= 0,
                ;
                weight = 2 * weight;
            }
            rest = rest / 2;
            bits = bits + 1;
        }
        bits
    }

    /// The number of variables of the wiring polynomial of a layer whose
    /// greatest index is `max_index`: three times the bits of an index.
    pub fn num_of_layer_variables(max_index: usize) -> (r: usize)
        ensures
            r == 3 * index_bits(max_index as int),
    {
        3 * Self::bits_per_index(max_index)
    }

    /// The place of a gate in the table of a layer whose greatest index is
    /// `max_index`, where the table fits memory.
    pub fn convert_to_binary_and_to_decimal(
        max_index: usize,
        output_index: usize,
        left_index: usize,
        right_index: usize,
    ) -> (r: usize)
        requires
            left_index <= max_index,
            right_index <= max_index,
            output_index <= max_index,
            two_pow(3 * index_bits(max_index as int)) <= usize::MAX,
        ensures
            r == position(
                Gate { left_input: left_index, right_input: right_index, op: CIRCUIT_OP::ADD, output: output_index },
                index_bits(max_index as int),
            ),
            r < two_pow(3 * index_bits(max_index as int)),
    {
        let bits_per_index = Self::bits_per_index(max_index);
        let ghost b = bits_per_index as nat;
        proof {
            lemma_two_pow_adds(b, b);
            lemma_two_pow_adds(b, 2 * b);
            lemma_two_pow_positive(b);
            lemma_two_pow_monotonic(b, 3 * b);
            lemma_two_pow_monotonic(2 * b, 3 * b);
        }
        let width = checked_two_pow(bits_per_index).unwrap();
        let square = checked_two_pow(2 * bits_per_index).unwrap();
        proof {
            assert(square == width * width);
            assert(two_pow(3 * b) == width * square);
            assert(output_index * square + left_index * width + right_index < width * square
                && output_index * square >= 0 && left_index * width >= 0) by (nonlinear_arith)
                requires
                    output_index < width,
                    left_index < width,
                    right_index < width,
                    square == width * width,
                    width >= 1,
            ;
        }
        output_index * square + left_index * width + right_index
    }

    /// The wiring polynomial of a layer for one kind of gate: one at the
    /// place of each gate of the kind, zero elsewhere.
    pub fn create_expected_poly(&self, layer_index: usize, gate_type: GateType) -> (r:
        MultivariatePoly)
        requires
            layer_index < self.gates@.len(),
            two_pow(
                3 * index_bits(
                    greatest_index(
                        self.gates@[layer_index as int]@,
                        self.gates@[layer_index as int]@.len() as int,
                    ),
                ),
            ) <= usize::MAX,
        ensures
            r.wf(),
            r.num_vars == 3 * index_bits(
                greatest_index(
                    self.gates@[layer_index as int]@,
                    self.gates@[layer_index as int]@.len() as int,
                ),
            ),
            r.values() == position_table(
                self.gates@[layer_index as int]@,
                gate_type.op(),
                index_bits(
                    greatest_index(
                        self.gates@[layer_index as int]@,
                        self.gates@[layer_index as int]@.len() as int,
                    ),
                ),
            ),
    {
        let max_index = self.get_max_index_in_layer(layer_index);
        let num_vars = Self::num_of_layer_variables(max_index);
        let ghost bits = index_bits(max_index as int);
        let ghost op = gate_type.op();
        let layer = &self.gates[layer_index];
        let boolean_hypercube_combinations = checked_two_pow(num_vars).unwrap();
        let mut expected_values: Vec<FieldElement> = Vec::with_capacity(
            boolean_hypercube_combinations,
        );
        let mut t: usize = 0;
        while t < boolean_hypercube_combinations
            invariant
                t <= boolean_hypercube_combinations,
                expected_values@.len() == t,
                forall|s: int| 0 <= s < t ==> (#[trigger] expected_values@[s])@ == 0,
            decreases boolean_hypercube_combinations - t,
        {
            expected_values.push(FieldElement::zero());
            t = t + 1;
        }
        proof {
            assert forall|s: int|
                0 <= s < boolean_hypercube_combinations implies (#[trigger] expected_values@[s])@
                == position_entry(layer@.subrange(0, 0), op, bits, s) by {}
        }
        let mut k: usize = 0;
        while k < layer.len()
            invariant
                k <= layer@.len(),
                layer@ == self.gates@[layer_index as int]@,
                max_index == greatest_index(layer@, layer@.len() as int),
                bits == index_bits(max_index as int),
                op == gate_type.op(),
                boolean_hypercube_combinations == two_pow(3 * bits),
                two_pow(3 * bits) <= usize::MAX,
                forall|j: int|
                    0 <= j < layer@.len() ==> {
                        let gate = #[trigger] layer@[j];
                        gate.left_input <= max_index && gate.right_input <= max_index
                            && gate.output <= max_index
                    },
                expected_values@.len() == boolean_hypercube_combinations,
                forall|s: int|
                    0 <= s < boolean_hypercube_combinations ==> (#[trigger] expected_values@[s])@
                        == position_entry(layer@.subrange(0, k as int), op, bits, s),
            decreases layer@.len() - k,
        {
            let gate = layer[k];
            let ghost before = layer@.subrange(0, k as int);
            let ghost after = layer@.subrange(0, k + 1);
            let ghost held = expected_values@;
            let wanted = match (gate.op, gate_type) {
                (CIRCUIT_OP::ADD, GateType::Addition) => true,
                (CIRCUIT_OP::MUL, GateType::Multiplication) => true,
                _ => false,
            };
            assert(layer@[k as int] == gate);
            if wanted {
                let position_index = Self::convert_to_binary_and_to_decimal(
                    max_index,
                    gate.output,
                    gate.left_input,
                    gate.right_input,
                );
                expected_values.set(position_index, FieldElement::one());
            }
            proof {
                assert forall|s: int|
                    0 <= s < boolean_hypercube_combinations implies (
                #[trigger] expected_values@[s])@ == position_entry(after, op, bits, s) by {
                    assert(held[s]@ == position_entry(before, op, bits, s));
                    assert(after[k as int] == gate);
                    if position_entry(before, op, bits, s) == 1 {
                        let j = choose|j: int|
                            0 <= j < before.len() && (#[trigger] before[j]).op == op && position(
                                before[j],
                                bits,
                            ) == s;
                        assert(after[j] == before[j]);
                    }
                    if position_entry(after, op, bits, s) == 1 {
                        let j = choose|j: int|
                            0 <= j < after.len() && (#[trigger] after[j]).op == op && position(
                                after[j],
                                bits,
                            ) == s;
                        if j < k {
                            assert(before[j] == after[j]);
                        }
                    }
                }
            }
            k = k + 1;
        }
        proof {
            assert(layer@.subrange(0, layer@.len() as int) =~= layer@);
            assert(values(expected_values@) =~= position_table(layer@, op, bits));
        }
        MultivariatePoly::new(expected_values, num_vars)
    }

    /// The wiring polynomial of the `ADD` gates of a layer.
    pub fn addi(&self, layer_index: usize) -> (r: MultivariatePoly)
        requires
            layer_index < self.gates@.len(),
            two_pow(
                3 * index_bits(
                    greatest_index(
                        self.gates@[layer_index as int]@,
                        self.gates@[layer_index as int]@.len() as int,
                    ),
                ),
            ) <= usize::MAX,
        ensures
            r.wf(),
            r.num_vars == 3 * index_bits(
                greatest_index(
                    self.gates@[layer_index as int]@,
                    self.gates@[layer_index as int]@.len() as int,
                ),
            ),
            r.values() == position_table(
                self.gates@[layer_index as int]@,
                CIRCUIT_OP::ADD,
                index_bits(
                    greatest_index(
                        self.gates@[layer_index as int]@,
                        self.gates@[layer_index as int]@.len() as int,
                    ),
                ),
            ),
    {
        self.create_expected_poly(layer_index, GateType::Addition)
    }

    /// The wiring polynomial of the `MUL` gates of a layer.
    pub fn muli(&self, layer_index: usize) -> (r: MultivariatePoly)
        requires
            layer_index < self.gates@.len(),
            two_pow(
                3 * index_bits(
                    greatest_index(
                        self.gates@[layer_index as int]@,
                        self.gates@[layer_index as int]@.len() as int,
                    ),
                ),
            ) <= usize::MAX,
        ensures
            r.wf(),
            r.num_vars == 3 * index_bits(
                greatest_index(
                    self.gates@[layer_index as int]@,
                    self.gates@[layer_index as int]@.len() as int,
                ),
            ),
            r.values() == position_table(
                self.gates@[layer_index as int]@,
                CIRCUIT_OP::MUL,
                index_bits(
                    greatest_index(
                        self.gates@[layer_index as int]@,
                        self.gates@[layer_index as int]@.len() as int,
                    ),
                ),
            ),
    {
        self.create_expected_poly(layer_index, GateType::Multiplication)
    }
}

} // verus!
