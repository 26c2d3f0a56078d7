//! Arithmetic circuits as layers of gates over one growing list of values:
//! the inputs first, then the results of each layer in turn. A gate names its
//! two operands by their places in that list.

use vstd::prelude::*;
use crate::field::FieldElement;
use crate::field::fred;
use crate::field::values;
use crate::multilinear::copy_table;

verus! {

/// What a gate does to its two operands.
#[allow(non_camel_case_types)]
#[derive(Clone, Copy, Debug, PartialEq, Eq, Structural)]
pub enum CIRCUIT_OP {
    ADD,
    MUL,
}

/// A gate with the places of its two operands.
#[derive(Clone, Copy, Debug, PartialEq, Eq, Structural)]
pub enum Gate {
    Add(usize, usize),
    Mul(usize, usize),
}

impl Gate {
    /// The place of the first operand.
    pub open spec fn left(self) -> int {
        match self {
            Gate::Add(a, _) => a as int,
            Gate::Mul(a, _) => a as int,
        }
    }

    /// The place of the second operand.
    pub open spec fn right(self) -> int {
        match self {
            Gate::Add(_, b) => b as int,
            Gate::Mul(_, b) => b as int,
        }
    }

    /// The result of a gate on a list of values.
    pub open spec fn value(self, vals: Seq<int>) -> int {
        match self {
            Gate::Add(a, b) => fred(vals[a as int] + vals[b as int]),
            Gate::Mul(a, b) => fred(vals[a as int] * vals[b as int]),
        }
    }
}

/// The results of the gates of a layer on a list of values.
pub open spec fn layer_results(layer: Seq<Gate>, vals: Seq<int>) -> Seq<int> {
    Seq::new(layer.len(), |j: int| layer[j].value(vals))
}

/// The list of values once the first `k` layers have run: the inputs and the
/// results of each of those layers.
pub open spec fn values_after(layers: Seq<Vec<Gate>>, inputs: Seq<int>, k: int) -> Seq<int>
    decreases k,
{
    if k <= 0 {
        inputs
    } else {
        values_after(layers, inputs, k - 1) + layer_results(
            layers[k - 1]@,
            values_after(layers, inputs, k - 1),
        )
    }
}

/// Whether every gate of the first `k` layers finds both operands among the
/// values that exist when its layer runs.
pub open spec fn evaluable(layers: Seq<Vec<Gate>>, inputs: Seq<int>, k: int) -> bool {
    forall|t: int, j: int|
        0 <= t < k && 0 <= j < layers[t]@.len() ==> (#[trigger] layers[t]@[j]).left()
            < values_after(layers, inputs, t).len() && layers[t]@[j].right() < values_after(
            layers,
            inputs,
            t,
        ).len()
}

/// The results of the `Add` gates among the first `k` gates of a layer.
pub open spec fn add_results(layer: Seq<Gate>, vals: Seq<int>, k: int) -> Seq<int>
    decreases k,
{
    if k <= 0 {
        Seq::empty()
    } else {
        match layer[k - 1] {
            Gate::Add(a, b) => add_results(layer, vals, k - 1).push(layer[k - 1].value(vals)),
            Gate::Mul(_, _) => add_results(layer, vals, k - 1),
        }
    }
}

/// The results of the `Mul` gates among the first `k` gates of a layer.
pub open spec fn mul_results(layer: Seq<Gate>, vals: Seq<int>, k: int) -> Seq<int>
    decreases k,
{
    if k <= 0 {
        Seq::empty()
    } else {
        match layer[k - 1] {
            Gate::Mul(a, b) => mul_results(layer, vals, k - 1).push(layer[k - 1].value(vals)),
            Gate::Add(_, _) => mul_results(layer, vals, k - 1),
        }
    }
}

/// Whether one of the first `k` gates of a layer is of the given kind and
/// names a place beyond `len`.
pub open spec fn kind_out_of_range(layer: Seq<Gate>, add: bool, len: int, k: int) -> bool {
    exists|j: int|
        0 <= j < k && (#[trigger] layer[j] is Add) == add && (layer[j].left() >= len
            || layer[j].right() >= len)
}

/// A circuit: its layers, the one next to the inputs first.
#[derive(Clone, Debug)]
pub struct Circuit {
    pub layers: Vec<Vec<Gate>>,
}

impl Circuit {
    /// The circuit without layers.
    pub fn new() -> (r: Circuit)
        ensures
            r.layers@.len() == 0,
    {
        Circuit { layers: Vec::new() }
    }

    /// Adds a layer after the last.
    pub fn add_layer(&mut self, layer: Vec<Gate>)
        ensures
            final(self).layers@ == old(self).layers@.push(layer),
    {
        self.layers.push(layer);
    }

    /// The inputs and the results of each layer in turn.
    pub fn evaluate(&self, inputs: Vec<FieldElement>) -> (r: Vec<Vec<FieldElement>>)
        requires
            evaluable(self.layers@, values(inputs@), self.layers@.len() as int),
        ensures
            r@.len() == self.layers@.len() + 1,
            r@[0]@ == inputs@,
            forall|k: int|
                0 <= k < self.layers@.len() ==> values((#[trigger] r@[k + 1])@) == layer_results(
                    self.layers@[k]@,
                    values_after(self.layers@, values(inputs@), k),
                ),
    {
        let ghost ins = values(inputs@);
        let mut evaluation_steps: Vec<Vec<FieldElement>> = Vec::new();
        evaluation_steps.push(copy_table(&inputs));
        let mut all_values = inputs;
        let mut k: usize = 0;
        while k < self.layers.len()
            invariant
                k <= self.layers@.len(),
                evaluable(self.layers@, ins, self.layers@.len() as int),
                values(all_values@) == values_after(self.layers@, ins, k as int),
                evaluation_steps@.len() == k + 1,
                evaluation_steps@[0]@ == inputs@,
                forall|t: int|
                    0 <= t < k ==> values((#[trigger] evaluation_steps@[t + 1])@) == layer_results(
                        self.layers@[t]@,
                        values_after(self.layers@, ins, t),
                    ),
            decreases self.layers@.len() - k,
        {
            let layer = &self.layers[k];
            let ghost vals = values(all_values@);
            let mut new_values: Vec<FieldElement> = Vec::with_capacity(layer.len());
            let mut j: usize = 0;
            while j < layer.len()
                invariant
                    j <= layer@.len(),
                    k < self.layers@.len(),
                    layer@ == self.layers@[k as int]@,
                    evaluable(self.layers@, ins, self.layers@.len() as int),
                    vals == values(all_values@),
                    vals == values_after(self.layers@, ins, k as int),
                    new_values@.len() == j,
                    forall|t: int|
                        0 <= t < j ==> (#[trigger] new_values@[t])@ == layer@[t].value(vals),
                decreases layer@.len() - j,
            {
                assert(self.layers@[k as int]@[j as int].left() < vals.len());
                let result = match layer[j] {
                    Gate::Add(a, b) => all_values[a].add(&all_values[b]),
                    Gate::Mul(a, b) => all_values[a].mul(&all_values[b]),
                };
                new_values.push(result);
                j = j + 1;
            }
            proof {
                assert(values(new_values@) =~= layer_results(layer@, vals));
            }
            evaluation_steps.push(copy_table(&new_values));
            let ghost before = all_values@;
            all_values.append(&mut new_values);
            proof {
                assert(values(all_values@) =~= vals + layer_results(layer@, vals));
            }
            k = k + 1;
        }
        evaluation_steps
    }

    /// The values of one step of the evaluation: the inputs for step zero,
    /// the results of layer `layer_index - 1` for a later one, and nothing
    /// beyond the last layer.
    pub fn get_layer_evaluation(&self, inputs: Vec<FieldElement>, layer_index: usize) -> (r:
        Option<Vec<FieldElement>>)
        requires
            evaluable(self.layers@, values(inputs@), self.layers@.len() as int),
        ensures
            r is Some <==> layer_index <= self.layers@.len(),
            r is Some && layer_index == 0 ==> r->Some_0@ == inputs@,
            r is Some && layer_index > 0 ==> values(r->Some_0@) == layer_results(
                self.layers@[layer_index - 1]@,
                values_after(self.layers@, values(inputs@), layer_index - 1),
            ),
    {
        let evaluation_steps = self.evaluate(inputs);
        if layer_index < evaluation_steps.len() {
            proof {
                if layer_index > 0 {
                    assert(values(evaluation_steps@[(layer_index - 1) + 1]@) == layer_results(
                        self.layers@[layer_index - 1]@,
                        values_after(self.layers@, values(inputs@), layer_index - 1),
                    ));
                }
            }
            Some(copy_table(&evaluation_steps[layer_index]))
        } else {
            None
        }
    }

    /// The results of the `Add` gates of a layer on a list of values, and
    /// nothing where there is no such layer or one of them names a place
    /// beyond the list.
    pub fn addi(&self, layer_index: usize, all_values: &Vec<FieldElement>) -> (r: Option<
        Vec<FieldElement>,
    >)
        ensures
            r is None <==> layer_index >= self.layers@.len() || kind_out_of_range(
                self.layers@[layer_index as int]@,
                true,
                all_values@.len() as int,
                self.layers@[layer_index as int]@.len() as int,
            ),
            r is Some ==> values(r->Some_0@) == add_results(
                self.layers@[layer_index as int]@,
                values(all_values@),
                self.layers@[layer_index as int]@.len() as int,
            ),
    {
        if layer_index >= self.layers.len() {
            return None;
        }
        let layer = &self.layers[layer_index];
        let ghost vals = values(all_values@);
        let mut results: Vec<FieldElement> = Vec::new();
        let mut j: usize = 0;
        while j < layer.len()
            invariant
                j <= layer@.len(),
                layer_index < self.layers@.len(),
                layer@ == self.layers@[layer_index as int]@,
                vals == values(all_values@),
                !kind_out_of_range(layer@, true, all_values@.len() as int, j as int),
                values(results@) == add_results(layer@, vals, j as int),
            decreases layer@.len() - j,
        {
            let ghost before = values(results@);
            match layer[j] {
                Gate::Add(a, b) => {
                    if a >= all_values.len() || b >= all_values.len() {
                        proof {
                            assert(layer@[j as int] is Add);
                            assert(kind_out_of_range(
                                layer@,
                                true,
                                all_values@.len() as int,
                                layer@.len() as int,
                            ));
                        }
                        return None;
                    }
                    results.push(all_values[a].add(&all_values[b]));
                    proof {
                        assert(values(results@) =~= before.push(layer@[j as int].value(vals)));
                    }
                },
                Gate::Mul(_, _) => {},
            }
            j = j + 1;
        }
        Some(results)
    }

    /// The results of the `Mul` gates of a layer on a list of values, and
    /// nothing where there is no such layer, no such gate, or one of them
    /// names a place beyond the list.
    pub fn muli(&self, layer_index: usize, all_values: &Vec<FieldElement>) -> (r: Option<
        Vec<FieldElement>,
    >)
        ensures
            r is None <==> layer_index >= self.layers@.len() || kind_out_of_range(
                self.layers@[layer_index as int]@,
                false,
                all_values@.len() as int,
                self.layers@[layer_index as int]@.len() as int,
            ) || mul_results(
                self.layers@[layer_index as int]@,
                values(all_values@),
                self.layers@[layer_index as int]@.len() as int,
            ).len() == 0,
            r is Some ==> values(r->Some_0@) == mul_results(
                self.layers@[layer_index as int]@,
                values(all_values@),
                self.layers@[layer_index as int]@.len() as int,
            ),
    {
        if layer_index >= self.layers.len() {
            return None;
        }
        let layer = &self.layers[layer_index];
        let ghost vals = values(all_values@);
        let mut results: Vec<FieldElement> = Vec::new();
        let mut j: usize = 0;
        while j < layer.len()
            invariant
                j <= layer@.len(),
                layer_index < self.layers@.len(),
                layer@ == self.layers@[layer_index as int]@,
                vals == values(all_values@),
                !kind_out_of_range(layer@, false, all_values@.len() as int, j as int),
                values(results@) == mul_results(layer@, vals, j as int),
            decreases layer@.len() - j,
        {
            let ghost before = values(results@);
            match layer[j] {
                Gate::Mul(a, b) => {
                    if a >= all_values.len() || b >= all_values.len() {
                        proof {
                            assert(!(layer@[j as int] is Add));
                            assert(kind_out_of_range(
                                layer@,
                                false,
                                all_values@.len() as int,
                                layer@.len() as int,
                            ));
                        }
                        return None;
                    }
                    results.push(all_values[a].mul(&all_values[b]));
                    proof {
                        assert(values(results@) =~= before.push(layer@[j as int].value(vals)));
                    }
                },
                Gate::Add(_, _) => {},
            }
            j = j + 1;
        }
        if results.len() == 0 {
            None
        } else {
            Some(results)
        }
    }
}

} // verus!
