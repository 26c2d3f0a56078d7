//! Why the verifier accepts the proof that the prover makes: the sum-check
//! of each layer ends on the value of the layer's composite at a point, and
//! that value is what the verifier computes from the wiring and from the two
//! evaluations of the values below.

use vstd::prelude::*;
use crate::field::fred;
use crate::field::reduced;
use crate::field::lemma_fred_basics;
use crate::field::lemma_add_congruent;
use crate::field::lemma_mul_congruent;
use crate::powers::two_pow;
use crate::powers::lemma_two_pow_positive;
use crate::powers::lemma_two_pow_adds;
use crate::powers::lemma_log2_of_two_pow;
use crate::circuit::CIRCUIT_OP;
use crate::wiring::Gate;
use crate::multilinear::mle_eval;
use crate::multilinear::restrict;
use crate::multilinear::fix_variable;
use crate::multilinear::pointwise_sum;
use crate::multilinear::pointwise_product;
use crate::multilinear::blow_left;
use crate::multilinear::blow_right;
use crate::multilinear_laws::tensor;
use crate::multilinear_laws::lemma_eval_reduced;
use crate::multilinear_laws::lemma_eval_of_sum;
use crate::multilinear_laws::lemma_eval_tensor;
use crate::multilinear_laws::lemma_blow_up_left_eval;
use crate::multilinear_laws::lemma_blow_up_right_eval;
use crate::composite::OP;
use crate::composite::expr_value;
use crate::composite::term_at;
use crate::composite::sum_before;
use crate::sumcheck::composite_value;
use crate::sumcheck_laws::tables_fit;
use crate::sumcheck_laws::products_of_two;
use crate::gkr::wiring_table;
use crate::gkr::all_some;
use crate::gkr::restrict_prefix;
use crate::gkr::operand_table;
use crate::gkr::layer_tables;
use crate::gkr::layer_ops;
use crate::gkr::layer_check;
use crate::gkr::half_evaluations;
use crate::gkr::LayerView;
use crate::gkr::GKR_PROOF;
use crate::gkr::layer_view;
use crate::gkr::verifier_view;
use crate::gkr::lemma_layer_fits;
use crate::gkr::provable;
use crate::gkr::output_bits;
use crate::gkr::operand_bits;
use crate::gkr::opening;
use crate::gkr::layer_alpha;
use crate::gkr::layer_beta;
use crate::gkr::layer_entry;
use crate::gkr::tables_at;
use crate::gkr::prover_claim;
use crate::gkr::prover_records;
use crate::gkr::prover_point;
use crate::gkr::prover_evaluations;
use crate::gkr::prover_leaves;
use crate::gkr::prover_at;
use crate::gkr::verify_layer_outcome;
use crate::gkr::verify_from;
use crate::gkr::well_shaped;
use crate::wiring::layer_values;
use crate::field::values;
use crate::sumcheck::records_of;
use crate::sumcheck::verifier_outcome;
use crate::sumcheck::prover_record;
use crate::sumcheck::prover_challenge;
use crate::sumcheck::prover_state;
use crate::sumcheck_laws::lemma_sumcheck_complete;
use crate::transcript::HashTrait;

verus! {

/// Setting the first variables of a table halves it once for each.
pub proof fn lemma_restrict_prefix_len(vals: Seq<int>, n: nat, point: Seq<int>)
    requires
        vals.len() == two_pow(n),
        point.len() <= n,
    ensures
        restrict_prefix(vals, point).len() == two_pow((n - point.len()) as nat),
    decreases point.len(),
{
    if point.len() > 0 {
        let asg = all_some(point);
        lemma_log2_of_two_pow(n);
        let next = reduced(fix_variable(vals, two_pow((n - 1) as nat), point[0]));
        assert(two_pow(n) == 2 * two_pow((n - 1) as nat));
        assert(next.len() == two_pow((n - 1) as nat));
        assert(asg.drop_first() =~= all_some(point.drop_first()));
        lemma_restrict_prefix_len(next, (n - 1) as nat, point.drop_first());
        assert(restrict(vals, asg, 0) == restrict(next, asg.drop_first(), 0));
    }
}

/// Whether the widths of a layer fit the challenges that it is bound to.
pub open spec fn widths_fit(layer: LayerView, challenges_len: int) -> bool {
    &&& layer.below.len() <= two_pow(layer.in_bits)
    &&& challenges_len == if layer.first {
        layer.out_bits as int
    } else {
        2 * layer.out_bits as int
    }
}

/// The tables of the composite of a layer are tables over the places of
/// both operands, and its products have two factors.
pub proof fn lemma_layer_tables_fit(layer: LayerView, challenges: Seq<int>, alpha: int, beta: int)
    requires
        widths_fit(layer, challenges.len() as int),
    ensures
        tables_fit(layer_tables(layer, challenges, alpha, beta), layer_ops(), 2 * layer.in_bits),
        products_of_two(layer_ops()),
        operand_table(layer).len() == two_pow(layer.in_bits),
{
    let b = layer.in_bits;
    let o = layer.out_bits;
    let tables = layer_tables(layer, challenges, alpha, beta);
    lemma_two_pow_adds(b, b);
    lemma_two_pow_positive(b);
    assert((o + 2 * b - o) as nat == 2 * b);
    let add = wiring_table(layer.gates, CIRCUIT_OP::ADD, o, b);
    let mul = wiring_table(layer.gates, CIRCUIT_OP::MUL, o, b);
    lemma_two_pow_positive(o + 2 * b);
    if layer.first {
        lemma_restrict_prefix_len(add, o + 2 * b, challenges);
        lemma_restrict_prefix_len(mul, o + 2 * b, challenges);
    } else {
        let k = challenges.len() as int / 2;
        lemma_restrict_prefix_len(add, o + 2 * b, challenges.subrange(0, k));
        lemma_restrict_prefix_len(mul, o + 2 * b, challenges.subrange(0, k));
    }
    assert(tables.len() == 4);
    assert(tables[0].len() == two_pow(2 * b));
    assert(tables[1].len() == two_pow(2 * b));
    assert(tables[2].len() == two_pow(2 * b));
    assert(tables[3].len() == two_pow(2 * b));
    assert(layer_ops().len() == 3);
    assert(layer_ops()[0] == OP::MUL && layer_ops()[1] == OP::ADD && layer_ops()[2] == OP::MUL);
}

/// The composite of a layer takes at a point what the verifier computes
/// from the bound wiring at the point and from the values below at the two
/// halves of the point.
pub proof fn lemma_layer_value(
    layer: LayerView,
    challenges: Seq<int>,
    alpha: int,
    beta: int,
    point: Seq<int>,
)
    requires
        widths_fit(layer, challenges.len() as int),
        point.len() == 2 * layer.in_bits,
    ensures
        composite_value(layer_tables(layer, challenges, alpha, beta), layer_ops(), point)
            == layer_check(
            layer,
            challenges,
            alpha,
            beta,
            point,
            half_evaluations(operand_table(layer), point),
        ),
{
    let b = layer.in_bits;
    let tables = layer_tables(layer, challenges, alpha, beta);
    let ops = layer_ops();
    let w = operand_table(layer);
    let first = point.subrange(0, b as int);
    let second = point.subrange(b as int, 2 * b as int);
    lemma_two_pow_positive(b);
    lemma_two_pow_adds(b, b);
    assert(first + second =~= point);
    assert(point.len() as int / 2 == b);
    let evals = Seq::new(tables.len(), |t: int| mle_eval(tables[t], point));
    let add_at = evals[0];
    let plus_at = evals[1];
    let mul_at = evals[2];
    let times_at = evals[3];
    assert(expr_value(evals, ops) == add_at * plus_at + mul_at * times_at) by {
        reveal_with_fuel(term_at, 5);
        reveal_with_fuel(sum_before, 5);
        assert(ops.len() == 3);
        assert(ops[0] == OP::MUL && ops[1] == OP::ADD && ops[2] == OP::MUL);
    }
    let left = blow_right(w, b);
    let right = blow_left(w, b);
    let wb = mle_eval(w, first);
    let wc = mle_eval(w, second);
    lemma_blow_up_right_eval(w, b, first, second);
    lemma_blow_up_left_eval(w, b, first, second);
    // The sums of the two operands.
    lemma_eval_reduced(pointwise_sum(left, right), point);
    lemma_eval_of_sum(left, right, point);
    assert(fred(plus_at) == fred(wb + wc));
    // The products of the two operands.
    assert(pointwise_product(left, right) =~= tensor(w, w)) by {
        assert(left.len() == w.len() * w.len());
    }
    lemma_eval_reduced(pointwise_product(left, right), point);
    lemma_eval_tensor(w, w, first, second);
    assert(fred(times_at) == fred(wb * wc));
    // What the verifier computes.
    let said = half_evaluations(w, point);
    assert(said.0 == fred(wb));
    assert(said.1 == fred(wc));
    lemma_fred_basics(wb);
    lemma_fred_basics(wc);
    lemma_fred_basics(add_at);
    lemma_fred_basics(mul_at);
    lemma_add_congruent(said.0, wb, said.1, wc);
    lemma_mul_congruent(said.0, wb, said.1, wc);
    lemma_fred_basics(said.0 + said.1);
    lemma_fred_basics(said.0 * said.1);
    lemma_mul_congruent(fred(add_at), add_at, fred(said.0 + said.1), plus_at);
    lemma_mul_congruent(fred(mul_at), mul_at, fred(said.0 * said.1), times_at);
    lemma_fred_basics(fred(add_at) * fred(said.0 + said.1));
    lemma_fred_basics(fred(mul_at) * fred(said.0 * said.1));
    lemma_add_congruent(
        fred(fred(add_at) * fred(said.0 + said.1)),
        add_at * plus_at,
        fred(fred(mul_at) * fred(said.0 * said.1)),
        mul_at * times_at,
    );
}

/// The sum-check of a layer is accepted from the sum that the prover
/// claims, and ends on the value of the composite of the layer at the point
/// that the prover drew.
pub proof fn lemma_layer_sumcheck<K: HashTrait>(layer: LayerView, state: (Seq<int>, Seq<u8>))
    requires
        widths_fit(layer, state.0.len() as int),
    ensures
        verifier_outcome::<K>(
            prover_claim::<K>(layer, state),
            prover_records::<K>(layer, state),
            layer_entry::<K>(layer, state.1),
            Seq::empty(),
        ) == (
            true,
            composite_value(
                tables_at::<K>(layer, state),
                layer_ops(),
                prover_point::<K>(layer, state),
            ),
            prover_point::<K>(layer, state),
            prover_state::<K>(
                tables_at::<K>(layer, state),
                layer_ops(),
                2 * layer.in_bits,
                layer_entry::<K>(layer, state.1),
                2 * layer.in_bits,
            ).1,
        ),
        prover_point::<K>(layer, state).len() == 2 * layer.in_bits,
{
    let tables = tables_at::<K>(layer, state);
    let entry = layer_entry::<K>(layer, state.1);
    let vars = 2 * layer.in_bits;
    lemma_layer_tables_fit(
        layer,
        state.0,
        layer_alpha::<K>(state.1),
        layer_beta::<K>(state.1),
    );
    lemma_sumcheck_complete::<K>(tables, layer_ops(), vars, entry);
    assert(prover_point::<K>(layer, state) =~= Seq::new(
        vars,
        |t: int| prover_challenge::<K>(tables, layer_ops(), vars, entry, t as nat),
    ));
    assert(prover_records::<K>(layer, state) =~= Seq::new(
        vars,
        |t: int| prover_record::<K>(tables, layer_ops(), vars, entry, t as nat),
    ));
}

/// What the verifier checks the sum-check of a layer against does not
/// depend on the values below the layer, but through the two evaluations.
pub proof fn lemma_layer_check_seen(
    layer: LayerView,
    seen: LayerView,
    challenges: Seq<int>,
    alpha: int,
    beta: int,
    point: Seq<int>,
    said: (int, int),
)
    requires
        seen.gates == layer.gates,
        seen.out_bits == layer.out_bits,
        seen.in_bits == layer.in_bits,
        seen.first == layer.first,
    ensures
        layer_check(seen, challenges, alpha, beta, point, said) == layer_check(
            layer,
            challenges,
            alpha,
            beta,
            point,
            said,
        ),
{
}

/// The verifier accepts a layer on what the prover made of it. It comes
/// to the layer with the challenges and the transcript of the prover, sees
/// the wiring that the prover saw, and takes the two evaluations from the
/// prover, or for the last layer from the same values below. It then draws
/// the point that the prover drew and leaves the transcript as the prover
/// left it.
pub proof fn lemma_layer_accepted<K: HashTrait>(
    layer: LayerView,
    seen: LayerView,
    last: bool,
    state: (Seq<int>, Seq<u8>),
    said: (int, int),
)
    requires
        widths_fit(layer, state.0.len() as int),
        seen.gates == layer.gates,
        seen.out_bits == layer.out_bits,
        seen.in_bits == layer.in_bits,
        seen.first == layer.first,
        last ==> seen.below == layer.below,
        !last ==> said == prover_evaluations::<K>(layer, state),
    ensures
        verify_layer_outcome::<K>(
            seen,
            last,
            prover_claim::<K>(layer, state),
            prover_records::<K>(layer, state),
            said,
            state.0,
            state.1,
        ) == (true, prover_point::<K>(layer, state), prover_leaves::<K>(layer, state).1),
{
    let alpha = layer_alpha::<K>(state.1);
    let beta = layer_beta::<K>(state.1);
    let point = prover_point::<K>(layer, state);
    let evaluations = prover_evaluations::<K>(layer, state);
    lemma_layer_sumcheck::<K>(layer, state);
    lemma_layer_value(layer, state.0, alpha, beta, point);
    lemma_layer_check_seen(layer, seen, state.0, alpha, beta, point, evaluations);
    assert(layer_entry::<K>(seen, state.1) == layer_entry::<K>(layer, state.1));
    if last {
        assert(operand_table(seen) == operand_table(layer));
    }
}

/// The challenges that the prover comes to a layer with are as many as
/// the layer binds.
pub proof fn lemma_prover_widths<K: HashTrait>(
    gates: Seq<Seq<Gate>>,
    inputs: Seq<int>,
    absorbed: Seq<u8>,
    i: nat,
)
    requires
        provable(gates, inputs.len() as int),
        i < gates.len(),
    ensures
        widths_fit(
            layer_view(gates, inputs, i as int),
            prover_at::<K>(gates, inputs, absorbed, i).0.len() as int,
        ),
{
    lemma_layer_fits(gates, inputs, i as int);
    if i > 0 {
        lemma_layer_fits(gates, inputs, i - 1);
    }
}

/// From any layer on, the verifier accepts what the prover made of the
/// layers, and leaves the transcript as the prover left it.
pub proof fn lemma_layers_accepted<K: HashTrait>(
    gates: Seq<Seq<Gate>>,
    inputs: Seq<int>,
    absorbed: Seq<u8>,
    claimed: Seq<int>,
    records: Seq<Seq<Seq<int>>>,
    said: Seq<(int, int)>,
    i: nat,
)
    requires
        provable(gates, inputs.len() as int),
        i <= gates.len(),
        claimed.len() == gates.len(),
        records.len() == gates.len(),
        said.len() == gates.len(),
        forall|t: int|
            0 <= t < gates.len() ==> {
                let layer = layer_view(gates, inputs, t);
                let state = prover_at::<K>(gates, inputs, absorbed, t as nat);
                &&& #[trigger] claimed[t] == prover_claim::<K>(layer, state)
                &&& records[t] == prover_records::<K>(layer, state)
                &&& said[t] == prover_evaluations::<K>(layer, state)
            },
    ensures
        verify_from::<K>(
            gates,
            inputs,
            claimed,
            records,
            said,
            i as int,
            prover_at::<K>(gates, inputs, absorbed, i).0,
            prover_at::<K>(gates, inputs, absorbed, i).1,
        ) == (true, prover_at::<K>(gates, inputs, absorbed, gates.len()).1),
    decreases gates.len() - i,
{
    if i < gates.len() {
        let layer = layer_view(gates, inputs, i as int);
        let seen = verifier_view(gates, inputs, i as int);
        let state = prover_at::<K>(gates, inputs, absorbed, i);
        let last = i + 1 == gates.len();
        lemma_prover_widths::<K>(gates, inputs, absorbed, i);
        assert(claimed[i as int] == prover_claim::<K>(layer, state));
        if last {
            assert(layer_values(gates, inputs, i as int + 1) == inputs);
        }
        lemma_layer_accepted::<K>(layer, seen, last, state, said[i as int]);
        lemma_layers_accepted::<K>(
            gates,
            inputs,
            absorbed,
            claimed,
            records,
            said,
            (i + 1) as nat,
        );
        assert(prover_at::<K>(gates, inputs, absorbed, (i + 1) as nat) == prover_leaves::<K>(
            layer,
            state,
        ));
    }
}

/// The verifier accepts the proof that the prover makes. Where a proof
/// holds for each layer what the prover claims, records and says, and the
/// outputs of the circuit, it has the shape that the verifier asks for, the
/// verifier accepts every layer from the same transcript, and it leaves the
/// transcript as the prover left it.
pub proof fn lemma_gkr_complete<K: HashTrait>(
    gates: Seq<Seq<Gate>>,
    inputs: Seq<int>,
    absorbed: Seq<u8>,
    proof: GKR_PROOF,
)
    requires
        provable(gates, inputs.len() as int),
        values(proof.output@) == layer_values(gates, inputs, 0),
        proof.claimed_sums@.len() == gates.len(),
        proof.round_polys@.len() == gates.len(),
        proof.evaluations@.len() == gates.len(),
        forall|i: int|
            0 <= i < gates.len() ==> {
                let layer = layer_view(gates, inputs, i);
                let state = prover_at::<K>(gates, inputs, absorbed, i as nat);
                &&& (#[trigger] proof.claimed_sums@[i])@ == prover_claim::<K>(layer, state)
                &&& records_of(proof.round_polys@[i]@) == prover_records::<K>(layer, state)
                &&& (proof.evaluations@[i].0@, proof.evaluations@[i].1@) == prover_evaluations::<
                    K,
                >(layer, state)
            },
    ensures
        well_shaped(gates, inputs.len() as int, proof),
        ({
            let start = opening::<K>(output_bits(gates, 0), values(proof.output@), absorbed);
            verify_from::<K>(
                gates,
                inputs,
                values(proof.claimed_sums@),
                proof.records(),
                proof.said(),
                0,
                start.0,
                start.1,
            ) == (true, prover_at::<K>(gates, inputs, absorbed, gates.len()).1)
        }),
{
    let claimed = values(proof.claimed_sums@);
    let records = proof.records();
    let said = proof.said();
    assert forall|t: int| 0 <= t < gates.len() implies {
        let layer = layer_view(gates, inputs, t);
        let state = prover_at::<K>(gates, inputs, absorbed, t as nat);
        &&& #[trigger] claimed[t] == prover_claim::<K>(layer, state)
        &&& records[t] == prover_records::<K>(layer, state)
        &&& said[t] == prover_evaluations::<K>(layer, state)
    } by {
        assert(claimed[t] == proof.claimed_sums@[t]@);
    }
    lemma_layers_accepted::<K>(gates, inputs, absorbed, claimed, records, said, 0);
    assert(layer_values(gates, inputs, 0).len() == gates[0].len());
    assert(values(proof.output@).len() == proof.output@.len());
    assert forall|i: int| 0 <= i < gates.len() implies (#[trigger] proof.round_polys@[i])@.len()
        == 2 * operand_bits(gates, inputs.len() as int, i) by {
        let layer = layer_view(gates, inputs, i);
        let state = prover_at::<K>(gates, inputs, absorbed, i as nat);
        assert(proof.claimed_sums@[i]@ == prover_claim::<K>(layer, state));
        assert(records_of(proof.round_polys@[i]@).len() == proof.round_polys@[i]@.len());
    }
}

} // verus!
