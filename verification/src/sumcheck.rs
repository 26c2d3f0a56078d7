//! The sum-check protocol on a composite polynomial: the prover reduces the
//! claim that the composite sums to a value over the boolean hypercube to a
//! claim about one point, one variable per round, and the verifier follows
//! it through the same transcript.

use vstd::prelude::*;
use crate::field::FieldElement;
use crate::field::fred;
use crate::field::values;
use crate::field::reduced;
use crate::field::encode_all;
use crate::field::lemma_fred_basics;
use crate::field::lemma_add_congruent;
use crate::field::lemma_view_range;
use crate::powers::two_pow;
use crate::multilinear::mle_eval;
use crate::multilinear::fix_variable;
use crate::multilinear::vertex;
use crate::multilinear::vertex_point;
use crate::composite::Composite;
use crate::composite::OP;
use crate::composite::expr_value;
use crate::dense_polynomial::DensePolynomial;
use crate::field::poly_value;
use crate::dense_polynomial::lagrange;
use crate::dense_polynomial::trimmed_values;
use crate::dense_polynomial::denominator;
use crate::dense_polynomial::interpolable;
use crate::dense_polynomial::abscissas;
use crate::dense_polynomial::ordinates;
use crate::transcript::HashTrait;
use crate::transcript::Transcript;
use crate::transcript::challenge_of;

verus! {

/// Entry `i` of each table.
pub open spec fn table_column(tables: Seq<Seq<int>>, i: int) -> Seq<int> {
    Seq::new(tables.len(), |k: int| tables[k][i])
}

/// The values of a composite on the hypercube: at each vertex, the entries
/// of the tables joined by the operators.
pub open spec fn reduced_table(tables: Seq<Seq<int>>, ops: Seq<OP>) -> Seq<int> {
    Seq::new(tables[0].len(), |i: int| fred(expr_value(table_column(tables, i), ops)))
}

/// The value of a composite at a point: the values there of the multilinear
/// extensions of the tables, joined by the operators.
pub open spec fn composite_value(tables: Seq<Seq<int>>, ops: Seq<OP>, point: Seq<int>) -> int {
    fred(expr_value(Seq::new(tables.len(), |k: int| mle_eval(tables[k], point)), ops))
}

/// The sum of the entries from `lo` up to `hi`.
pub open spec fn range_sum(vals: Seq<int>, lo: int, hi: int) -> int
    decreases hi - lo,
{
    if hi <= lo {
        0
    } else {
        range_sum(vals, lo, hi - 1) + vals[hi - 1]
    }
}

/// The sum, over the first `k` vertices of the hypercube of the variables
/// after the first, of the value of the composite where the first variable
/// is two.
pub open spec fn sum_at_two(tables: Seq<Seq<int>>, ops: Seq<OP>, free: nat, k: int) -> int
    decreases k,
{
    if k <= 0 {
        0
    } else {
        sum_at_two(tables, ops, free, k - 1) + composite_value(
            tables,
            ops,
            seq![2int] + vertex(free, k - 1),
        )
    }
}

/// The sum of the composite over the vertices where its first variable is
/// zero.
pub open spec fn round_e0(tables: Seq<Seq<int>>, ops: Seq<OP>) -> int {
    fred(range_sum(reduced_table(tables, ops), 0, tables[0].len() as int / 2))
}

/// The sum of the composite over the vertices where its first variable is
/// one.
pub open spec fn round_e1(tables: Seq<Seq<int>>, ops: Seq<OP>) -> int {
    fred(
        range_sum(
            reduced_table(tables, ops),
            tables[0].len() as int / 2,
            tables[0].len() as int,
        ),
    )
}

/// The sum of the composite over the points where its first variable is two
/// and the others are at a vertex, for tables of `vars` variables.
pub open spec fn round_e2(tables: Seq<Seq<int>>, ops: Seq<OP>, vars: nat) -> int {
    fred(sum_at_two(tables, ops, (vars - 1) as nat, tables[0].len() as int / 2))
}

/// What the prover records of a round: the three sums.
pub open spec fn round_record(tables: Seq<Seq<int>>, ops: Seq<OP>, vars: nat) -> Seq<int> {
    seq![round_e0(tables, ops), round_e1(tables, ops), round_e2(tables, ops, vars)]
}

/// What a round feeds the transcript: the sum that the round claims, then
/// its record.
pub open spec fn round_message(tables: Seq<Seq<int>>, ops: Seq<OP>, vars: nat) -> Seq<int> {
    seq![fred(round_e0(tables, ops) + round_e1(tables, ops))] + round_record(tables, ops, vars)
}

/// The tables with their first variable set to `v`.
pub open spec fn fixed_tables(tables: Seq<Seq<int>>, v: int) -> Seq<Seq<int>> {
    Seq::new(
        tables.len(),
        |k: int| reduced(fix_variable(tables[k], tables[k].len() as int / 2, v)),
    )
}

/// The tables that the prover holds after `i` rounds on tables of `vars`
/// variables, and the bytes that the transcript then holds.
pub open spec fn prover_state<K: HashTrait>(
    tables: Seq<Seq<int>>,
    ops: Seq<OP>,
    vars: nat,
    absorbed: Seq<u8>,
    i: nat,
) -> (Seq<Seq<int>>, Seq<u8>)
    decreases i,
{
    if i == 0 {
        (tables, absorbed)
    } else {
        let before = prover_state::<K>(tables, ops, vars, absorbed, (i - 1) as nat);
        let fed = before.1 + encode_all(
            round_message(before.0, ops, (vars - (i - 1)) as nat),
        );
        (fixed_tables(before.0, challenge_of::<K>(fed)), K::digest(fed))
    }
}

/// The record of round `i` of the prover.
pub open spec fn prover_record<K: HashTrait>(
    tables: Seq<Seq<int>>,
    ops: Seq<OP>,
    vars: nat,
    absorbed: Seq<u8>,
    i: nat,
) -> Seq<int> {
    round_record(prover_state::<K>(tables, ops, vars, absorbed, i).0, ops, (vars - i) as nat)
}

/// The challenge that closes round `i` of the prover.
pub open spec fn prover_challenge<K: HashTrait>(
    tables: Seq<Seq<int>>,
    ops: Seq<OP>,
    vars: nat,
    absorbed: Seq<u8>,
    i: nat,
) -> int {
    let state = prover_state::<K>(tables, ops, vars, absorbed, i);
    challenge_of::<K>(state.1 + encode_all(round_message(state.0, ops, (vars - i) as nat)))
}

/// Feeds field elements to a transcript, each as its 32 big-endian bytes.
pub fn absorb_elements<K: HashTrait>(data: &Vec<FieldElement>, transcript: &mut Transcript<K>)
    ensures
        final(transcript).absorbed() == old(transcript).absorbed() + encode_all(values(data@)),
{
    let mut bytes: Vec<u8> = Vec::new();
    let mut i: usize = 0;
    while i < data.len()
        invariant
            i <= data@.len(),
            bytes@ == encode_all(values(data@).subrange(0, i as int)),
        decreases data@.len() - i,
    {
        let mut chunk = data[i].to_bytes_be();
        bytes.append(&mut chunk);
        proof {
            let next = values(data@).subrange(0, i + 1);
            assert(next.drop_last() =~= values(data@).subrange(0, i as int));
            assert(next.last() == data@[i as int]@);
        }
        i = i + 1;
    }
    proof {
        assert(values(data@).subrange(0, data@.len() as int) =~= values(data@));
    }
    transcript.absorb(bytes.as_slice());
}

/// Feeds field elements to a transcript, each as its 32 big-endian bytes, and
/// takes the next challenge from it.
pub fn add_data_to_transcript<K: HashTrait>(
    data: &Vec<FieldElement>,
    transcript: &mut Transcript<K>,
) -> (r: FieldElement)
    ensures
        r@ == challenge_of::<K>(old(transcript).absorbed() + encode_all(values(data@))),
        final(transcript).absorbed() == K::digest(
            old(transcript).absorbed() + encode_all(values(data@)),
        ),
{
    absorb_elements(data, transcript);
    transcript.squeeze()
}

/// The sum of the entries of a table from `lo` up to `hi`.
pub fn sum_range(table: &Vec<FieldElement>, lo: usize, hi: usize) -> (r: FieldElement)
    requires
        lo <= hi <= table@.len(),
    ensures
        r@ == fred(range_sum(values(table@), lo as int, hi as int)),
{
    let mut sum = FieldElement::zero();
    let mut i: usize = lo;
    proof {
        lemma_fred_basics(0);
    }
    while i < hi
        invariant
            lo <= i <= hi <= table@.len(),
            sum@ == fred(range_sum(values(table@), lo as int, i as int)),
        decreases hi - i,
    {
        let ghost before = sum@;
        sum = sum.add(&table[i]);
        proof {
            lemma_view_range(table@[i as int]);
            lemma_add_congruent(
                before,
                range_sum(values(table@), lo as int, i as int),
                table@[i as int]@,
                table@[i as int]@,
            );
        }
        i = i + 1;
    }
    sum
}

/// The sum of a range is the sum of its two parts.
pub proof fn lemma_range_sum_split(vals: Seq<int>, lo: int, mid: int, hi: int)
    requires
        lo <= mid <= hi,
    ensures
        range_sum(vals, lo, hi) == range_sum(vals, lo, mid) + range_sum(vals, mid, hi),
    decreases hi - mid,
{
    if mid < hi {
        lemma_range_sum_split(vals, lo, mid, hi - 1);
    }
}

/// The sum of the composite over the points where its first variable is two
/// and the others are at a vertex.
fn sum_where_first_is_two(poly: &Composite, half: usize) -> (r: FieldElement)
    requires
        poly.wf(),
        poly.num_vars() >= 1,
        half == two_pow((poly.num_vars() - 1) as nat),
    ensures
        r@ == fred(sum_at_two(poly.tables(), poly.ops@, (poly.num_vars() - 1) as nat, half as int)),
{
    let vars = poly.polys[0].num_vars;
    let free = vars - 1;
    let ghost tables = poly.tables();
    let mut sum = FieldElement::zero();
    let mut index: usize = 0;
    proof {
        lemma_fred_basics(0);
    }
    while index < half
        invariant
            index <= half,
            poly.wf(),
            vars == poly.num_vars(),
            vars >= 1,
            free == vars - 1,
            half == two_pow(free as nat),
            tables == poly.tables(),
            sum@ == fred(sum_at_two(tables, poly.ops@, free as nat, index as int)),
        decreases half - index,
    {
        let tail = vertex_point(free, half, index);
        let mut assignment: Vec<Option<FieldElement>> = Vec::with_capacity(vars);
        assignment.push(Some(FieldElement::from_u64(2)));
        let mut j: usize = 0;
        while j < free
            invariant
                j <= free,
                tail@.len() == free,
                assignment@.len() == j + 1,
                assignment@[0] is Some,
                assignment@[0]->Some_0@ == 2,
                forall|t: int| 0 <= t < assignment@.len() ==> (#[trigger] assignment@[t]) is Some,
                forall|t: int| 1 <= t < j + 1 ==> (#[trigger] assignment@[t])->Some_0 == tail@[t - 1],
            decreases free - j,
        {
            assignment.push(Some(tail[j]));
            j = j + 1;
        }
        let ghost point = crate::composite::assigned_point(assignment@);
        proof {
            assert(point =~= seq![2int] + vertex(free as nat, index as int)) by {
                assert(point.len() == free + 1);
                assert forall|t: int| 0 <= t < point.len() implies point[t] == (seq![2int]
                    + vertex(free as nat, index as int))[t] by {
                    if t >= 1 {
                        assert(assignment@[t]->Some_0 == tail@[t - 1]);
                        assert(values(tail@)[t - 1] == tail@[t - 1]@);
                    }
                }
            }
        }
        let result = poly.evaluate(&assignment);
        let ghost before = sum@;
        sum = sum.add(&result);
        proof {
            assert(poly.operand_evals(point) =~= Seq::new(
                tables.len(),
                |k: int| mle_eval(tables[k], point),
            ));
            let e = composite_value(tables, poly.ops@, point);
            lemma_fred_basics(e);
            lemma_add_congruent(
                before,
                sum_at_two(tables, poly.ops@, free as nat, index as int),
                result@,
                e,
            );
        }
        index = index + 1;
    }
    sum
}

/// The prover's side of the sum-check protocol on a composite of at least
/// one variable. In each round it records the sums of the composite where
/// the first variable left is zero, one and two, feeds the sum that the round
/// claims and the record to the transcript, takes a challenge from it, and
/// sets the variable to the challenge. The records and the challenges are
/// added to `round_polys` and `challenges`, and the sum that the first round
/// claims is returned: the sum of the composite over the hypercube.
pub fn generate_partial_proof<K: HashTrait>(
    poly: &Composite,
    transcript: &mut Transcript<K>,
    round_polys: &mut Vec<DensePolynomial>,
    challenges: &mut Vec<FieldElement>,
) -> (r: FieldElement)
    requires
        poly.wf(),
        poly.num_vars() >= 1,
    ensures
        r@ == fred(
            range_sum(reduced_table(poly.tables(), poly.ops@), 0, two_pow(poly.num_vars())),
        ),
        final(transcript).absorbed() == prover_state::<K>(
            poly.tables(),
            poly.ops@,
            poly.num_vars(),
            old(transcript).absorbed(),
            poly.num_vars(),
        ).1,
        final(round_polys)@.len() == old(round_polys)@.len() + poly.num_vars(),
        final(challenges)@.len() == old(challenges)@.len() + poly.num_vars(),
        forall|j: int|
            0 <= j < old(round_polys)@.len() ==> final(round_polys)@[j] == old(round_polys)@[j],
        forall|j: int|
            0 <= j < old(challenges)@.len() ==> final(challenges)@[j] == old(challenges)@[j],
        forall|t: int|
            0 <= t < poly.num_vars() ==> (#[trigger] final(round_polys)@[old(round_polys)@.len()
                + t]).values() == prover_record::<K>(
                poly.tables(),
                poly.ops@,
                poly.num_vars(),
                old(transcript).absorbed(),
                t as nat,
            ),
        forall|t: int|
            0 <= t < poly.num_vars() ==> (#[trigger] final(challenges)@[old(challenges)@.len()
                + t])@ == prover_challenge::<K>(
                poly.tables(),
                poly.ops@,
                poly.num_vars(),
                old(transcript).absorbed(),
                t as nat,
            ),
{
    let mut poly_eval = poly.copy();
    let rounds = poly_eval.polys[0].num_vars;
    let ghost tables = poly.tables();
    let ghost ops = poly.ops@;
    let ghost vars = poly.num_vars();
    let ghost absorbed = transcript.absorbed();
    let ghost polys_before = round_polys@;
    let ghost challenges_before = challenges@;
    let mut claimed = FieldElement::zero();
    let mut i: usize = 0;
    while i < rounds
        invariant
            i <= rounds,
            rounds == vars,
            vars >= 1,
            poly_eval.wf(),
            poly_eval.ops@ == ops,
            poly_eval.num_vars() == vars - i,
            (poly_eval.tables(), transcript.absorbed()) == prover_state::<K>(
                tables,
                ops,
                vars,
                absorbed,
                i as nat,
            ),
            i > 0 ==> claimed@ == fred(range_sum(reduced_table(tables, ops), 0, two_pow(vars))),
            round_polys@.len() == polys_before.len() + i,
            challenges@.len() == challenges_before.len() + i,
            forall|j: int| 0 <= j < polys_before.len() ==> round_polys@[j] == polys_before[j],
            forall|j: int|
                0 <= j < challenges_before.len() ==> challenges@[j] == challenges_before[j],
            forall|t: int|
                0 <= t < i ==> (#[trigger] round_polys@[polys_before.len() + t]).values()
                    == prover_record::<K>(tables, ops, vars, absorbed, t as nat),
            forall|t: int|
                0 <= t < i ==> (#[trigger] challenges@[challenges_before.len() + t])@
                    == prover_challenge::<K>(tables, ops, vars, absorbed, t as nat),
        decreases rounds - i,
    {
        let ghost current = poly_eval.tables();
        let ghost left = (vars - i) as nat;
        let reduced_poly = poly_eval.reduce();
        let len = reduced_poly.coeffs.len();
        let extra_points = len / 2;
        proof {
            assert(poly_eval.polys@[0].wf());
            assert(two_pow(left) == 2 * two_pow((left - 1) as nat));
            assert(current[0].len() == len);
            assert forall|v: int| 0 <= v < len implies values(reduced_poly.coeffs@)[v]
                == reduced_table(current, ops)[v] by {
                assert(poly_eval.operand_column(v) =~= table_column(current, v)) by {
                    assert forall|k: int| 0 <= k < poly_eval.polys@.len() implies (
                    #[trigger] poly_eval.operand_column(v)[k]) == table_column(current, v)[k] by {
                        assert(poly_eval.polys@[k].wf());
                    }
                }
            }
            assert(values(reduced_poly.coeffs@) =~= reduced_table(current, ops));
        }
        let e0 = sum_range(&reduced_poly.coeffs, 0, extra_points);
        let e1 = sum_range(&reduced_poly.coeffs, extra_points, len);
        let e2 = sum_where_first_is_two(&poly_eval, extra_points);
        let final_eval = e0.add(&e1);
        proof {
            if i == 0 {
                lemma_range_sum_split(reduced_table(tables, ops), 0, extra_points as int, len as int);
                lemma_add_congruent(
                    e0@,
                    range_sum(reduced_table(tables, ops), 0, extra_points as int),
                    e1@,
                    range_sum(reduced_table(tables, ops), extra_points as int, len as int),
                );
            }
        }
        if i == 0 {
            claimed = final_eval;
        }
        let mut data: Vec<FieldElement> = Vec::with_capacity(4);
        data.push(final_eval);
        data.push(e0);
        data.push(e1);
        data.push(e2);
        proof {
            assert(values(data@) =~= round_message(current, ops, left));
        }
        let challenge = add_data_to_transcript(&data, transcript);
        challenges.push(challenge);
        let mut point: Vec<FieldElement> = Vec::with_capacity(1);
        point.push(challenge);
        let ghost before = poly_eval;
        poly_eval = poly_eval.partial_evaluate(&point, 0);
        proof {
            assert(poly_eval.tables() =~= fixed_tables(current, challenge@)) by {
                assert forall|k: int| 0 <= k < current.len() implies (#[trigger] poly_eval.tables()[k])
                    == fixed_tables(current, challenge@)[k] by {
                    assert(before.polys@[k].wf());
                    assert(current[k].len() == two_pow(left));
                    assert(poly_eval.polys@[k].values() == reduced(
                        fix_variable(
                            before.polys@[k].values(),
                            two_pow((left - 1) as nat),
                            challenge@,
                        ),
                    ));
                }
            }
        }
        let mut round_poly: Vec<FieldElement> = Vec::with_capacity(3);
        round_poly.push(e0);
        round_poly.push(e1);
        round_poly.push(e2);
        let record = DensePolynomial { coefficients: round_poly };
        proof {
            assert(record.values() =~= round_record(current, ops, left));
        }
        round_polys.push(record);
        i = i + 1;
    }
    claimed
}

/// The places at which a record holds the values of a round's polynomial:
/// zero, one, two and so on.
pub open spec fn record_abscissas(n: nat) -> Seq<int> {
    Seq::new(n, |i: int| i)
}

/// The value at `x` of the polynomial of least degree that takes the values
/// of a record at zero, one, two and so on.
pub open spec fn round_value(record: Seq<int>, x: int) -> int {
    fred(
        poly_value(trimmed_values(reduced(lagrange(record_abscissas(record.len()), record))), x),
    )
}

/// The records of a proof as integers.
pub open spec fn records_of(polys: Seq<Vec<FieldElement>>) -> Seq<Seq<int>> {
    Seq::new(polys.len(), |i: int| values(polys[i]@))
}

/// The coefficients of a list of polynomials as integers.
pub open spec fn coefficients_of(polys: Seq<DensePolynomial>) -> Seq<Seq<int>> {
    Seq::new(polys.len(), |i: int| polys[i].values())
}

/// How the verifier ends on the records that are left, from the sum that it
/// holds, the bytes that its transcript holds and the challenges that it has
/// drawn: whether it accepts, and then the sum that the last round leaves,
/// all the challenges, and in any case the bytes that its transcript holds
/// at the end. A record is refused unless it holds three values and the
/// first two add up to the sum.
pub open spec fn verifier_outcome<K: HashTrait>(
    sum: int,
    records: Seq<Seq<int>>,
    absorbed: Seq<u8>,
    challenges: Seq<int>,
) -> (bool, int, Seq<int>, Seq<u8>)
    decreases records.len(),
{
    if records.len() == 0 {
        (true, sum, challenges, absorbed)
    } else {
        let record = records[0];
        if record.len() != 3 || sum != fred(record[0] + record[1]) {
            (false, 0, Seq::empty(), absorbed)
        } else {
            let fed = absorbed + encode_all(seq![sum] + record);
            let c = challenge_of::<K>(fed);
            verifier_outcome::<K>(
                round_value(record, c),
                records.drop_first(),
                K::digest(fed),
                challenges.push(c),
            )
        }
    }
}

/// Zero, one and two differ from each other in the field.
pub proof fn lemma_record_abscissas_interpolable()
    ensures
        interpolable(record_abscissas(3)),
{
    let xs = record_abscissas(3);
    reveal_with_fuel(denominator, 4);
    assert(denominator(xs, 0, 3) == 2) by {
        assert((0 - 1) * (0 - 2) == 2);
        assert(xs[0] == 0 && xs[1] == 1 && xs[2] == 2);
    }
    assert(denominator(xs, 1, 3) == -1) by {
        assert(xs[0] == 0 && xs[1] == 1 && xs[2] == 2);
    }
    assert(denominator(xs, 2, 3) == 2) by {
        assert(xs[0] == 0 && xs[1] == 1 && xs[2] == 2);
    }
}

/// The verifier's side of the sum-check protocol on records of three values
/// each. For each record it checks that the first two values add up to the
/// sum it holds, feeds the sum and the record to the transcript, takes a
/// challenge from it, and goes on with the value at the challenge of the
/// polynomial through the record. It returns that last value, the
/// challenges and `true`, or zero, no challenges and `false` where a record
/// is refused.
pub fn verify_partial_proof_2<K: HashTrait>(
    sum: FieldElement,
    polys: &Vec<Vec<FieldElement>>,
    transcript: &mut Transcript<K>,
) -> (r: (FieldElement, Vec<FieldElement>, bool))
    ensures
        ({
            let outcome = verifier_outcome::<K>(
                sum@,
                records_of(polys@),
                old(transcript).absorbed(),
                Seq::empty(),
            );
            &&& r.2 == outcome.0
            &&& r.0@ == outcome.1
            &&& values(r.1@) == outcome.2
            &&& final(transcript).absorbed() == outcome.3
        }),
{
    let ghost records = records_of(polys@);
    let ghost initial = sum@;
    let ghost absorbed = transcript.absorbed();
    let ghost goal = verifier_outcome::<K>(initial, records, absorbed, Seq::empty());
    let mut challenges: Vec<FieldElement> = Vec::new();
    let mut running = sum;
    let mut i: usize = 0;
    proof {
        assert(records.subrange(0, records.len() as int) =~= records);
        assert(values(challenges@) =~= Seq::<int>::empty());
    }
    while i < polys.len()
        invariant
            i <= polys@.len(),
            records == records_of(polys@),
            goal == verifier_outcome::<K>(initial, records, absorbed, Seq::empty()),
            initial == sum@,
            absorbed == old(transcript).absorbed(),
            verifier_outcome::<K>(
                running@,
                records.subrange(i as int, records.len() as int),
                transcript.absorbed(),
                values(challenges@),
            ) == goal,
        decreases polys@.len() - i,
    {
        let ghost rest = records.subrange(i as int, records.len() as int);
        let ghost record = records[i as int];
        proof {
            assert(rest[0] == record);
            assert(rest.drop_first() =~= records.subrange(i + 1, records.len() as int));
        }
        let entries = &polys[i];
        if entries.len() != 3 {
            let none: Vec<FieldElement> = Vec::new();
            proof {
                assert(values(none@) =~= Seq::<int>::empty());
            }
            return (FieldElement::zero(), none, false);
        }
        let expected = entries[0].add(&entries[1]);
        if !running.equals(&expected) {
            let none: Vec<FieldElement> = Vec::new();
            proof {
                assert(values(none@) =~= Seq::<int>::empty());
            }
            return (FieldElement::zero(), none, false);
        }
        let mut data: Vec<FieldElement> = Vec::with_capacity(4);
        data.push(running);
        data.push(entries[0]);
        data.push(entries[1]);
        data.push(entries[2]);
        proof {
            assert(values(data@) =~= seq![running@] + record);
        }
        let challenge = add_data_to_transcript(&data, transcript);
        let ghost drawn = values(challenges@);
        challenges.push(challenge);
        let mut points: Vec<(FieldElement, FieldElement)> = Vec::with_capacity(3);
        points.push((FieldElement::from_u64(0), entries[0]));
        points.push((FieldElement::from_u64(1), entries[1]));
        points.push((FieldElement::from_u64(2), entries[2]));
        proof {
            lemma_record_abscissas_interpolable();
            assert(abscissas(points@) =~= record_abscissas(3));
            assert(ordinates(points@) =~= record);
            assert(values(challenges@) =~= drawn.push(challenge@));
        }
        let univariate_poly = DensePolynomial::interpolate(points.as_slice());
        running = univariate_poly.evaluate(challenge);
        i = i + 1;
    }
    (running, challenges, true)
}

/// The verifier's side of the sum-check protocol on records held as
/// polynomials: the coefficients of each are the three values of a record.
pub fn verify_partial_proof<K: HashTrait>(
    initial_sum: FieldElement,
    round_polys: &Vec<DensePolynomial>,
    transcript: &mut Transcript<K>,
) -> (r: (FieldElement, Vec<FieldElement>, bool))
    ensures
        ({
            let outcome = verifier_outcome::<K>(
                initial_sum@,
                coefficients_of(round_polys@),
                old(transcript).absorbed(),
                Seq::empty(),
            );
            &&& r.2 == outcome.0
            &&& r.0@ == outcome.1
            &&& values(r.1@) == outcome.2
            &&& final(transcript).absorbed() == outcome.3
        }),
{
    let mut polys: Vec<Vec<FieldElement>> = Vec::with_capacity(round_polys.len());
    let mut i: usize = 0;
    while i < round_polys.len()
        invariant
            i <= round_polys@.len(),
            polys@.len() == i,
            forall|t: int| 0 <= t < i ==> (#[trigger] polys@[t])@ == round_polys@[t].coefficients@,
        decreases round_polys@.len() - i,
    {
        polys.push(crate::multilinear::copy_table(&round_polys[i].coefficients));
        i = i + 1;
    }
    proof {
        assert(records_of(polys@) =~= coefficients_of(round_polys@));
    }
    verify_partial_proof_2(initial_sum, &polys, transcript)
}

/// A sum-check is refused from the first record on where it starts from
/// another sum than one that it is accepted from.
pub proof fn lemma_changed_sum_refused<K: HashTrait>(
    sum: int,
    changed: int,
    records: Seq<Seq<int>>,
    absorbed: Seq<u8>,
)
    requires
        records.len() >= 1,
        changed != sum,
        verifier_outcome::<K>(sum, records, absorbed, Seq::empty()).0,
    ensures
        !verifier_outcome::<K>(changed, records, absorbed, Seq::empty()).0,
{
}

/// Records that differ from accepted records in the value at zero or the
/// value at one of one round are refused: the sum that the verifier holds
/// when it comes to that round is the sum of the two values that were there.
pub proof fn lemma_changed_record_refused<K: HashTrait>(
    sum: int,
    records: Seq<Seq<int>>,
    round: int,
    entry: int,
    changed: int,
    absorbed: Seq<u8>,
    challenges: Seq<int>,
)
    requires
        0 <= round < records.len(),
        0 <= entry <= 1,
        0 <= changed < crate::field::modulus(),
        forall|k: int| 0 <= k < 3 ==> 0 <= (#[trigger] records[round][k]) < crate::field::modulus(),
        changed != records[round][entry],
        verifier_outcome::<K>(sum, records, absorbed, challenges).0,
    ensures
        !verifier_outcome::<K>(
            sum,
            records.update(round, records[round].update(entry, changed)),
            absorbed,
            challenges,
        ).0,
    decreases round,
{
    let altered = records.update(round, records[round].update(entry, changed));
    let record = records[0];
    if round == 0 {
        let other = record[1 - entry];
        let was = record[entry];
        assert(0 <= other < crate::field::modulus());
        assert(0 <= was < crate::field::modulus());
        if fred(changed + other) == fred(was + other) {
            crate::field::lemma_sub_congruent(changed + other, was + other, other, other);
            lemma_fred_basics(changed);
            lemma_fred_basics(was);
        }
        assert(altered[0].len() == 3);
        assert(altered[0][entry] == changed);
        assert(altered[0][1 - entry] == other);
    } else {
        let fed = absorbed + encode_all(seq![sum] + record);
        let c = challenge_of::<K>(fed);
        assert(altered[0] == record);
        assert(altered.drop_first() =~= records.drop_first().update(
            round - 1,
            records.drop_first()[round - 1].update(entry, changed),
        ));
        lemma_changed_record_refused::<K>(
            round_value(record, c),
            records.drop_first(),
            round - 1,
            entry,
            changed,
            K::digest(fed),
            challenges.push(c),
        );
    }
}

} // verus!
