//! Why the verifier accepts what the prover records: on a composite whose
//! products have two factors at most, the sums of a round lie on a
//! polynomial of degree two at most, and three of its values give the rest.

use vstd::prelude::*;
use crate::field::fred;
use crate::field::modulus;
use crate::field::reduced;
use crate::field::lemma_fred_basics;
use crate::field::lemma_add_congruent;
use crate::field::lemma_mul_congruent;
use crate::composite::OP;
use crate::composite::expr_value;
use crate::composite::term_at;
use crate::composite::sum_before;
use crate::field::power;
use crate::field::poly_sum;
use crate::field::poly_value;
use crate::dense_polynomial::trimmed_values;
use crate::dense_polynomial::basis;
use crate::dense_polynomial::denominator;
use crate::dense_polynomial::linear_term;
use crate::dense_polynomial::weight;
use crate::dense_polynomial::finv;
use crate::dense_polynomial::is_inverse;
use crate::dense_polynomial::lagrange;
use crate::dense_polynomial::lagrange_coefficient;
use crate::dense_polynomial::lemma_inverse_unique;
use crate::dense_polynomial_laws::lemma_poly_value_trimmed;
use crate::dense_polynomial_laws::lemma_poly_sum_congruent;
use crate::sumcheck::record_abscissas;
use crate::sumcheck::round_value;
use crate::sumcheck::table_column;
use crate::sumcheck::reduced_table;
use crate::sumcheck::composite_value;
use crate::sumcheck::range_sum;
use crate::sumcheck::sum_at_two;
use crate::sumcheck::round_e0;
use crate::sumcheck::round_e1;
use crate::sumcheck::round_e2;
use crate::sumcheck::round_record;
use crate::sumcheck::round_message;
use crate::sumcheck::fixed_tables;
use crate::sumcheck::prover_state;
use crate::sumcheck::prover_record;
use crate::sumcheck::prover_challenge;
use crate::sumcheck::verifier_outcome;
use crate::sumcheck::lemma_range_sum_split;
use crate::powers::two_pow;
use crate::multilinear::mle_eval;
use crate::multilinear::weighted_sum;
use crate::multilinear::chi;
use crate::multilinear::vertex;
use crate::multilinear::fix_variable;
use crate::multilinear::pair_low;
use crate::multilinear_laws::lower_half;
use crate::multilinear_laws::upper_half;
use crate::multilinear_laws::lemma_eval_split;
use crate::multilinear_laws::lemma_eval_at_vertex;
use crate::multilinear_laws::lemma_eval_reduced;
use crate::multilinear_laws::lemma_fix_first_variable;
use crate::composite::lemma_expr_congruent;
use crate::field::encode_all;
use crate::transcript::HashTrait;
use crate::transcript::challenge_of;

verus! {

/// Whether no product of an expression has more than two factors: no two
/// `MUL` follow each other.
pub open spec fn products_of_two(ops: Seq<OP>) -> bool {
    forall|j: int| 0 <= j < ops.len() - 1 ==> !(#[trigger] ops[j] == OP::MUL && ops[j + 1] == OP::MUL)
}

/// The operands `base[t] + x * slope[t]`.
pub open spec fn line(base: Seq<int>, slope: Seq<int>, x: int) -> Seq<int> {
    Seq::new(base.len(), |t: int| base[t] + x * slope[t])
}

/// Whether four values fit a polynomial of degree two at most that takes
/// the first three at zero, one and two and the last at `r`.
pub open spec fn on_parabola(at0: int, at1: int, at2: int, at_r: int, r: int) -> bool {
    2 * at_r == at0 * ((r - 1) * (r - 2)) - 2 * (at1 * (r * (r - 2))) + at2 * (r * (r - 1))
}

/// The sum of two parabolas is a parabola.
pub proof fn lemma_parabola_sum(
    a0: int,
    a1: int,
    a2: int,
    ar: int,
    b0: int,
    b1: int,
    b2: int,
    br: int,
    r: int,
)
    requires
        on_parabola(a0, a1, a2, ar, r),
        on_parabola(b0, b1, b2, br, r),
    ensures
        on_parabola(a0 + b0, a1 + b1, a2 + b2, ar + br, r),
{
    let u = (r - 1) * (r - 2);
    let v = r * (r - 2);
    let w = r * (r - 1);
    assert((a0 + b0) * u == a0 * u + b0 * u) by (nonlinear_arith);
    assert((a1 + b1) * v == a1 * v + b1 * v) by (nonlinear_arith);
    assert((a2 + b2) * w == a2 * w + b2 * w) by (nonlinear_arith);
}

/// A line is a parabola.
pub proof fn lemma_parabola_line(a: int, d: int, r: int)
    ensures
        on_parabola(a + 0 * d, a + 1 * d, a + 2 * d, a + r * d, r),
{
    let u = (r - 1) * (r - 2);
    let v = r * (r - 2);
    let w = r * (r - 1);
    assert(u == r * r - 3 * r + 2) by (nonlinear_arith)
        requires
            u == (r - 1) * (r - 2),
    ;
    assert(v == r * r - 2 * r) by (nonlinear_arith)
        requires
            v == r * (r - 2),
    ;
    assert(w == r * r - r) by (nonlinear_arith)
        requires
            w == r * (r - 1),
    ;
    assert(a * u - 2 * ((a + d) * v) + (a + 2 * d) * w == 2 * (a + r * d)) by (nonlinear_arith)
        requires
            u == r * r - 3 * r + 2,
            v == r * r - 2 * r,
            w == r * r - r,
    ;
    assert(a + 0 * d == a);
    assert(a + 1 * d == a + d);
}

/// The product of two lines is a parabola.
pub proof fn lemma_parabola_product(a: int, d: int, b: int, e: int, r: int)
    ensures
        on_parabola(
            (a + 0 * d) * (b + 0 * e),
            (a + 1 * d) * (b + 1 * e),
            (a + 2 * d) * (b + 2 * e),
            (a + r * d) * (b + r * e),
            r,
        ),
{
    let u = (r - 1) * (r - 2);
    let v = r * (r - 2);
    let w = r * (r - 1);
    let rr = r * r;
    assert(u == rr - 3 * r + 2) by (nonlinear_arith)
        requires
            u == (r - 1) * (r - 2),
            rr == r * r,
    ;
    assert(v == rr - 2 * r) by (nonlinear_arith)
        requires
            v == r * (r - 2),
            rr == r * r,
    ;
    assert(w == rr - r) by (nonlinear_arith)
        requires
            w == r * (r - 1),
            rr == r * r,
    ;
    let ab = a * b;
    let ae = a * e;
    let db = d * b;
    let de = d * e;
    assert((a + 0 * d) * (b + 0 * e) == ab) by (nonlinear_arith)
        requires
            ab == a * b,
    ;
    assert((a + 1 * d) * (b + 1 * e) == ab + ae + db + de) by (nonlinear_arith)
        requires
            ab == a * b,
            ae == a * e,
            db == d * b,
            de == d * e,
    ;
    assert((a + 2 * d) * (b + 2 * e) == ab + 2 * ae + 2 * db + 4 * de) by (nonlinear_arith)
        requires
            ab == a * b,
            ae == a * e,
            db == d * b,
            de == d * e,
    ;
    let x = r * d;
    let y = r * e;
    assert((a + x) * (b + y) == a * b + a * y + x * b + x * y) by (nonlinear_arith);
    assert(a * y == r * ae) by (nonlinear_arith)
        requires
            y == r * e,
            ae == a * e,
    ;
    assert(x * b == r * db) by (nonlinear_arith)
        requires
            x == r * d,
            db == d * b,
    ;
    assert(x * y == rr * de) by (nonlinear_arith)
        requires
            x == r * d,
            y == r * e,
            rr == r * r,
            de == d * e,
    ;
    assert((a + r * d) * (b + r * e) == ab + r * ae + r * db + rr * de);
    let at_zero = ab;
    let at_one = ab + ae + db + de;
    let at_two = ab + 2 * ae + 2 * db + 4 * de;
    let lin = ae + db;
    assert(at_zero * u - 2 * (at_one * v) + at_two * w == 2 * (ab + r * lin + rr * de)) by (nonlinear_arith)
        requires
            u == rr - 3 * r + 2,
            v == rr - 2 * r,
            w == rr - r,
            at_zero == ab,
            at_one == ab + lin + de,
            at_two == ab + 2 * lin + 4 * de,
    ;
    assert(r * lin == r * ae + r * db) by (nonlinear_arith)
        requires
            lin == ae + db,
    ;
}

proof fn lemma_prefix_parabola(base: Seq<int>, slope: Seq<int>, ops: Seq<OP>, r: int, k: int)
    requires
        base.len() == ops.len() + 1,
        slope.len() == base.len(),
        products_of_two(ops),
        0 <= k <= ops.len(),
    ensures
        on_parabola(
            term_at(line(base, slope, 0), ops, k),
            term_at(line(base, slope, 1), ops, k),
            term_at(line(base, slope, 2), ops, k),
            term_at(line(base, slope, r), ops, k),
            r,
        ),
        on_parabola(
            sum_before(line(base, slope, 0), ops, k),
            sum_before(line(base, slope, 1), ops, k),
            sum_before(line(base, slope, 2), ops, k),
            sum_before(line(base, slope, r), ops, k),
            r,
        ),
        k == 0 || ops[k - 1] == OP::ADD ==> {
            &&& term_at(line(base, slope, 0), ops, k) == base[k] + 0 * slope[k]
            &&& term_at(line(base, slope, 1), ops, k) == base[k] + 1 * slope[k]
            &&& term_at(line(base, slope, 2), ops, k) == base[k] + 2 * slope[k]
            &&& term_at(line(base, slope, r), ops, k) == base[k] + r * slope[k]
        },
    decreases k,
{
    let l0 = line(base, slope, 0);
    let l1 = line(base, slope, 1);
    let l2 = line(base, slope, 2);
    let lr = line(base, slope, r);
    if k == 0 {
        lemma_parabola_line(base[0], slope[0], r);
        assert(on_parabola(0, 0, 0, 0, r)) by (nonlinear_arith);
    } else {
        lemma_prefix_parabola(base, slope, ops, r, k - 1);
        if ops[k - 1] == OP::MUL {
            if k - 1 > 0 {
                assert(!(ops[k - 2] == OP::MUL && ops[k - 2 + 1] == OP::MUL));
            }
            lemma_parabola_product(base[k - 1], slope[k - 1], base[k], slope[k], r);
        } else {
            lemma_parabola_line(base[k], slope[k], r);
            lemma_parabola_sum(
                sum_before(l0, ops, k - 1),
                sum_before(l1, ops, k - 1),
                sum_before(l2, ops, k - 1),
                sum_before(lr, ops, k - 1),
                term_at(l0, ops, k - 1),
                term_at(l1, ops, k - 1),
                term_at(l2, ops, k - 1),
                term_at(lr, ops, k - 1),
                r,
            );
        }
    }
}

/// The value of an expression whose operands are lines in `x`, and whose
/// products have two factors at most, is a parabola in `x`.
pub proof fn lemma_expr_parabola(base: Seq<int>, slope: Seq<int>, ops: Seq<OP>, r: int)
    requires
        base.len() == ops.len() + 1,
        slope.len() == base.len(),
        products_of_two(ops),
    ensures
        on_parabola(
            expr_value(line(base, slope, 0), ops),
            expr_value(line(base, slope, 1), ops),
            expr_value(line(base, slope, 2), ops),
            expr_value(line(base, slope, r), ops),
            r,
        ),
{
    let k = ops.len() as int;
    lemma_prefix_parabola(base, slope, ops, r, k);
    lemma_parabola_sum(
        sum_before(line(base, slope, 0), ops, k),
        sum_before(line(base, slope, 1), ops, k),
        sum_before(line(base, slope, 2), ops, k),
        sum_before(line(base, slope, r), ops, k),
        term_at(line(base, slope, 0), ops, k),
        term_at(line(base, slope, 1), ops, k),
        term_at(line(base, slope, 2), ops, k),
        term_at(line(base, slope, r), ops, k),
        r,
    );
}

/// Two has an inverse in the field, and so has minus one, which is its own.
pub proof fn lemma_small_inverses()
    ensures
        is_inverse(finv(2), 2),
        finv(modulus() - 1) == modulus() - 1,
{
    let half = 10944121435919637611123202872628637544274182200208017171849102093287904247809int;
    assert(half * 2 == modulus() + 1);
    assert(fred(half * 2) == 1);
    assert(is_inverse(half, 2));
    let m = modulus() - 1;
    assert(m * m == modulus() * (modulus() - 2) + 1) by (nonlinear_arith)
        requires
            m == modulus() - 1,
    ;
    vstd::arithmetic::div_mod::lemma_fundamental_div_mod_converse(
        m * m,
        modulus(),
        modulus() - 2,
        1,
    );
    assert(is_inverse(m, m));
    lemma_inverse_unique(m, m, finv(m));
}

/// The coefficients of the polynomial through values at zero, one and two:
/// the sum of `X^2 - 3X + 2`, `X^2 - 2X` and `X^2 - X`, each times its
/// weight.
pub proof fn lemma_lagrange_of_three(ys: Seq<int>)
    requires
        ys.len() == 3,
    ensures
        ({
            let xs = record_abscissas(3);
            let w0 = weight(xs, ys, 0);
            let w1 = weight(xs, ys, 1);
            let w2 = weight(xs, ys, 2);
            &&& w0 == fred(ys[0] * finv(2))
            &&& w1 == fred(ys[1] * finv(modulus() - 1))
            &&& w2 == fred(ys[2] * finv(2))
            &&& lagrange(xs, ys) == seq![
                0 + 2 * w0 + 0 * w1 + 0 * w2,
                0 + (-3) * w0 + (-2) * w1 + (-1) * w2,
                0 + 1 * w0 + 1 * w1 + 1 * w2,
            ]
        }),
{
    let xs = record_abscissas(3);
    assert(xs[0] == 0 && xs[1] == 1 && xs[2] == 2);
    assert(xs.len() == 3);
    reveal_with_fuel(denominator, 4);
    assert(denominator(xs, 0, 3) == 2) by {
        assert((0 - 1) * (0 - 2) == 2);
    }
    assert(denominator(xs, 1, 3) == -1);
    assert(denominator(xs, 2, 3) == 2);
    assert(fred(2) == 2);
    assert(fred(-1) == modulus() - 1);
    let start = basis(xs, 0, 0);
    assert(start =~= seq![1int, 0int, 0int]);
    assert(basis(xs, 1, 0) == start);
    assert(basis(xs, 2, 0) == start);
    // The basis of the first point: (X - 1)(X - 2).
    assert(basis(xs, 0, 1) == start);
    let first_a = basis(xs, 0, 2);
    assert(first_a == linear_term(start, 1));
    assert(first_a =~= seq![-1int, 1int, 0int]);
    let first = basis(xs, 0, 3);
    assert(first == linear_term(first_a, 2));
    assert(first =~= seq![2int, -3int, 1int]);
    // The basis of the second point: X (X - 2).
    let second_a = basis(xs, 1, 1);
    assert(second_a == linear_term(start, 0));
    assert(second_a =~= seq![0int, 1int, 0int]);
    assert(basis(xs, 1, 2) == second_a);
    let second = basis(xs, 1, 3);
    assert(second == linear_term(second_a, 2));
    assert(second =~= seq![0int, -2int, 1int]);
    // The basis of the third point: X (X - 1).
    let third_a = basis(xs, 2, 1);
    assert(third_a == linear_term(start, 0));
    let third_b = basis(xs, 2, 2);
    assert(third_b == linear_term(third_a, 1));
    assert(third_b =~= seq![0int, -1int, 1int]);
    assert(basis(xs, 2, 3) == third_b);
    reveal_with_fuel(lagrange_coefficient, 4);
    let w0 = weight(xs, ys, 0);
    let w1 = weight(xs, ys, 1);
    let w2 = weight(xs, ys, 2);
    assert(lagrange_coefficient(xs, ys, 0, 3) == 0 + 2 * w0 + 0 * w1 + 0 * w2);
    assert(lagrange_coefficient(xs, ys, 1, 3) == 0 + (-3) * w0 + (-2) * w1 + (-1) * w2);
    assert(lagrange_coefficient(xs, ys, 2, 3) == 0 + 1 * w0 + 1 * w1 + 1 * w2);
    assert(lagrange(xs, ys) =~= seq![
        0 + 2 * w0 + 0 * w1 + 0 * w2,
        0 + (-3) * w0 + (-2) * w1 + (-1) * w2,
        0 + 1 * w0 + 1 * w1 + 1 * w2,
    ]);
}

/// Halving: integers whose doubles agree modulo the field order agree
/// modulo the field order.
pub proof fn lemma_halve_congruence(a: int, b: int)
    requires
        fred(2 * a) == fred(2 * b),
    ensures
        fred(a) == fred(b),
{
    lemma_small_inverses();
    let i2 = finv(2);
    lemma_fred_basics(1);
    lemma_mul_congruent(i2, i2, 2 * a, 2 * b);
    assert(i2 * (2 * a) == (i2 * 2) * a) by (nonlinear_arith);
    assert(i2 * (2 * b) == (i2 * 2) * b) by (nonlinear_arith);
    lemma_mul_congruent(i2 * 2, 1, a, a);
    lemma_mul_congruent(i2 * 2, 1, b, b);
    assert(1 * a == a);
    assert(1 * b == b);
}

/// The polynomial through a record gives at every point what a parabola
/// gives that the record holds the values of at zero, one and two.
pub proof fn lemma_round_value(record: Seq<int>, g0: int, g1: int, g2: int, gr: int, r: int)
    requires
        record.len() == 3,
        record[0] == fred(g0),
        record[1] == fred(g1),
        record[2] == fred(g2),
        on_parabola(g0, g1, g2, gr, r),
    ensures
        round_value(record, r) == fred(gr),
{
    let xs = record_abscissas(3);
    let c = lagrange(xs, record);
    lemma_lagrange_of_three(record);
    lemma_small_inverses();
    let i2 = finv(2);
    let m = modulus() - 1;
    let w0 = weight(xs, record, 0);
    let w1 = weight(xs, record, 1);
    let w2 = weight(xs, record, 2);
    let e0 = record[0];
    let e1 = record[1];
    let e2 = record[2];
    // The value of the polynomial, over the integers.
    lemma_poly_value_trimmed(reduced(c), r);
    assert forall|i: int| 0 <= i < 3 implies fred(#[trigger] reduced(c)[i]) == fred(c[i]) by {
        lemma_fred_basics(c[i]);
    }
    lemma_poly_sum_congruent(reduced(c), c, r, 3);
    assert(poly_value(c, r) == c[0] + c[1] * r + c[2] * (r * r)) by {
        reveal_with_fuel(poly_sum, 4);
        reveal_with_fuel(power, 3);
        assert(power(r, 0) == 1);
        assert(power(r, 1) == r) by (nonlinear_arith)
            requires
                power(r, 1) == r * power(r, 0),
                power(r, 0) == 1,
        ;
        assert(power(r, 2) == r * r) by (nonlinear_arith)
            requires
                power(r, 2) == r * power(r, 1),
                power(r, 1) == r,
        ;
        assert(c[0] * 1 == c[0]);
    }
    let pv = poly_value(c, r);
    let u = (r - 1) * (r - 2);
    let v = r * (r - 2);
    let w = r * (r - 1);
    let rr = r * r;
    assert(u == rr - 3 * r + 2) by (nonlinear_arith)
        requires
            u == (r - 1) * (r - 2),
            rr == r * r,
    ;
    assert(v == rr - 2 * r) by (nonlinear_arith)
        requires
            v == r * (r - 2),
            rr == r * r,
    ;
    assert(w == rr - r) by (nonlinear_arith)
        requires
            w == r * (r - 1),
            rr == r * r,
    ;
    assert(2 * pv == (2 * w0) * u + 2 * (w1 * v) + (2 * w2) * w) by (nonlinear_arith)
        requires
            pv == (0 + 2 * w0 + 0 * w1 + 0 * w2) + (0 + (-3) * w0 + (-2) * w1 + (-1) * w2) * r + (
            0 + 1 * w0 + 1 * w1 + 1 * w2) * rr,
            u == rr - 3 * r + 2,
            v == rr - 2 * r,
            w == rr - r,
    ;
    // The weights, modulo the field order.
    lemma_fred_basics(1);
    lemma_fred_basics(g0);
    lemma_fred_basics(g1);
    lemma_fred_basics(g2);
    lemma_fred_basics(e0 * i2);
    lemma_fred_basics(e1 * m);
    lemma_fred_basics(e2 * i2);
    assert(fred(2 * w0) == fred(g0)) by {
        lemma_mul_congruent(2, 2, w0, e0 * i2);
        assert(2 * (e0 * i2) == e0 * (i2 * 2)) by (nonlinear_arith);
        lemma_mul_congruent(e0, g0, i2 * 2, 1);
        assert(g0 * 1 == g0);
    }
    assert(fred(2 * w2) == fred(g2)) by {
        lemma_mul_congruent(2, 2, w2, e2 * i2);
        assert(2 * (e2 * i2) == e2 * (i2 * 2)) by (nonlinear_arith);
        lemma_mul_congruent(e2, g2, i2 * 2, 1);
        assert(g2 * 1 == g2);
    }
    assert(fred(w1) == fred(-g1)) by {
        assert(fred(m) == fred(-1));
        lemma_mul_congruent(e1, g1, m, -1);
        assert(g1 * (-1) == -g1);
    }
    // Twice the value is twice what the parabola gives.
    lemma_mul_congruent(2 * w0, g0, u, u);
    lemma_mul_congruent(w1, -g1, v, v);
    lemma_mul_congruent(2, 2, w1 * v, (-g1) * v);
    lemma_mul_congruent(2 * w2, g2, w, w);
    lemma_add_congruent((2 * w0) * u, g0 * u, 2 * (w1 * v), 2 * ((-g1) * v));
    lemma_add_congruent(
        (2 * w0) * u + 2 * (w1 * v),
        g0 * u + 2 * ((-g1) * v),
        (2 * w2) * w,
        g2 * w,
    );
    assert(2 * ((-g1) * v) == -(2 * (g1 * v))) by (nonlinear_arith);
    assert(fred(2 * pv) == fred(2 * gr));
    lemma_halve_congruence(pv, gr);
}

/// Whether tables are those of a composite of `vars` variables: one more
/// than there are operators, each with a value for each vertex.
pub open spec fn tables_fit(tables: Seq<Seq<int>>, ops: Seq<OP>, vars: nat) -> bool {
    &&& tables.len() == ops.len() + 1
    &&& forall|t: int| 0 <= t < tables.len() ==> (#[trigger] tables[t]).len() == two_pow(vars)
}

/// The values of the tables at vertex `v` of the lower half.
pub open spec fn base_at(tables: Seq<Seq<int>>, v: int) -> Seq<int> {
    Seq::new(tables.len(), |t: int| tables[t][v])
}

/// What the values of the tables gain from vertex `v` of the lower half to
/// the vertex above it in the upper half.
pub open spec fn slope_at(tables: Seq<Seq<int>>, v: int) -> Seq<int> {
    Seq::new(
        tables.len(),
        |t: int| tables[t][v + tables[t].len() as int / 2] - tables[t][v],
    )
}

/// The value of the composite where the first variable is `x` and the
/// others are at vertex `v`, over the integers.
pub open spec fn slice_value(tables: Seq<Seq<int>>, ops: Seq<OP>, v: int, x: int) -> int {
    expr_value(line(base_at(tables, v), slope_at(tables, v), x), ops)
}

/// The sum of the composite over the first `m` vertices of the other
/// variables where the first variable is `x`, over the integers.
pub open spec fn slice_sum(tables: Seq<Seq<int>>, ops: Seq<OP>, x: int, m: int) -> int
    decreases m,
{
    if m <= 0 {
        0
    } else {
        slice_sum(tables, ops, x, m - 1) + slice_value(tables, ops, m - 1, x)
    }
}

/// The sum over the other variables is a parabola in the first.
pub proof fn lemma_slice_sum_parabola(tables: Seq<Seq<int>>, ops: Seq<OP>, r: int, m: int)
    requires
        tables.len() == ops.len() + 1,
        products_of_two(ops),
        m >= 0,
    ensures
        on_parabola(
            slice_sum(tables, ops, 0, m),
            slice_sum(tables, ops, 1, m),
            slice_sum(tables, ops, 2, m),
            slice_sum(tables, ops, r, m),
            r,
        ),
    decreases m,
{
    if m > 0 {
        lemma_slice_sum_parabola(tables, ops, r, m - 1);
        lemma_expr_parabola(base_at(tables, m - 1), slope_at(tables, m - 1), ops, r);
        lemma_parabola_sum(
            slice_sum(tables, ops, 0, m - 1),
            slice_sum(tables, ops, 1, m - 1),
            slice_sum(tables, ops, 2, m - 1),
            slice_sum(tables, ops, r, m - 1),
            slice_value(tables, ops, m - 1, 0),
            slice_value(tables, ops, m - 1, 1),
            slice_value(tables, ops, m - 1, 2),
            slice_value(tables, ops, m - 1, r),
            r,
        );
    } else {
        assert(on_parabola(0, 0, 0, 0, r)) by (nonlinear_arith);
    }
}

/// The multilinear extension of a table, where the first variable is `x`
/// and the others are at a vertex, is on the line from its value at the
/// vertex in the lower half to its value at the vertex in the upper half.
pub proof fn lemma_eval_on_line(table: Seq<int>, vars: nat, v: int, x: int)
    requires
        vars >= 1,
        table.len() == two_pow(vars),
        0 <= v < two_pow((vars - 1) as nat),
    ensures
        mle_eval(table, seq![x] + vertex((vars - 1) as nat, v)) == table[v] + x * (table[v
            + table.len() as int / 2] - table[v]),
{
    let h = two_pow((vars - 1) as nat);
    let rest = vertex((vars - 1) as nat, v);
    let point = seq![x] + rest;
    assert(table.len() == 2 * h);
    lemma_eval_at_vertex(lower_half(table), (vars - 1) as nat, v);
    lemma_eval_at_vertex(upper_half(table), (vars - 1) as nat, v);
    assert(point.drop_first() =~= rest);
    assert(point.len() == vars);
    lemma_eval_split(table, point);
    let lo = table[v];
    let hi = table[v + h];
    assert(lower_half(table)[v] == lo);
    assert(upper_half(table)[v] == hi);
    assert((1 - x) * lo + x * hi == lo + x * (hi - lo)) by (nonlinear_arith);
}

/// The value of the composite where the first variable is `x` and the
/// others are at a vertex is the slice value reduced.
pub proof fn lemma_composite_at_slice(
    tables: Seq<Seq<int>>,
    ops: Seq<OP>,
    vars: nat,
    v: int,
    x: int,
)
    requires
        tables_fit(tables, ops, vars),
        vars >= 1,
        0 <= v < two_pow((vars - 1) as nat),
    ensures
        composite_value(tables, ops, seq![x] + vertex((vars - 1) as nat, v)) == fred(
            slice_value(tables, ops, v, x),
        ),
{
    let point = seq![x] + vertex((vars - 1) as nat, v);
    let evals = Seq::new(tables.len(), |t: int| mle_eval(tables[t], point));
    let on_line = line(base_at(tables, v), slope_at(tables, v), x);
    assert forall|t: int| 0 <= t < tables.len() implies evals[t] == on_line[t] by {
        lemma_eval_on_line(tables[t], vars, v, x);
    }
    assert(evals =~= on_line);
}

proof fn lemma_e0_prefix(tables: Seq<Seq<int>>, ops: Seq<OP>, vars: nat, m: int)
    requires
        tables_fit(tables, ops, vars),
        vars >= 1,
        0 <= m <= two_pow((vars - 1) as nat),
    ensures
        fred(range_sum(reduced_table(tables, ops), 0, m)) == fred(slice_sum(tables, ops, 0, m)),
    decreases m,
{
    if m > 0 {
        lemma_e0_prefix(tables, ops, vars, m - 1);
        let v = m - 1;
        assert(tables[0].len() == 2 * two_pow((vars - 1) as nat));
        assert(line(base_at(tables, v), slope_at(tables, v), 0) =~= table_column(tables, v));
        lemma_fred_basics(slice_value(tables, ops, v, 0));
        lemma_add_congruent(
            range_sum(reduced_table(tables, ops), 0, m - 1),
            slice_sum(tables, ops, 0, m - 1),
            reduced_table(tables, ops)[v],
            slice_value(tables, ops, v, 0),
        );
    }
}

proof fn lemma_e1_prefix(tables: Seq<Seq<int>>, ops: Seq<OP>, vars: nat, m: int)
    requires
        tables_fit(tables, ops, vars),
        vars >= 1,
        0 <= m <= two_pow((vars - 1) as nat),
    ensures
        fred(
            range_sum(
                reduced_table(tables, ops),
                two_pow((vars - 1) as nat),
                two_pow((vars - 1) as nat) + m,
            ),
        ) == fred(slice_sum(tables, ops, 1, m)),
    decreases m,
{
    let h = two_pow((vars - 1) as nat);
    if m > 0 {
        lemma_e1_prefix(tables, ops, vars, m - 1);
        let v = m - 1;
        assert(tables[0].len() == 2 * h);
        assert forall|t: int| 0 <= t < tables.len() implies line(
            base_at(tables, v),
            slope_at(tables, v),
            1,
        )[t] == table_column(tables, h + v)[t] by {
            assert(tables[t].len() == 2 * h);
            let lo = tables[t][v];
            let hi = tables[t][v + h];
            assert(lo + 1 * (hi - lo) == hi);
        }
        assert(line(base_at(tables, v), slope_at(tables, v), 1) =~= table_column(tables, h + v));
        lemma_fred_basics(slice_value(tables, ops, v, 1));
        lemma_add_congruent(
            range_sum(reduced_table(tables, ops), h, h + m - 1),
            slice_sum(tables, ops, 1, m - 1),
            reduced_table(tables, ops)[h + v],
            slice_value(tables, ops, v, 1),
        );
    }
}

proof fn lemma_e2_prefix(tables: Seq<Seq<int>>, ops: Seq<OP>, vars: nat, m: int)
    requires
        tables_fit(tables, ops, vars),
        vars >= 1,
        0 <= m <= two_pow((vars - 1) as nat),
    ensures
        fred(sum_at_two(tables, ops, (vars - 1) as nat, m)) == fred(
            slice_sum(tables, ops, 2, m),
        ),
    decreases m,
{
    if m > 0 {
        lemma_e2_prefix(tables, ops, vars, m - 1);
        let v = m - 1;
        lemma_composite_at_slice(tables, ops, vars, v, 2);
        lemma_fred_basics(slice_value(tables, ops, v, 2));
        lemma_add_congruent(
            sum_at_two(tables, ops, (vars - 1) as nat, m - 1),
            slice_sum(tables, ops, 2, m - 1),
            composite_value(tables, ops, seq![2int] + vertex((vars - 1) as nat, v)),
            slice_value(tables, ops, v, 2),
        );
    }
}

/// The record of a round holds the sums of the slices where the first
/// variable is zero, one and two.
pub proof fn lemma_record_is_slices(tables: Seq<Seq<int>>, ops: Seq<OP>, vars: nat)
    requires
        tables_fit(tables, ops, vars),
        vars >= 1,
    ensures
        ({
            let h = two_pow((vars - 1) as nat);
            &&& round_e0(tables, ops) == fred(slice_sum(tables, ops, 0, h))
            &&& round_e1(tables, ops) == fred(slice_sum(tables, ops, 1, h))
            &&& round_e2(tables, ops, vars) == fred(slice_sum(tables, ops, 2, h))
        }),
{
    let h = two_pow((vars - 1) as nat);
    assert(tables[0].len() == 2 * h);
    lemma_e0_prefix(tables, ops, vars, h);
    lemma_e1_prefix(tables, ops, vars, h);
    lemma_e2_prefix(tables, ops, vars, h);
}

/// The sum over the hypercube of a composite with its first variable set to
/// `r` is the sum of the slices where the first variable is `r`.
pub proof fn lemma_total_after_fixing(
    tables: Seq<Seq<int>>,
    ops: Seq<OP>,
    vars: nat,
    r: int,
    m: int,
)
    requires
        tables_fit(tables, ops, vars),
        vars >= 1,
        0 <= m <= two_pow((vars - 1) as nat),
    ensures
        tables_fit(fixed_tables(tables, r), ops, (vars - 1) as nat),
        fred(range_sum(reduced_table(fixed_tables(tables, r), ops), 0, m)) == fred(
            slice_sum(tables, ops, r, m),
        ),
    decreases m,
{
    let h = two_pow((vars - 1) as nat);
    let fixed = fixed_tables(tables, r);
    assert forall|t: int| 0 <= t < fixed.len() implies (#[trigger] fixed[t]).len() == h by {
        assert(tables[t].len() == 2 * h);
    }
    if m > 0 {
        lemma_total_after_fixing(tables, ops, vars, r, m - 1);
        let v = m - 1;
        let on_line = line(base_at(tables, v), slope_at(tables, v), r);
        let column = table_column(fixed, v);
        assert forall|t: int| 0 <= t < column.len() implies fred(#[trigger] column[t]) == fred(
            on_line[t],
        ) by {
            assert(tables[t].len() == 2 * h);
            vstd::arithmetic::div_mod::lemma_small_mod(v as nat, h as nat);
            vstd::arithmetic::div_mod::lemma_basic_div(v, h);
            assert(pair_low(v, h) == v);
            let exact = fix_variable(tables[t], h, r)[v];
            assert(exact == on_line[t]);
            assert(fixed[t][v] == fred(exact));
            lemma_fred_basics(exact);
        }
        lemma_expr_congruent(column, on_line, ops);
        assert(fixed[0].len() == h);
        lemma_fred_basics(expr_value(column, ops));
        lemma_add_congruent(
            range_sum(reduced_table(fixed, ops), 0, m - 1),
            slice_sum(tables, ops, r, m - 1),
            reduced_table(fixed, ops)[v],
            slice_value(tables, ops, v, r),
        );
    }
}

/// The sum of a composite over the hypercube.
pub open spec fn hypercube_total(tables: Seq<Seq<int>>, ops: Seq<OP>) -> int {
    fred(range_sum(reduced_table(tables, ops), 0, tables[0].len() as int))
}

/// The records of the prover from round `i` on.
pub open spec fn records_from<K: HashTrait>(
    tables: Seq<Seq<int>>,
    ops: Seq<OP>,
    vars: nat,
    absorbed: Seq<u8>,
    i: nat,
) -> Seq<Seq<int>> {
    Seq::new(
        (vars - i) as nat,
        |t: int| prover_record::<K>(tables, ops, vars, absorbed, (i + t) as nat),
    )
}

/// The challenges of the prover from round `i` on.
pub open spec fn challenges_from<K: HashTrait>(
    tables: Seq<Seq<int>>,
    ops: Seq<OP>,
    vars: nat,
    absorbed: Seq<u8>,
    i: nat,
) -> Seq<int> {
    Seq::new(
        (vars - i) as nat,
        |t: int| prover_challenge::<K>(tables, ops, vars, absorbed, (i + t) as nat),
    )
}

/// The tables that the prover holds after `i` rounds are those of a
/// composite of `i` variables fewer.
pub proof fn lemma_state_fits<K: HashTrait>(
    tables: Seq<Seq<int>>,
    ops: Seq<OP>,
    vars: nat,
    absorbed: Seq<u8>,
    i: nat,
)
    requires
        tables_fit(tables, ops, vars),
        i <= vars,
    ensures
        tables_fit(
            prover_state::<K>(tables, ops, vars, absorbed, i).0,
            ops,
            (vars - i) as nat,
        ),
    decreases i,
{
    if i > 0 {
        lemma_state_fits::<K>(tables, ops, vars, absorbed, (i - 1) as nat);
        let before = prover_state::<K>(tables, ops, vars, absorbed, (i - 1) as nat);
        let fed = before.1 + encode_all(round_message(before.0, ops, (vars - (i - 1)) as nat));
        lemma_total_after_fixing(
            before.0,
            ops,
            (vars - (i - 1)) as nat,
            challenge_of::<K>(fed),
            0,
        );
    }
}

/// From any round on, a verifier that holds the sum of the prover's
/// composite over the hypercube accepts the records that the prover goes on
/// to make, draws the challenges that the prover draws, and ends on the sum
/// of the last composite.
pub proof fn lemma_verifier_follows<K: HashTrait>(
    tables: Seq<Seq<int>>,
    ops: Seq<OP>,
    vars: nat,
    absorbed: Seq<u8>,
    i: nat,
    challenges: Seq<int>,
)
    requires
        tables_fit(tables, ops, vars),
        products_of_two(ops),
        i <= vars,
    ensures
        ({
            let state = prover_state::<K>(tables, ops, vars, absorbed, i);
            let last = prover_state::<K>(tables, ops, vars, absorbed, vars);
            verifier_outcome::<K>(
                hypercube_total(state.0, ops),
                records_from::<K>(tables, ops, vars, absorbed, i),
                state.1,
                challenges,
            ) == (
                true,
                hypercube_total(last.0, ops),
                challenges + challenges_from::<K>(tables, ops, vars, absorbed, i),
                last.1,
            )
        }),
    decreases vars - i,
{
    let state = prover_state::<K>(tables, ops, vars, absorbed, i);
    let records = records_from::<K>(tables, ops, vars, absorbed, i);
    let drawn = challenges_from::<K>(tables, ops, vars, absorbed, i);
    lemma_state_fits::<K>(tables, ops, vars, absorbed, i);
    if i == vars {
        assert(challenges + drawn =~= challenges);
    } else {
        let current = state.0;
        let left = (vars - i) as nat;
        let h = two_pow((left - 1) as nat);
        let record = records[0];
        let sum = hypercube_total(current, ops);
        assert(current[0].len() == 2 * h);
        assert(record == round_record(current, ops, left));
        lemma_range_sum_split(reduced_table(current, ops), 0, h, 2 * h);
        lemma_add_congruent(
            round_e0(current, ops),
            range_sum(reduced_table(current, ops), 0, h),
            round_e1(current, ops),
            range_sum(reduced_table(current, ops), h, 2 * h),
        );
        lemma_fred_basics(range_sum(reduced_table(current, ops), 0, h));
        lemma_fred_basics(range_sum(reduced_table(current, ops), h, 2 * h));
        assert(sum == fred(record[0] + record[1]));
        assert(seq![sum] + record =~= round_message(current, ops, left));
        let fed = state.1 + encode_all(seq![sum] + record);
        let c = challenge_of::<K>(fed);
        assert(c == prover_challenge::<K>(tables, ops, vars, absorbed, i));
        let after = prover_state::<K>(tables, ops, vars, absorbed, (i + 1) as nat);
        assert(after == (fixed_tables(current, c), K::digest(fed)));
        lemma_record_is_slices(current, ops, left);
        lemma_slice_sum_parabola(current, ops, c, h);
        lemma_round_value(
            record,
            slice_sum(current, ops, 0, h),
            slice_sum(current, ops, 1, h),
            slice_sum(current, ops, 2, h),
            slice_sum(current, ops, c, h),
            c,
        );
        lemma_total_after_fixing(current, ops, left, c, h);
        assert(after.0[0].len() == h);
        assert(round_value(record, c) == hypercube_total(after.0, ops));
        lemma_verifier_follows::<K>(tables, ops, vars, absorbed, (i + 1) as nat, challenges.push(c));
        assert(records.drop_first() =~= records_from::<K>(
            tables,
            ops,
            vars,
            absorbed,
            (i + 1) as nat,
        ));
        assert(challenges.push(c) + challenges_from::<K>(
            tables,
            ops,
            vars,
            absorbed,
            (i + 1) as nat,
        ) =~= challenges + drawn);
    }
}

/// The composite that the prover holds after `i` rounds takes at a point
/// the value that the composite it started from takes at the challenges of
/// those rounds followed by the point.
pub proof fn lemma_state_value<K: HashTrait>(
    tables: Seq<Seq<int>>,
    ops: Seq<OP>,
    vars: nat,
    absorbed: Seq<u8>,
    i: nat,
    point: Seq<int>,
)
    requires
        tables_fit(tables, ops, vars),
        i <= vars,
        point.len() == vars - i,
    ensures
        composite_value(prover_state::<K>(tables, ops, vars, absorbed, i).0, ops, point)
            == composite_value(
            tables,
            ops,
            Seq::new(i, |t: int| prover_challenge::<K>(tables, ops, vars, absorbed, t as nat))
                + point,
        ),
    decreases i,
{
    let drawn = Seq::new(
        i,
        |t: int| prover_challenge::<K>(tables, ops, vars, absorbed, t as nat),
    );
    if i == 0 {
        assert(drawn + point =~= point);
    } else {
        let before = prover_state::<K>(tables, ops, vars, absorbed, (i - 1) as nat);
        let c = prover_challenge::<K>(tables, ops, vars, absorbed, (i - 1) as nat);
        let state = prover_state::<K>(tables, ops, vars, absorbed, i);
        assert(state.0 == fixed_tables(before.0, c));
        lemma_state_fits::<K>(tables, ops, vars, absorbed, (i - 1) as nat);
        let longer = seq![c] + point;
        let here = Seq::new(state.0.len(), |t: int| mle_eval(state.0[t], point));
        let there = Seq::new(before.0.len(), |t: int| mle_eval(before.0[t], longer));
        assert forall|t: int| 0 <= t < here.len() implies fred(#[trigger] here[t]) == fred(
            there[t],
        ) by {
            let table = before.0[t];
            assert(table.len() == two_pow((vars - i + 1) as nat));
            assert(two_pow((vars - i + 1) as nat) == 2 * two_pow((vars - i) as nat));
            lemma_fix_first_variable(table, c, point);
            lemma_eval_reduced(fix_variable(table, two_pow(point.len()), c), point);
        }
        lemma_expr_congruent(here, there, ops);
        lemma_state_value::<K>(tables, ops, vars, absorbed, (i - 1) as nat, longer);
        let shorter = Seq::new(
            (i - 1) as nat,
            |t: int| prover_challenge::<K>(tables, ops, vars, absorbed, t as nat),
        );
        assert(shorter + longer =~= drawn + point);
    }
}

/// The verifier accepts what the prover records. For a composite whose
/// products have two factors at most, started from the sum that the prover
/// claims and from the same transcript, the verifier accepts every record of
/// the prover, draws the challenges that the prover draws, leaves the
/// transcript as the prover leaves it, and ends on the value of the
/// composite at the challenges.
pub proof fn lemma_sumcheck_complete<K: HashTrait>(
    tables: Seq<Seq<int>>,
    ops: Seq<OP>,
    vars: nat,
    absorbed: Seq<u8>,
)
    requires
        tables_fit(tables, ops, vars),
        products_of_two(ops),
    ensures
        ({
            let claimed = fred(range_sum(reduced_table(tables, ops), 0, two_pow(vars)));
            let records = Seq::new(
                vars,
                |t: int| prover_record::<K>(tables, ops, vars, absorbed, t as nat),
            );
            let drawn = Seq::new(
                vars,
                |t: int| prover_challenge::<K>(tables, ops, vars, absorbed, t as nat),
            );
            verifier_outcome::<K>(claimed, records, absorbed, Seq::empty()) == (
                true,
                composite_value(tables, ops, drawn),
                drawn,
                prover_state::<K>(tables, ops, vars, absorbed, vars).1,
            )
        }),
{
    let records = Seq::new(
        vars,
        |t: int| prover_record::<K>(tables, ops, vars, absorbed, t as nat),
    );
    let drawn = Seq::new(
        vars,
        |t: int| prover_challenge::<K>(tables, ops, vars, absorbed, t as nat),
    );
    let last = prover_state::<K>(tables, ops, vars, absorbed, vars);
    lemma_verifier_follows::<K>(tables, ops, vars, absorbed, 0, Seq::empty());
    assert(records_from::<K>(tables, ops, vars, absorbed, 0) =~= records);
    assert(Seq::<int>::empty() + challenges_from::<K>(tables, ops, vars, absorbed, 0) =~= drawn);
    // The sum of the last composite is its one value, the value at no point.
    lemma_state_fits::<K>(tables, ops, vars, absorbed, vars);
    lemma_state_value::<K>(tables, ops, vars, absorbed, vars, Seq::empty());
    assert(drawn + Seq::<int>::empty() =~= drawn);
    assert(two_pow(0) == 1);
    let none = Seq::<int>::empty();
    let evals = Seq::new(last.0.len(), |t: int| mle_eval(last.0[t], none));
    assert forall|t: int| 0 <= t < last.0.len() implies evals[t] == table_column(last.0, 0)[t] by {
        let table = last.0[t];
        assert(table.len() == 1);
        assert(weighted_sum(table, none, 0) == 0);
        assert(chi(none, 0) == 1);
        assert(table[0] * 1 == table[0]);
        assert(mle_eval(table, none) == weighted_sum(table, none, 1));
    }
    assert(evals =~= table_column(last.0, 0));
    assert(last.0[0].len() == 1);
    assert(range_sum(reduced_table(last.0, ops), 0, 1) == reduced_table(last.0, ops)[0]) by {
        assert(range_sum(reduced_table(last.0, ops), 0, 0) == 0);
    }
    lemma_fred_basics(expr_value(table_column(last.0, 0), ops));
}

} // verus!
