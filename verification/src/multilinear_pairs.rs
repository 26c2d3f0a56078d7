//! A polynomial by its values on the hypercube, evaluated by pairing the
//! values of the lower half with those of the upper half, one variable after
//! the other.

use vstd::prelude::*;
use crate::field::FieldElement;
use crate::field::fred;
use crate::field::values;
use crate::field::reduced;
use crate::field::lemma_fred_basics;
use crate::field::lemma_add_congruent;
use crate::field::lemma_mul_congruent;
use crate::field::lemma_view_range;
use crate::powers::two_pow;
use crate::powers::lemma_two_pow_positive;
use crate::powers::lemma_two_pow_monotonic;
use crate::powers::lemma_two_pow_adds;
use crate::powers::checked_two_pow;
use crate::multilinear::copy_table;
use crate::multilinear::mle_eval;
use crate::multilinear::fix_variable;
use crate::multilinear::pair_low;
use crate::multilinear_laws::lemma_fix_variable;
use crate::multilinear_laws::lemma_eval_reduced;
use crate::multilinear_laws::lemma_eval_at_vertex;
use crate::multilinear_laws::lemma_vertex_zero;

verus! {

/// An index with a zero bit put in at a place: the bits from the place on
/// move up by one.
pub open spec fn with_zero_bit(value: int, index: nat) -> int {
    (value / two_pow(index)) * two_pow(index + 1) + value % two_pow(index)
}

/// The pairs of indices that setting a variable of `num_vars` brings
/// together: the `i`-th pair is `i` with a zero bit put in at the place of
/// the variable, counted from the highest bit, and `i` with the highest bit
/// set.
pub open spec fn pair_at(index: nat, num_vars: nat, i: int) -> (int, int) {
    (
        with_zero_bit(i, (num_vars - index - 1) as nat),
        i + two_pow((num_vars - 1) as nat),
    )
}

/// The values left when the pairs of a variable are drawn together at
/// `val`.
pub open spec fn paired(vals: Seq<int>, index: nat, num_vars: nat, val: int) -> Seq<int> {
    Seq::new(
        two_pow((num_vars - 1) as nat) as nat,
        |i: int|
            fred(
                vals[pair_at(index, num_vars, i).0] + val * (vals[pair_at(index, num_vars, i).1]
                    - vals[pair_at(index, num_vars, i).0]),
            ),
    )
}

/// A polynomial by its values on the hypercube.
#[derive(Clone, Debug)]
pub struct MultilinearPoly {
    pub evals: Vec<FieldElement>,
    pub num_vars: usize,
}

/// An index with a zero bit put in stays below twice the bound it was
/// below.
pub proof fn lemma_with_zero_bit_bound(value: int, index: nat, bits: nat)
    requires
        0 <= value < two_pow(bits),
        index <= bits,
    ensures
        0 <= with_zero_bit(value, index) < two_pow(bits + 1),
        index == bits ==> with_zero_bit(value, index) == value,
{
    let w = two_pow(index);
    let q = value / w;
    let r = value % w;
    lemma_two_pow_positive(index);
    lemma_two_pow_adds(index, (bits - index) as nat);
    let blocks = two_pow((bits - index) as nat);
    lemma_two_pow_positive((bits - index) as nat);
    vstd::arithmetic::div_mod::lemma_fundamental_div_mod(value, w);
    vstd::arithmetic::div_mod::lemma_mod_pos_bound(value, w);
    vstd::arithmetic::div_mod::lemma_div_pos_is_pos(value, w);
    assert(q < blocks) by (nonlinear_arith)
        requires
            value == w * q + r,
            0 <= r < w,
            value < w * blocks,
            w >= 1,
    ;
    assert(two_pow(index + 1) == 2 * w);
    assert(two_pow(bits + 1) == 2 * two_pow(bits));
    assert(q * (2 * w) + r < blocks * (2 * w) && q * (2 * w) >= 0) by (nonlinear_arith)
        requires
            0 <= q < blocks,
            0 <= r < w,
            w >= 1,
    ;
    assert(blocks * (2 * w) == 2 * (w * blocks)) by (nonlinear_arith);
    if index == bits {
        assert(blocks == 1);
        assert(q == 0);
        assert(q * two_pow(index + 1) == 0) by (nonlinear_arith)
            requires
                q == 0,
        ;
        assert(w * q == 0) by (nonlinear_arith)
            requires
                q == 0,
        ;
    }
}

impl MultilinearPoly {
    /// A polynomial holds one value for each vertex of its hypercube.
    pub open spec fn wf(&self) -> bool {
        self.evals@.len() == two_pow(self.num_vars as nat)
    }

    /// The polynomial with the given values on the hypercube.
    pub fn new(num_vars: usize, evaluations: Vec<FieldElement>) -> (r: MultilinearPoly)
        requires
            evaluations@.len() == two_pow(num_vars as nat),
        ensures
            r.evals == evaluations,
            r.num_vars == num_vars,
            r.wf(),
    {
        MultilinearPoly { evals: evaluations, num_vars }
    }

    /// The polynomial that is zero everywhere.
    pub fn zero(num_vars: usize) -> (r: MultilinearPoly)
        requires
            two_pow(num_vars as nat) <= usize::MAX,
        ensures
            r.wf(),
            r.num_vars == num_vars,
            forall|i: int| 0 <= i < r.evals@.len() ==> (#[trigger] r.evals@[i])@ == 0,
    {
        let len = checked_two_pow(num_vars).unwrap();
        let mut evals: Vec<FieldElement> = Vec::with_capacity(len);
        let mut i: usize = 0;
        while i < len
            invariant
                i <= len,
                evals@.len() == i,
                forall|t: int| 0 <= t < i ==> (#[trigger] evals@[t])@ == 0,
            decreases len - i,
        {
            evals.push(FieldElement::zero());
            i = i + 1;
        }
        MultilinearPoly { evals, num_vars }
    }

    /// An index with a zero bit put in at a place.
    pub fn insert_bit(value: usize, index: usize) -> (r: usize)
        requires
            two_pow((index + 1) as nat) <= usize::MAX,
            with_zero_bit(value as int, index as nat) <= usize::MAX,
        ensures
            r == with_zero_bit(value as int, index as nat),
    {
        proof {
            lemma_two_pow_monotonic(index as nat, (index + 1) as nat);
            lemma_two_pow_positive(index as nat);
        }
        let weight = checked_two_pow(index).unwrap();
        let high = value / weight;
        let low = value % weight;
        proof {
            assert(two_pow((index + 1) as nat) == 2 * weight);
            assert(high * (2 * weight) >= 0) by (nonlinear_arith)
                requires
                    high >= 0,
                    weight >= 0,
            ;
        }
        high * (2 * weight) + low
    }

    /// The pairs of indices that setting variable `index` of `num_vars`
    /// brings together.
    pub fn pairs(index: usize, num_vars: usize) -> (r: Vec<(usize, usize)>)
        requires
            index < num_vars,
            two_pow(num_vars as nat) <= usize::MAX,
        ensures
            r@.len() == two_pow((num_vars - 1) as nat),
            forall|i: int|
                0 <= i < r@.len() ==> (#[trigger] r@[i]).0 == pair_at(
                    index as nat,
                    num_vars as nat,
                    i,
                ).0 && r@[i].1 == pair_at(index as nat, num_vars as nat, i).1 && r@[i].0
                    < two_pow(num_vars as nat) && r@[i].1 < two_pow(num_vars as nat),
    {
        let target_hc = num_vars - 1;
        proof {
            lemma_two_pow_monotonic(target_hc as nat, num_vars as nat);
            assert(two_pow(num_vars as nat) == 2 * two_pow(target_hc as nat));
        }
        let half = checked_two_pow(target_hc).unwrap();
        let mut result: Vec<(usize, usize)> = Vec::with_capacity(half);
        let mut i: usize = 0;
        while i < half
            invariant
                i <= half,
                index < num_vars,
                target_hc == num_vars - 1,
                half == two_pow(target_hc as nat),
                two_pow(num_vars as nat) == 2 * half,
                two_pow(num_vars as nat) <= usize::MAX,
                result@.len() == i,
                forall|t: int|
                    0 <= t < i ==> (#[trigger] result@[t]).0 == pair_at(
                        index as nat,
                        num_vars as nat,
                        t,
                    ).0 && result@[t].1 == pair_at(index as nat, num_vars as nat, t).1
                        && result@[t].0 < two_pow(num_vars as nat) && result@[t].1 < two_pow(
                        num_vars as nat,
                    ),
            decreases half - i,
        {
            let inverted_index = num_vars - index - 1;
            proof {
                lemma_with_zero_bit_bound(i as int, inverted_index as nat, target_hc as nat);
                lemma_two_pow_monotonic((inverted_index + 1) as nat, num_vars as nat);
            }
            let insert_zero = Self::insert_bit(i, inverted_index);
            let insert_one = i + half;
            result.push((insert_zero, insert_one));
            i = i + 1;
        }
        result
    }

    /// The polynomial with the pairs of variable `index` drawn together at
    /// `val`.
    pub fn partial_evalulate(&self, index: usize, val: &FieldElement) -> (r: MultilinearPoly)
        requires
            self.wf(),
            index < self.num_vars,
            two_pow(self.num_vars as nat) <= usize::MAX,
        ensures
            r.wf(),
            r.num_vars == self.num_vars - 1,
            values(r.evals@) == paired(
                values(self.evals@),
                index as nat,
                self.num_vars as nat,
                val@,
            ),
    {
        let pairs = Self::pairs(index, self.num_vars);
        let ghost vals = values(self.evals@);
        let mut result: Vec<FieldElement> = Vec::with_capacity(pairs.len());
        let mut i: usize = 0;
        while i < pairs.len()
            invariant
                i <= pairs@.len(),
                self.wf(),
                vals == values(self.evals@),
                pairs@.len() == two_pow((self.num_vars - 1) as nat),
                forall|t: int|
                    0 <= t < pairs@.len() ==> (#[trigger] pairs@[t]).0 == pair_at(
                        index as nat,
                        self.num_vars as nat,
                        t,
                    ).0 && pairs@[t].1 == pair_at(index as nat, self.num_vars as nat, t).1
                        && pairs@[t].0 < two_pow(self.num_vars as nat) && pairs@[t].1 < two_pow(
                        self.num_vars as nat,
                    ),
                result@.len() == i,
                forall|t: int|
                    0 <= t < i ==> (#[trigger] result@[t])@ == paired(
                        vals,
                        index as nat,
                        self.num_vars as nat,
                        val@,
                    )[t],
            decreases pairs@.len() - i,
        {
            let (a, b) = pairs[i];
            let low = self.evals[a];
            let high = self.evals[b];
            let entry = low.add(&val.mul(&high.sub(&low)));
            proof {
                let x = vals[a as int];
                let y = vals[b as int];
                lemma_fred_basics(y - x);
                lemma_fred_basics(x);
                lemma_fred_basics(val@);
                lemma_fred_basics(val@ * (y - x));
                lemma_mul_congruent(val@, val@, fred(y - x), y - x);
                lemma_add_congruent(x, x, fred(val@ * fred(y - x)), val@ * (y - x));
            }
            result.push(entry);
            i = i + 1;
        }
        proof {
            assert(values(result@) =~= paired(vals, index as nat, self.num_vars as nat, val@));
        }
        MultilinearPoly { evals: result, num_vars: self.num_vars - 1 }
    }

    /// A copy of the polynomial.
    pub fn copy(&self) -> (r: MultilinearPoly)
        ensures
            r.evals@ == self.evals@,
            r.num_vars == self.num_vars,
    {
        MultilinearPoly { evals: copy_table(&self.evals), num_vars: self.num_vars }
    }

    /// The value of the polynomial at a point: its multilinear extension,
    /// the first variable at the highest bit of an index.
    pub fn evaluate(&self, assignments: &[FieldElement]) -> (r: FieldElement)
        requires
            self.wf(),
            assignments@.len() == self.num_vars,
            two_pow(self.num_vars as nat) <= usize::MAX,
        ensures
            r@ == fred(mle_eval(values(self.evals@), values(assignments@))),
    {
        let ghost vals = values(self.evals@);
        let ghost pt = values(assignments@);
        let ghost n = self.num_vars as nat;
        let mut poly = self.copy();
        let mut t: usize = 0;
        proof {
            assert(pt.subrange(0, n as int) =~= pt);
        }
        while t < assignments.len()
            invariant
                t <= assignments@.len(),
                assignments@.len() == n,
                pt == values(assignments@),
                poly.wf(),
                poly.num_vars == n - t,
                two_pow(n) <= usize::MAX,
                fred(mle_eval(values(poly.evals@), pt.subrange(t as int, n as int))) == fred(
                    mle_eval(vals, pt),
                ),
            decreases assignments@.len() - t,
        {
            let ghost before = values(poly.evals@);
            let ghost m = (n - t - 1) as nat;
            proof {
                lemma_two_pow_monotonic((n - t) as nat, n);
            }
            poly = poly.partial_evalulate(0, &assignments[t]);
            proof {
                let rest = pt.subrange(t + 1, n as int);
                let v = pt[t as int];
                let h = two_pow(m);
                lemma_two_pow_positive(m);
                assert(two_pow((m + 1) as nat) == 2 * h);
                let exact = fix_variable(before, h, v);
                assert forall|i: int| 0 <= i < h implies values(poly.evals@)[i] == reduced(
                    exact,
                )[i] by {
                    lemma_with_zero_bit_bound(i, m, m);
                    vstd::arithmetic::div_mod::lemma_small_mod(i as nat, h as nat);
                    vstd::arithmetic::div_mod::lemma_basic_div(i, h);
                    assert(pair_low(i, h) == i);
                    assert(pair_at(0, (m + 1) as nat, i) == (i, i + h));
                }
                assert(values(poly.evals@) =~= reduced(exact));
                lemma_fix_variable(before, 0, v, rest);
                lemma_eval_reduced(exact, rest);
                assert(rest.insert(0, v) =~= pt.subrange(t as int, n as int));
            }
            t = t + 1;
        }
        proof {
            assert(two_pow(0) == 1);
            let none = pt.subrange(n as int, n as int);
            lemma_vertex_zero(0);
            assert(none =~= Seq::new(0, |j: int| 0int));
            lemma_eval_at_vertex(values(poly.evals@), 0, 0);
            lemma_view_range(poly.evals@[0]);
            lemma_fred_basics(poly.evals@[0]@);
        }
        poly.evals[0]
    }
}

} // verus!
