//! The sum-check protocol on one polynomial held by its coefficients: the
//! coefficient at an index belongs to the product of the variables whose
//! bits the index has, the first variable at the lowest bit. Such a
//! polynomial has degree one in each variable, so a round takes a line.

use vstd::prelude::*;
use crate::field::FieldElement;
use crate::field::fred;
use crate::field::values;
use crate::field::encode_all;
use crate::field::lemma_fred_basics;
use crate::field::lemma_add_congruent;
use crate::field::lemma_mul_congruent;
use crate::field::lemma_view_range;
use crate::powers::two_pow;
use crate::multilinear::copy_table;
use crate::multilinear::low_bits;
use crate::multilinear::low_bits_point;
use crate::dense_polynomial::DensePolynomial;
use crate::field::poly_value;
use crate::transcript::HashTrait;
use crate::transcript::KeccakWrapper;
use crate::transcript::Transcript;
use crate::transcript::challenge_of;
use crate::sumcheck::coefficients_of;
use crate::sumcheck::absorb_elements;

verus! {

/// The product of the coordinates of a point at the variables whose bits an
/// index has, the first variable at the lowest bit.
pub open spec fn monomial(point: Seq<int>, i: int) -> int
    decreases point.len(),
{
    if point.len() == 0 {
        1
    } else if i % 2 == 1 {
        point[0] * monomial(point.drop_first(), i / 2)
    } else {
        monomial(point.drop_first(), i / 2)
    }
}

/// The sum of the first `k` coefficients, each times its monomial at a
/// point.
pub open spec fn monomial_sum(coeffs: Seq<int>, point: Seq<int>, k: int) -> int
    decreases k,
{
    if k <= 0 {
        0
    } else {
        monomial_sum(coeffs, point, k - 1) + coeffs[k - 1] * monomial(point, k - 1)
    }
}

/// The value of a polynomial at a point, over the integers.
pub open spec fn coefficient_eval(coeffs: Seq<int>, point: Seq<int>) -> int {
    monomial_sum(coeffs, point, coeffs.len() as int)
}

/// The sum, over the first `k` vertices of the hypercube of `free`
/// variables, of the value at `prefix` followed by the vertex.
pub open spec fn coefficient_vertex_sum(
    coeffs: Seq<int>,
    prefix: Seq<int>,
    free: nat,
    k: int,
) -> int
    decreases k,
{
    if k <= 0 {
        0
    } else {
        coefficient_vertex_sum(coeffs, prefix, free, k - 1) + fred(
            coefficient_eval(coeffs, prefix + low_bits(free, k - 1)),
        )
    }
}

/// A polynomial in several variables, of degree one in each, held by its
/// coefficients.
#[derive(Clone, Debug)]
pub struct MultivariatePoly {
    pub coeffs: Vec<FieldElement>,
    pub num_vars: usize,
}

impl MultivariatePoly {
    /// A polynomial holds one coefficient for each set of variables.
    pub open spec fn wf(&self) -> bool {
        self.coeffs@.len() == two_pow(self.num_vars as nat)
    }

    /// The coefficients as integers.
    pub open spec fn values(&self) -> Seq<int> {
        values(self.coeffs@)
    }

    /// The polynomial with the given coefficients.
    pub fn new(coeffs: Vec<FieldElement>, num_vars: usize) -> (r: MultivariatePoly)
        requires
            coeffs@.len() == two_pow(num_vars as nat),
        ensures
            r.coeffs == coeffs,
            r.num_vars == num_vars,
            r.wf(),
    {
        MultivariatePoly { coeffs, num_vars }
    }

    /// A copy of the polynomial.
    pub fn copy(&self) -> (r: MultivariatePoly)
        ensures
            r.coeffs@ == self.coeffs@,
            r.num_vars == self.num_vars,
    {
        MultivariatePoly { coeffs: copy_table(&self.coeffs), num_vars: self.num_vars }
    }

    /// The value of the polynomial at a point: the sum of the coefficients,
    /// each times its monomial.
    pub fn evaluate(&self, point: &Vec<FieldElement>) -> (r: FieldElement)
        requires
            point@.len() == self.num_vars,
        ensures
            r@ == fred(coefficient_eval(self.values(), values(point@))),
    {
        let n = self.num_vars;
        let ghost vals = self.values();
        let ghost pt = values(point@);
        let mut result = FieldElement::zero();
        let mut i: usize = 0;
        proof {
            lemma_fred_basics(0);
        }
        while i < self.coeffs.len()
            invariant
                i <= self.coeffs@.len(),
                n == self.num_vars,
                point@.len() == n,
                vals == self.values(),
                pt == values(point@),
                result@ == fred(monomial_sum(vals, pt, i as int)),
            decreases self.coeffs@.len() - i,
        {
            let mut term = self.coeffs[i];
            let mut rest = i;
            let mut j: usize = 0;
            proof {
                assert(pt.subrange(0, n as int) =~= pt);
            }
            while j < n
                invariant
                    j <= n,
                    point@.len() == n,
                    pt == values(point@),
                    fred(term@ * monomial(pt.subrange(j as int, n as int), rest as int)) == fred(
                        vals[i as int] * monomial(pt, i as int),
                    ),
                decreases n - j,
            {
                let ghost cur = pt.subrange(j as int, n as int);
                let ghost next = pt.subrange(j + 1, n as int);
                let ghost old_term = term@;
                let ghost old_rest = rest as int;
                proof {
                    assert(cur.drop_first() =~= next);
                    assert(cur[0] == pt[j as int]);
                }
                if rest % 2 == 1 {
                    term = term.mul(&point[j]);
                    proof {
                        let tail = monomial(next, old_rest / 2);
                        lemma_mul_congruent(term@, old_term * pt[j as int], tail, tail);
                        lemma_fred_basics(old_term * pt[j as int]);
                        assert((old_term * pt[j as int]) * tail == old_term * (pt[j as int]
                            * tail)) by (nonlinear_arith);
                    }
                }
                rest = rest / 2;
                j = j + 1;
            }
            proof {
                assert(pt.subrange(n as int, n as int).len() == 0);
                assert(term@ * 1 == term@);
                lemma_view_range(term);
                lemma_fred_basics(term@);
            }
            let ghost before = result@;
            result = result.add(&term);
            proof {
                lemma_fred_basics(vals[i as int] * monomial(pt, i as int));
                lemma_add_congruent(
                    before,
                    monomial_sum(vals, pt, i as int),
                    term@,
                    vals[i as int] * monomial(pt, i as int),
                );
            }
            i = i + 1;
        }
        result
    }

    /// The sum of the values of the polynomial at the vertices of the
    /// hypercube.
    pub fn sum_over_boolean_hypercube(&self) -> (r: FieldElement)
        requires
            self.wf(),
        ensures
            r@ == fred(
                coefficient_vertex_sum(
                    self.values(),
                    Seq::empty(),
                    self.num_vars as nat,
                    two_pow(self.num_vars as nat),
                ),
            ),
    {
        let n = self.num_vars;
        let num_points = self.coeffs.len();
        let ghost vals = self.values();
        let mut sum = FieldElement::zero();
        let mut i: usize = 0;
        proof {
            lemma_fred_basics(0);
        }
        while i < num_points
            invariant
                i <= num_points,
                n == self.num_vars,
                num_points == two_pow(n as nat),
                vals == self.values(),
                sum@ == fred(coefficient_vertex_sum(vals, Seq::empty(), n as nat, i as int)),
            decreases num_points - i,
        {
            let point = low_bits_point(n, i);
            let term = self.evaluate(&point);
            let ghost before = sum@;
            sum = sum.add(&term);
            proof {
                assert(Seq::<int>::empty() + low_bits(n as nat, i as int) =~= low_bits(
                    n as nat,
                    i as int,
                ));
                lemma_fred_basics(term@);
                lemma_add_congruent(
                    before,
                    coefficient_vertex_sum(vals, Seq::empty(), n as nat, i as int),
                    term@,
                    term@,
                );
            }
            i = i + 1;
        }
        sum
    }

    /// The sum of the values of the polynomial at the points that start with
    /// the first `round` entries of `partial_evaluation`, go on with `x`, and
    /// end with a vertex of the hypercube of the variables that are left.
    pub fn evaluate_at_round(
        &self,
        round: usize,
        partial_evaluation: &[FieldElement],
        x: FieldElement,
    ) -> (r: FieldElement)
        requires
            self.wf(),
            round < self.num_vars,
            round <= partial_evaluation@.len(),
        ensures
            r@ == fred(
                coefficient_vertex_sum(
                    self.values(),
                    values(partial_evaluation@.subrange(0, round as int)) + seq![x@],
                    (self.num_vars - round - 1) as nat,
                    two_pow((self.num_vars - round - 1) as nat),
                ),
            ),
    {
        let n = self.num_vars;
        let remaining_vars = n - round - 1;
        let ghost vals = self.values();
        let ghost prefix = values(partial_evaluation@.subrange(0, round as int)) + seq![x@];
        let mut point: Vec<FieldElement> = Vec::with_capacity(n);
        let mut t: usize = 0;
        while t < round
            invariant
                t <= round <= partial_evaluation@.len(),
                point@ == partial_evaluation@.subrange(0, t as int),
            decreases round - t,
        {
            point.push(partial_evaluation[t]);
            proof {
                assert(partial_evaluation@.subrange(0, t as int).push(
                    partial_evaluation@[t as int],
                ) =~= partial_evaluation@.subrange(0, t + 1));
            }
            t = t + 1;
        }
        point.push(x);
        proof {
            assert(values(point@) =~= prefix);
        }
        let mut num_remaining_points = self.coeffs.len();
        let mut h: usize = 0;
        while h < round + 1
            invariant
                h <= round + 1,
                round < n,
                num_remaining_points == two_pow((n - h) as nat),
            decreases round + 1 - h,
        {
            assert(two_pow((n - h) as nat) == 2 * two_pow((n - h - 1) as nat));
            num_remaining_points = num_remaining_points / 2;
            h = h + 1;
        }
        let mut sum = FieldElement::zero();
        let mut i: usize = 0;
        proof {
            lemma_fred_basics(0);
        }
        while i < num_remaining_points
            invariant
                i <= num_remaining_points,
                n == self.num_vars,
                remaining_vars == n - round - 1,
                round < n,
                vals == self.values(),
                point@.len() == round + 1,
                values(point@) == prefix,
                sum@ == fred(
                    coefficient_vertex_sum(vals, prefix, remaining_vars as nat, i as int),
                ),
            decreases num_remaining_points - i,
        {
            let tail = low_bits_point(remaining_vars, i);
            let mut full_point = copy_table(&point);
            let mut j: usize = 0;
            while j < remaining_vars
                invariant
                    j <= remaining_vars,
                    tail@.len() == remaining_vars,
                    full_point@ == point@ + tail@.subrange(0, j as int),
                decreases remaining_vars - j,
            {
                full_point.push(tail[j]);
                proof {
                    assert((point@ + tail@.subrange(0, j as int)).push(tail@[j as int]) =~= point@
                        + tail@.subrange(0, j + 1));
                }
                j = j + 1;
            }
            proof {
                assert(tail@.subrange(0, remaining_vars as int) =~= tail@);
                assert(values(full_point@) =~= prefix + low_bits(remaining_vars as nat, i as int));
            }
            let term = self.evaluate(&full_point);
            let ghost before = sum@;
            sum = sum.add(&term);
            proof {
                lemma_fred_basics(term@);
                lemma_add_congruent(
                    before,
                    coefficient_vertex_sum(vals, prefix, remaining_vars as nat, i as int),
                    term@,
                    term@,
                );
            }
            i = i + 1;
        }
        sum
    }
}

/// The sum of the polynomial over the vertices of the variables after
/// `prefix` and one more, where the first variables are at `prefix` and the
/// next is at `x`.
pub open spec fn sum_with(coeffs: Seq<int>, vars: nat, prefix: Seq<int>, x: int) -> int {
    fred(
        coefficient_vertex_sum(
            coeffs,
            prefix + seq![x],
            (vars - prefix.len() - 1) as nat,
            two_pow((vars - prefix.len() - 1) as nat),
        ),
    )
}

/// The line of a round, by its coefficients: the sum where the variable of
/// the round is zero, and what the sum gains where it is one.
pub open spec fn round_line(coeffs: Seq<int>, vars: nat, prefix: Seq<int>) -> Seq<int> {
    seq![
        sum_with(coeffs, vars, prefix, 0),
        fred(sum_with(coeffs, vars, prefix, 1) - sum_with(coeffs, vars, prefix, 0)),
    ]
}

/// The bytes that open the transcript of a proof: the coefficients, then
/// the sum that is claimed.
pub open spec fn opening_bytes(coeffs: Seq<int>, claimed: int) -> Seq<u8> {
    encode_all(coeffs) + encode_all(seq![claimed])
}

/// The challenges that the prover has drawn after `i` rounds, and the
/// bytes that its transcript then holds.
pub open spec fn linear_state(coeffs: Seq<int>, vars: nat, claimed: int, i: nat) -> (
    Seq<int>,
    Seq<u8>,
)
    decreases i,
{
    if i == 0 {
        (Seq::empty(), opening_bytes(coeffs, claimed))
    } else {
        let before = linear_state(coeffs, vars, claimed, (i - 1) as nat);
        let fed = before.1 + encode_all(round_line(coeffs, vars, before.0));
        (before.0.push(challenge_of::<KeccakWrapper>(fed)), KeccakWrapper::digest(fed))
    }
}

/// How the verifier ends on the lines that are left, from the sum that it
/// holds, the bytes of its transcript and the challenges that it has drawn:
/// whether it accepts them, and then all the challenges. A line is refused
/// where it has more than two coefficients, or where its values at zero and
/// at one do not add up to the sum.
pub open spec fn linear_verdict(
    lines: Seq<Seq<int>>,
    sum: int,
    absorbed: Seq<u8>,
    challenges: Seq<int>,
) -> (bool, Seq<int>)
    decreases lines.len(),
{
    if lines.len() == 0 {
        (true, challenges)
    } else {
        let line = lines[0];
        if line.len() > 2 || fred(fred(poly_value(line, 0)) + fred(poly_value(line, 1))) != sum {
            (false, Seq::empty())
        } else {
            let fed = absorbed + encode_all(line);
            let c = challenge_of::<KeccakWrapper>(fed);
            linear_verdict(
                lines.drop_first(),
                fred(poly_value(line, c)),
                KeccakWrapper::digest(fed),
                challenges.push(c),
            )
        }
    }
}

/// A proof that a polynomial sums to a value over the hypercube.
#[derive(Clone, Debug)]
pub struct SumCheckProof {
    pub claimed_sum: FieldElement,
    pub round_polynomials: Vec<DensePolynomial>,
    pub challenges: Vec<FieldElement>,
    pub final_evaluation: FieldElement,
}

/// The prover of the sum of a polynomial.
pub struct Prover {
    pub polynomial: MultivariatePoly,
}

/// The verifier of the sum of a polynomial.
pub struct Verifier {}

impl Prover {
    /// The prover of the sum of the given polynomial.
    pub fn new(polynomial: MultivariatePoly) -> (r: Prover)
        ensures
            r.polynomial == polynomial,
    {
        Prover { polynomial }
    }

    /// The line of a round: the sum of the polynomial over the variables
    /// after the round's, as a polynomial in the variable of the round, with
    /// the earlier variables at the first `round` entries of
    /// `partial_evaluation`.
    pub fn generate_round_polynomial(&self, round: usize, partial_evaluation: &[FieldElement]) -> (r:
        DensePolynomial)
        requires
            self.polynomial.wf(),
            round < self.polynomial.num_vars,
            round <= partial_evaluation@.len(),
        ensures
            r.values() == round_line(
                self.polynomial.values(),
                self.polynomial.num_vars as nat,
                values(partial_evaluation@.subrange(0, round as int)),
            ),
    {
        let eval_0 = self.polynomial.evaluate_at_round(
            round,
            partial_evaluation,
            FieldElement::zero(),
        );
        let eval_1 = self.polynomial.evaluate_at_round(
            round,
            partial_evaluation,
            FieldElement::one(),
        );
        let mut coeffs: Vec<FieldElement> = Vec::with_capacity(2);
        coeffs.push(eval_0);
        coeffs.push(eval_1.sub(&eval_0));
        let r = DensePolynomial { coefficients: coeffs };
        proof {
            assert(r.values() =~= round_line(
                self.polynomial.values(),
                self.polynomial.num_vars as nat,
                values(partial_evaluation@.subrange(0, round as int)),
            ));
        }
        r
    }

    /// The proof of the sum of the polynomial over the hypercube. The
    /// transcript is fed the coefficients and the sum; each round feeds it
    /// the line of the round and takes from it the challenge that the
    /// variable of the round is set to; the proof ends with the value of the
    /// polynomial at the challenges.
    pub fn generate_proof(&self) -> (r: SumCheckProof)
        requires
            self.polynomial.wf(),
        ensures
            ({
                let coeffs = self.polynomial.values();
                let vars = self.polynomial.num_vars as nat;
                let claimed = fred(
                    coefficient_vertex_sum(coeffs, Seq::empty(), vars, two_pow(vars)),
                );
                &&& r.claimed_sum@ == claimed
                &&& r.round_polynomials@.len() == vars
                &&& forall|i: int|
                    0 <= i < vars ==> (#[trigger] r.round_polynomials@[i]).values() == round_line(
                        coeffs,
                        vars,
                        linear_state(coeffs, vars, claimed, i as nat).0,
                    )
                &&& values(r.challenges@) == linear_state(coeffs, vars, claimed, vars).0
                &&& r.final_evaluation@ == fred(coefficient_eval(coeffs, values(r.challenges@)))
            }),
    {
        let ghost coeffs = self.polynomial.values();
        let ghost vars = self.polynomial.num_vars as nat;
        let claimed_sum = self.polynomial.sum_over_boolean_hypercube();
        let ghost claimed = claimed_sum@;
        let mut round_polynomials: Vec<DensePolynomial> = Vec::new();
        let mut challenges: Vec<FieldElement> = Vec::new();
        let mut partial_evaluation: Vec<FieldElement> = Vec::new();
        let mut transcript = Transcript::new(KeccakWrapper::new());
        absorb_elements(&self.polynomial.coeffs, &mut transcript);
        let mut sum_data: Vec<FieldElement> = Vec::with_capacity(1);
        sum_data.push(claimed_sum);
        proof {
            assert(values(sum_data@) =~= seq![claimed]);
        }
        absorb_elements(&sum_data, &mut transcript);
        proof {
            assert(transcript.absorbed() =~= opening_bytes(coeffs, claimed));
            assert(values(challenges@) =~= Seq::<int>::empty());
        }
        let mut round: usize = 0;
        while round < self.polynomial.num_vars
            invariant
                round <= self.polynomial.num_vars,
                self.polynomial.wf(),
                coeffs == self.polynomial.values(),
                vars == self.polynomial.num_vars,
                partial_evaluation@ == challenges@,
                challenges@.len() == round,
                round_polynomials@.len() == round,
                (values(challenges@), transcript.absorbed()) == linear_state(
                    coeffs,
                    vars,
                    claimed,
                    round as nat,
                ),
                forall|i: int|
                    0 <= i < round ==> (#[trigger] round_polynomials@[i]).values() == round_line(
                        coeffs,
                        vars,
                        linear_state(coeffs, vars, claimed, i as nat).0,
                    ),
            decreases self.polynomial.num_vars - round,
        {
            let ghost drawn = values(challenges@);
            proof {
                assert(partial_evaluation@.subrange(0, round as int) =~= partial_evaluation@);
            }
            let round_poly = self.generate_round_polynomial(round, partial_evaluation.as_slice());
            absorb_elements(&round_poly.coefficients, &mut transcript);
            round_polynomials.push(round_poly);
            let challenge = transcript.sample_field_element();
            challenges.push(challenge);
            partial_evaluation.push(challenge);
            proof {
                assert(values(challenges@) =~= drawn.push(challenge@));
            }
            round = round + 1;
        }
        let final_evaluation = self.polynomial.evaluate(&partial_evaluation);
        SumCheckProof { claimed_sum, round_polynomials, challenges, final_evaluation }
    }
}

impl Verifier {
    /// A verifier.
    pub fn new() -> (r: Verifier) {
        Verifier {  }
    }

    /// Whether a proof proves the sum that it claims for the polynomial.
    /// The verifier asks for one line for each variable, follows the lines
    /// through the transcript as the prover did, and at the end compares the
    /// value that the proof ends with to the value of the polynomial at the
    /// challenges that it has drawn.
    pub fn verify_proof(&self, proof: &SumCheckProof, polynomial: &MultivariatePoly) -> (r: bool)
        ensures
            ({
                let coeffs = polynomial.values();
                let verdict = linear_verdict(
                    coefficients_of(proof.round_polynomials@),
                    proof.claimed_sum@,
                    opening_bytes(coeffs, proof.claimed_sum@),
                    Seq::empty(),
                );
                r == (proof.round_polynomials@.len() == polynomial.num_vars && verdict.0
                    && proof.final_evaluation@ == fred(coefficient_eval(coeffs, verdict.1)))
            }),
    {
        if proof.round_polynomials.len() != polynomial.num_vars {
            return false;
        }
        let ghost coeffs = polynomial.values();
        let ghost lines = coefficients_of(proof.round_polynomials@);
        let ghost goal = linear_verdict(
            lines,
            proof.claimed_sum@,
            opening_bytes(coeffs, proof.claimed_sum@),
            Seq::empty(),
        );
        let mut challenges: Vec<FieldElement> = Vec::new();
        let mut transcript = Transcript::new(KeccakWrapper::new());
        absorb_elements(&polynomial.coeffs, &mut transcript);
        let mut sum_data: Vec<FieldElement> = Vec::with_capacity(1);
        sum_data.push(proof.claimed_sum);
        proof {
            assert(values(sum_data@) =~= seq![proof.claimed_sum@]);
        }
        absorb_elements(&sum_data, &mut transcript);
        let mut current_sum = proof.claimed_sum;
        let mut i: usize = 0;
        proof {
            assert(transcript.absorbed() =~= opening_bytes(coeffs, proof.claimed_sum@));
            assert(values(challenges@) =~= Seq::<int>::empty());
            assert(lines.subrange(0, lines.len() as int) =~= lines);
        }
        while i < proof.round_polynomials.len()
            invariant
                i <= proof.round_polynomials@.len(),
                proof.round_polynomials@.len() == polynomial.num_vars,
                coeffs == polynomial.values(),
                lines == coefficients_of(proof.round_polynomials@),
                challenges@.len() == i,
                goal == linear_verdict(
                    lines,
                    proof.claimed_sum@,
                    opening_bytes(coeffs, proof.claimed_sum@),
                    Seq::empty(),
                ),
                linear_verdict(
                    lines.subrange(i as int, lines.len() as int),
                    current_sum@,
                    transcript.absorbed(),
                    values(challenges@),
                ) == goal,
            decreases proof.round_polynomials@.len() - i,
        {
            let round_poly = &proof.round_polynomials[i];
            let ghost rest = lines.subrange(i as int, lines.len() as int);
            proof {
                assert(rest[0] == round_poly.values());
                assert(rest.drop_first() =~= lines.subrange(i + 1, lines.len() as int));
            }
            // Check polynomial degree is at most 1
            if round_poly.degree() > 1 {
                return false;
            }
            // Verify sum at x=0 and x=1 matches the claimed sum
            let sum_0 = round_poly.evaluate(FieldElement::zero());
            let sum_1 = round_poly.evaluate(FieldElement::one());
            if !sum_0.add(&sum_1).equals(&current_sum) {
                return false;
            }
            absorb_elements(&round_poly.coefficients, &mut transcript);
            let challenge = transcript.sample_field_element();
            current_sum = round_poly.evaluate(challenge);
            let ghost drawn = values(challenges@);
            challenges.push(challenge);
            proof {
                assert(values(challenges@) =~= drawn.push(challenge@));
            }
            i = i + 1;
        }
        // Final check: verify the claimed evaluation
        proof.final_evaluation.equals(&polynomial.evaluate(&challenges))
    }
}

} // verus!
