//! The sum-check of a polynomial in one variable: the claim is that its
//! values at zero and at one add up to a given sum.

use vstd::prelude::*;
use crate::field::FieldElement;
use crate::field::fred;
use crate::field::values;
use crate::field::poly_value;
use crate::field::evaluate_univariate;
use crate::multilinear::copy_table;

verus! {

/// The values of a polynomial in one variable at zero and at one, added up.
pub open spec fn sum_at_zero_and_one(coeffs: Seq<int>) -> int {
    fred(fred(poly_value(coeffs, 0)) + fred(poly_value(coeffs, 1)))
}

/// A claim of a sum with the polynomials that it is made of, each by its
/// coefficients.
#[derive(Clone, Debug)]
pub struct SumCheckProof {
    pub claimed_sum: FieldElement,
    pub polynomials: Vec<Vec<FieldElement>>,
}

/// The prover of a sum of a polynomial.
pub struct Prover {
    pub polynomial: Vec<FieldElement>,
    pub claimed_sum: FieldElement,
}

/// The verifier of a sum of a polynomial.
pub struct Verifier {}

impl Prover {
    /// The prover that claims the given sum for the given polynomial.
    pub fn new(polynomial: Vec<FieldElement>, claimed_sum: FieldElement) -> (r: Prover)
        ensures
            r.polynomial == polynomial,
            r.claimed_sum == claimed_sum,
    {
        Prover { polynomial, claimed_sum }
    }

    /// The proof: the sum that is claimed, and the polynomial itself.
    pub fn generate_proof(&self) -> (r: SumCheckProof)
        ensures
            r.claimed_sum == self.claimed_sum,
            r.polynomials@.len() == 1,
            r.polynomials@[0]@ == self.polynomial@,
    {
        let mut polynomials: Vec<Vec<FieldElement>> = Vec::with_capacity(1);
        polynomials.push(copy_table(&self.polynomial));
        SumCheckProof { claimed_sum: self.claimed_sum, polynomials }
    }
}

impl Verifier {
    /// A verifier.
    pub fn new() -> (r: Verifier) {
        Verifier {  }
    }

    /// Whether the sum that a proof claims is the sum of the values of the
    /// polynomial at zero and at one.
    pub fn verify_proof(&self, proof: SumCheckProof, polynomial: &Vec<FieldElement>) -> (r: bool)
        ensures
            r == (proof.claimed_sum@ == sum_at_zero_and_one(values(polynomial@))),
    {
        let actual_sum = self.compute_actual_sum(polynomial);
        proof.claimed_sum.equals(&actual_sum)
    }

    /// The values of a polynomial at zero and at one, added up.
    pub fn compute_actual_sum(&self, poly: &Vec<FieldElement>) -> (r: FieldElement)
        ensures
            r@ == sum_at_zero_and_one(values(poly@)),
    {
        let eval_at_0 = evaluate_univariate(poly, &FieldElement::from_u64(0));
        let eval_at_1 = evaluate_univariate(poly, &FieldElement::from_u64(1));
        eval_at_0.add(&eval_at_1)
    }
}

} // verus!
