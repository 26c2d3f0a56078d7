//! Sharing a secret among several holders, any `threshold` of whom recover
//! it: the secret is the constant of a polynomial whose other coefficients
//! are drawn at random, and a share is a point of the polynomial.

use vstd::prelude::*;
use crate::field::FieldElement;
use crate::field::fred;
use crate::field::values;
use crate::field::poly_value;
use crate::dense_polynomial::DensePolynomial;
use crate::dense_polynomial::trimmed;
use crate::dense_polynomial::abscissas;
use crate::dense_polynomial::interpolable;

verus! {

/// Whether a list of shares holds the points of a polynomial at one, two
/// and so on.
pub open spec fn shares_of(shares: Seq<(FieldElement, FieldElement)>, coeffs: Seq<int>) -> bool {
    forall|i: int|
        0 <= i < shares.len() ==> (#[trigger] shares[i]).0@ == i + 1 && shares[i].1@ == fred(
            poly_value(coeffs, i + 1),
        )
}

/// The polynomial with the secret as its constant and the given
/// coefficients after it.
pub fn polynomial_with(secret: FieldElement, coefficients: &Vec<FieldElement>) -> (r:
    DensePolynomial)
    ensures
        r.coefficients@ == trimmed(seq![secret] + coefficients@),
{
    let mut all: Vec<FieldElement> = Vec::with_capacity(coefficients.len());
    all.push(secret);
    let mut i: usize = 0;
    while i < coefficients.len()
        invariant
            i <= coefficients@.len(),
            all@ == seq![secret] + coefficients@.subrange(0, i as int),
        decreases coefficients@.len() - i,
    {
        all.push(coefficients[i]);
        proof {
            assert((seq![secret] + coefficients@.subrange(0, i as int)).push(
                coefficients@[i as int],
            ) =~= seq![secret] + coefficients@.subrange(0, i + 1));
        }
        i = i + 1;
    }
    proof {
        assert(coefficients@.subrange(0, coefficients@.len() as int) =~= coefficients@);
    }
    DensePolynomial::new(all)
}

/// A polynomial with the secret as its constant and `degree` coefficients
/// drawn at random after it.
pub fn create_polynomial(secret: FieldElement, degree: usize) -> (r: DensePolynomial)
    ensures
        exists|drawn: Seq<FieldElement>|
            drawn.len() == degree && r.coefficients@ == trimmed(seq![secret] + drawn),
{
    let mut coefficients: Vec<FieldElement> = Vec::with_capacity(degree);
    let mut i: usize = 0;
    while i < degree
        invariant
            i <= degree,
            coefficients@.len() == i,
        decreases degree - i,
    {
        coefficients.push(FieldElement::random());
        i = i + 1;
    }
    polynomial_with(secret, &coefficients)
}

/// The points of a polynomial at one, two and so on, up to `total_shares`.
pub fn shares_from(polynomial: &DensePolynomial, total_shares: usize) -> (r: Vec<
    (FieldElement, FieldElement),
>)
    requires
        total_shares <= u64::MAX,
    ensures
        r@.len() == total_shares,
        shares_of(r@, polynomial.values()),
{
    let mut shares: Vec<(FieldElement, FieldElement)> = Vec::with_capacity(total_shares);
    let mut i: usize = 0;
    while i < total_shares
        invariant
            i <= total_shares <= u64::MAX,
            shares@.len() == i,
            shares_of(shares@, polynomial.values()),
        decreases total_shares - i,
    {
        let x = FieldElement::from_u64((i + 1) as u64);
        let y = polynomial.evaluate(x);
        shares.push((x, y));
        i = i + 1;
    }
    shares
}

/// The shares of a secret: the points at one, two and so on of a
/// polynomial with the secret as its constant and `threshold - 1`
/// coefficients drawn at random after it.
pub fn split_secret(secret: FieldElement, total_shares: usize, threshold: usize) -> (r: Vec<
    (FieldElement, FieldElement),
>)
    requires
        threshold >= 1,
        total_shares <= u64::MAX,
    ensures
        r@.len() == total_shares,
        exists|drawn: Seq<FieldElement>|
            drawn.len() == threshold - 1 && shares_of(r@, values(trimmed(seq![secret] + drawn))),
{
    let polynomial = create_polynomial(secret, threshold - 1);
    shares_from(&polynomial, total_shares)
}

/// The secret that the first `threshold` shares give: the value at zero of
/// the polynomial through them.
pub fn recover_secret(shares: &[(FieldElement, FieldElement)], threshold: usize) -> (r:
    FieldElement)
    requires
        threshold <= shares@.len(),
        interpolable(abscissas(shares@.subrange(0, threshold as int))),
    ensures
        r@ == fred(
            poly_value(
                crate::dense_polynomial::interpolated(shares@.subrange(0, threshold as int)),
                0,
            ),
        ),
{
    let mut first: Vec<(FieldElement, FieldElement)> = Vec::with_capacity(threshold);
    let mut i: usize = 0;
    while i < threshold
        invariant
            i <= threshold <= shares@.len(),
            first@ == shares@.subrange(0, i as int),
        decreases threshold - i,
    {
        first.push(shares[i]);
        proof {
            assert(shares@.subrange(0, i as int).push(shares@[i as int]) =~= shares@.subrange(
                0,
                i + 1,
            ));
        }
        i = i + 1;
    }
    let polynomial = DensePolynomial::interpolate(first.as_slice());
    polynomial.evaluate(FieldElement::zero())
}

} // verus!
