//! Polynomials in one variable over the field, held as their coefficients,
//! the constant first; and the polynomial of least degree through given
//! points.

use vstd::prelude::*;
use crate::field::FieldElement;
use crate::field::fred;
use crate::field::modulus;
use crate::field::values;
use crate::field::reduced;
use crate::field::lemma_fred_basics;
use crate::field::lemma_add_congruent;
use crate::field::lemma_sub_congruent;
use crate::field::lemma_mul_congruent;
use crate::field::lemma_view_range;
use crate::field::power;
use crate::field::poly_sum;
use crate::field::poly_value;

verus! {

/// A list of coefficients without the zeros at its end, but for the last
/// coefficient that is left.
pub open spec fn trimmed(coeffs: Seq<FieldElement>) -> Seq<FieldElement>
    decreases coeffs.len(),
{
    if coeffs.len() > 1 && coeffs.last()@ == 0 {
        trimmed(coeffs.drop_last())
    } else {
        coeffs
    }
}

/// Whether `x` is the element of the field whose product with `a` is one.
pub open spec fn is_inverse(x: int, a: int) -> bool {
    0 <= x < modulus() && fred(x * a) == 1
}

/// A list of integers without the zeros at its end, but for the last entry
/// that is left.
pub open spec fn trimmed_values(vals: Seq<int>) -> Seq<int>
    decreases vals.len(),
{
    if vals.len() > 1 && vals.last() == 0 {
        trimmed_values(vals.drop_last())
    } else {
        vals
    }
}

/// The inverse of a nonzero element of the field.
pub open spec fn finv(a: int) -> int {
    choose|x: int| is_inverse(x, a)
}

/// The product of the differences between abscissa `i` and the abscissas
/// before `k`, but for itself.
pub open spec fn denominator(xs: Seq<int>, i: int, k: int) -> int
    decreases k,
{
    if k <= 0 {
        1
    } else if k - 1 == i {
        denominator(xs, i, k - 1)
    } else {
        denominator(xs, i, k - 1) * (xs[i] - xs[k - 1])
    }
}

/// The coefficients of a polynomial times `X - c`, cut to the same length.
pub open spec fn linear_term(current: Seq<int>, c: int) -> Seq<int> {
    Seq::new(
        current.len(),
        |t: int|
            if t > 0 {
                current[t - 1] - current[t] * c
            } else {
                0 - current[t] * c
            },
    )
}

/// The `n` lowest coefficients of the product of `X - xs[j]` over the `j`
/// before `k`, but for `i`.
pub open spec fn basis(xs: Seq<int>, i: int, k: int) -> Seq<int>
    decreases k,
{
    if k <= 0 {
        Seq::new(xs.len(), |t: int| if t == 0 { 1int } else { 0int })
    } else if k - 1 == i {
        basis(xs, i, k - 1)
    } else {
        linear_term(basis(xs, i, k - 1), xs[k - 1])
    }
}

/// The factor by which the basis polynomial of point `i` counts: the
/// ordinate divided by the denominator.
pub open spec fn weight(xs: Seq<int>, ys: Seq<int>, i: int) -> int {
    fred(ys[i] * finv(fred(denominator(xs, i, xs.len() as int))))
}

/// Coefficient `t` of the sum of the weighted basis polynomials of the
/// points before `m`.
pub open spec fn lagrange_coefficient(xs: Seq<int>, ys: Seq<int>, t: int, m: int) -> int
    decreases m,
{
    if m <= 0 {
        0
    } else {
        lagrange_coefficient(xs, ys, t, m - 1) + basis(xs, m - 1, xs.len() as int)[t] * weight(
            xs,
            ys,
            m - 1,
        )
    }
}

/// The coefficients of the polynomial of degree below the number of points
/// that passes through the points.
pub open spec fn lagrange(xs: Seq<int>, ys: Seq<int>) -> Seq<int> {
    Seq::new(xs.len(), |t: int| lagrange_coefficient(xs, ys, t, xs.len() as int))
}

/// The abscissas of a list of points.
pub open spec fn abscissas(points: Seq<(FieldElement, FieldElement)>) -> Seq<int> {
    Seq::new(points.len(), |i: int| points[i].0@)
}

/// The ordinates of a list of points.
pub open spec fn ordinates(points: Seq<(FieldElement, FieldElement)>) -> Seq<int> {
    Seq::new(points.len(), |i: int| points[i].1@)
}

/// The coefficients of the polynomial that `interpolate` gives for a list
/// of points: the polynomial through them without the zeros at its end, and
/// the zero polynomial through none.
pub open spec fn interpolated(points: Seq<(FieldElement, FieldElement)>) -> Seq<int> {
    if points.len() == 0 {
        seq![0int]
    } else {
        trimmed_values(reduced(lagrange(abscissas(points), ordinates(points))))
    }
}

/// Whether no abscissa has a denominator of zero, which is so where the
/// abscissas differ from each other.
pub open spec fn interpolable(xs: Seq<int>) -> bool {
    forall|i: int| 0 <= i < xs.len() ==> fred(#[trigger] denominator(xs, i, xs.len() as int)) != 0
}

/// A basis polynomial has as many coefficients as there are points.
pub proof fn lemma_basis_len(xs: Seq<int>, i: int, k: int)
    ensures
        basis(xs, i, k).len() == xs.len(),
    decreases k,
{
    if k > 0 {
        lemma_basis_len(xs, i, k - 1);
    }
}

/// An element of the field has at most one inverse.
pub proof fn lemma_inverse_unique(a: int, x: int, y: int)
    requires
        is_inverse(x, a),
        is_inverse(y, a),
    ensures
        x == y,
{
    lemma_fred_basics(1);
    lemma_fred_basics(x);
    lemma_fred_basics(y);
    lemma_mul_congruent(x, x, y * a, 1);
    lemma_mul_congruent(x * a, 1, y, y);
    assert(x * (y * a) == (x * a) * y) by (nonlinear_arith);
    assert(x * 1 == x);
    assert(1 * y == y);
}

/// Dropping the zeros at the end of a list of elements is dropping them
/// from the list of their integers.
pub proof fn lemma_trimmed_values(coeffs: Seq<FieldElement>)
    ensures
        values(trimmed(coeffs)) == trimmed_values(values(coeffs)),
    decreases coeffs.len(),
{
    if coeffs.len() > 1 && coeffs.last()@ == 0 {
        lemma_trimmed_values(coeffs.drop_last());
        assert(values(coeffs).drop_last() =~= values(coeffs.drop_last()));
    }
}

/// A polynomial over the field.
#[derive(Clone, Debug)]
pub struct DensePolynomial {
    pub coefficients: Vec<FieldElement>,
}

impl DensePolynomial {
    /// The coefficients as integers.
    pub open spec fn values(&self) -> Seq<int> {
        values(self.coefficients@)
    }

    /// The polynomial with the given coefficients, the constant first:
    /// zeros at the end are dropped, but for the last coefficient left.
    pub fn new(coefficients: Vec<FieldElement>) -> (r: DensePolynomial)
        ensures
            r.coefficients@ == trimmed(coefficients@),
            r.values() == trimmed_values(values(coefficients@)),
    {
        proof {
            lemma_trimmed_values(coefficients@);
        }
        let mut coeffs = coefficients;
        while coeffs.len() > 1 && coeffs[coeffs.len() - 1].is_zero()
            invariant
                trimmed(coeffs@) == trimmed(coefficients@),
            decreases coeffs@.len(),
        {
            let ghost before = coeffs@;
            coeffs.pop();
            proof {
                assert(coeffs@ =~= before.drop_last());
            }
        }
        DensePolynomial { coefficients: coeffs }
    }

    /// The value of the polynomial at `x`.
    pub fn evaluate(&self, x: FieldElement) -> (r: FieldElement)
        ensures
            r@ == fred(poly_value(self.values(), x@)),
    {
        let ghost vals = self.values();
        let mut sum = FieldElement::zero();
        let mut pw = FieldElement::one();
        let mut i: usize = 0;
        proof {
            lemma_fred_basics(0);
            lemma_fred_basics(1);
        }
        while i < self.coefficients.len()
            invariant
                i <= self.coefficients@.len(),
                vals == self.values(),
                sum@ == fred(poly_sum(vals, x@, i as int)),
                pw@ == fred(power(x@, i as nat)),
            decreases self.coefficients@.len() - i,
        {
            let term = self.coefficients[i].mul(&pw);
            let ghost before = sum@;
            let ghost pw_before = pw@;
            sum = sum.add(&term);
            pw = pw.mul(&x);
            proof {
                let c = vals[i as int];
                let p = power(x@, i as nat);
                lemma_fred_basics(p);
                lemma_fred_basics(c * p);
                lemma_mul_congruent(c, c, pw_before, p);
                lemma_add_congruent(before, poly_sum(vals, x@, i as int), term@, c * p);
                lemma_mul_congruent(pw_before, p, x@, x@);
                assert(power(x@, (i + 1) as nat) == x@ * p);
                assert(p * x@ == x@ * p) by (nonlinear_arith);
            }
            i = i + 1;
        }
        sum
    }

    /// The degree: one less than the number of coefficients.
    pub fn degree(&self) -> (r: usize)
        ensures
            r == if self.coefficients@.len() == 0 {
                0
            } else {
                self.coefficients@.len() - 1
            },
    {
        if self.coefficients.len() == 0 {
            0
        } else {
            self.coefficients.len() - 1
        }
    }

    /// The denominator of the basis polynomial of point `i`: the product of
    /// the differences between its abscissa and the others.
    pub fn compute_lagrange_denominator(
        x_i: FieldElement,
        points: &[(FieldElement, FieldElement)],
        i: usize,
    ) -> (r: FieldElement)
        requires
            i < points@.len(),
            x_i == points@[i as int].0,
        ensures
            r@ == fred(denominator(abscissas(points@), i as int, points@.len() as int)),
    {
        let ghost xs = abscissas(points@);
        let mut product = FieldElement::one();
        let mut j: usize = 0;
        proof {
            lemma_fred_basics(1);
        }
        while j < points.len()
            invariant
                j <= points@.len(),
                i < points@.len(),
                x_i == points@[i as int].0,
                xs == abscissas(points@),
                product@ == fred(denominator(xs, i as int, j as int)),
            decreases points@.len() - j,
        {
            if j != i {
                let x_j = points[j].0;
                let diff = x_i.sub(&x_j);
                let ghost before = product@;
                product = product.mul(&diff);
                proof {
                    let d = denominator(xs, i as int, j as int);
                    lemma_fred_basics(xs[i as int] - xs[j as int]);
                    lemma_mul_congruent(before, d, diff@, xs[i as int] - xs[j as int]);
                }
            }
            j = j + 1;
        }
        product
    }

    /// The coefficients of a polynomial times `X - x_j`, cut to the same
    /// length.
    pub fn compute_linear_term(x_j: FieldElement, current: &[FieldElement]) -> (r: Vec<
        FieldElement,
    >)
        ensures
            values(r@) == reduced(linear_term(values(current@), x_j@)),
    {
        let n = current.len();
        let mut new_term: Vec<FieldElement> = Vec::with_capacity(n);
        let mut k: usize = 0;
        while k < n
            invariant
                k <= n,
                n == current@.len(),
                new_term@.len() == k,
                forall|t: int|
                    0 <= t < k ==> (#[trigger] new_term@[t])@ == fred(
                        linear_term(values(current@), x_j@)[t],
                    ),
            decreases n - k,
        {
            let mut entry = FieldElement::zero();
            if k > 0 {
                entry = entry.add(&current[k - 1]);
            }
            let scaled = current[k].mul(&x_j);
            let ghost shifted = entry@;
            entry = entry.sub(&scaled);
            proof {
                let cur = values(current@);
                lemma_fred_basics(cur[k as int] * x_j@);
                if k > 0 {
                    lemma_view_range(current@[k - 1]);
                    lemma_fred_basics(cur[k - 1]);
                    lemma_sub_congruent(shifted, cur[k - 1], scaled@, cur[k as int] * x_j@);
                } else {
                    lemma_sub_congruent(shifted, 0, scaled@, cur[k as int] * x_j@);
                }
            }
            new_term.push(entry);
            k = k + 1;
        }
        proof {
            assert(values(new_term@) =~= reduced(linear_term(values(current@), x_j@)));
        }
        new_term
    }

    /// The basis polynomial of point `i` before it is divided by its
    /// denominator: the product of `X - x_j` over the other points.
    pub fn compute_lagrange_basis(i: usize, points: &[(FieldElement, FieldElement)]) -> (r: Vec<
        FieldElement,
    >)
        ensures
            r@.len() == points@.len(),
            values(r@) == reduced(basis(abscissas(points@), i as int, points@.len() as int)),
    {
        let n = points.len();
        let ghost xs = abscissas(points@);
        let mut current: Vec<FieldElement> = Vec::with_capacity(n);
        let mut t: usize = 0;
        while t < n
            invariant
                t <= n,
                current@.len() == t,
                forall|s: int|
                    0 <= s < t ==> (#[trigger] current@[s])@ == (if s == 0 {
                        1int
                    } else {
                        0int
                    }),
            decreases n - t,
        {
            if t == 0 {
                current.push(FieldElement::one());
            } else {
                current.push(FieldElement::zero());
            }
            t = t + 1;
        }
        proof {
            assert forall|s: int| 0 <= s < n implies values(current@)[s] == reduced(
                basis(xs, i as int, 0),
            )[s] by {
                lemma_fred_basics(0);
                lemma_fred_basics(1);
            }
            assert(values(current@) =~= reduced(basis(xs, i as int, 0)));
        }
        let mut j: usize = 0;
        while j < n
            invariant
                j <= n,
                n == points@.len(),
                xs == abscissas(points@),
                current@.len() == n,
                values(current@) == reduced(basis(xs, i as int, j as int)),
            decreases n - j,
        {
            if i != j {
                let x_j = points[j].0;
                let ghost before = values(current@);
                current = Self::compute_linear_term(x_j, current.as_slice());
                proof {
                    lemma_basis_len(xs, i as int, j as int);
                    lemma_basis_len(xs, i as int, j + 1);
                    let exact = basis(xs, i as int, j as int);
                    let target = reduced(basis(xs, i as int, j + 1));
                    assert forall|s: int| 0 <= s < n implies values(current@)[s] == target[s] by {
                        assert(values(current@)[s] == fred(linear_term(before, x_j@)[s]));
                        lemma_fred_basics(exact[s]);
                        lemma_mul_congruent(before[s], exact[s], x_j@, x_j@);
                        if s > 0 {
                            lemma_fred_basics(exact[s - 1]);
                            lemma_sub_congruent(
                                before[s - 1],
                                exact[s - 1],
                                before[s] * x_j@,
                                exact[s] * x_j@,
                            );
                        } else {
                            lemma_sub_congruent(0, 0, before[s] * x_j@, exact[s] * x_j@);
                        }
                    }
                    assert(values(current@) =~= target);
                }
            }
            j = j + 1;
        }
        current
    }

    /// Whether no point has a denominator of zero, so that a polynomial
    /// passes through the points.
    pub fn is_interpolable(points: &[(FieldElement, FieldElement)]) -> (r: bool)
        ensures
            r == interpolable(abscissas(points@)),
    {
        let ghost xs = abscissas(points@);
        let mut i: usize = 0;
        while i < points.len()
            invariant
                i <= points@.len(),
                xs == abscissas(points@),
                forall|t: int|
                    0 <= t < i ==> fred(#[trigger] denominator(xs, t, xs.len() as int)) != 0,
            decreases points@.len() - i,
        {
            let den = Self::compute_lagrange_denominator(points[i].0, points, i);
            if den.is_zero() {
                proof {
                    assert(fred(denominator(xs, i as int, xs.len() as int)) == 0);
                }
                return false;
            }
            i = i + 1;
        }
        true
    }

    /// The polynomial of degree below the number of points that passes
    /// through the points, whose abscissas differ from each other: the sum
    /// of the basis polynomials, each times its ordinate and divided by its
    /// denominator. Through no points passes the zero polynomial.
    pub fn interpolate(points: &[(FieldElement, FieldElement)]) -> (r: DensePolynomial)
        requires
            interpolable(abscissas(points@)),
        ensures
            r.values() == interpolated(points@),
            forall|j: int|
                0 <= j < points@.len() ==> fred(
                    poly_value(r.values(), #[trigger] abscissas(points@)[j]),
                ) == ordinates(points@)[j],
    {
        if points.len() == 0 {
            let mut zero: Vec<FieldElement> = Vec::new();
            zero.push(FieldElement::zero());
            let p = DensePolynomial::new(zero);
            proof {
                assert(p.values() =~= seq![0int]);
            }
            return p;
        }
        let n = points.len();
        let ghost xs = abscissas(points@);
        let ghost ys = ordinates(points@);
        let mut result: Vec<FieldElement> = Vec::with_capacity(n);
        let mut t: usize = 0;
        while t < n
            invariant
                t <= n,
                result@.len() == t,
                forall|s: int| 0 <= s < t ==> (#[trigger] result@[s])@ == 0,
            decreases n - t,
        {
            result.push(FieldElement::zero());
            t = t + 1;
        }
        proof {
            lemma_fred_basics(0);
        }
        let mut i: usize = 0;
        while i < n
            invariant
                i <= n,
                n == points@.len(),
                xs == abscissas(points@),
                ys == ordinates(points@),
                interpolable(xs),
                result@.len() == n,
                forall|s: int|
                    0 <= s < n ==> (#[trigger] result@[s])@ == fred(
                        lagrange_coefficient(xs, ys, s, i as int),
                    ),
                forall|t: int|
                    0 <= t < i ==> is_inverse(
                        finv(fred(#[trigger] denominator(xs, t, n as int))),
                        fred(denominator(xs, t, n as int)),
                    ),
            decreases n - i,
        {
            let (x_i, y_i) = points[i];
            let den = Self::compute_lagrange_denominator(x_i, points, i);
            assert(fred(denominator(xs, i as int, xs.len() as int)) != 0);
            let inverse = den.inverse().unwrap();
            let term = y_i.mul(&inverse);
            proof {
                lemma_view_range(inverse);
                assert(is_inverse(inverse@, den@));
                lemma_inverse_unique(den@, inverse@, finv(den@));
                assert(term@ == weight(xs, ys, i as int));
            }
            let basis_i = Self::compute_lagrange_basis(i, points);
            let mut k: usize = 0;
            while k < n
                invariant
                    k <= n,
                    i < n,
                    n == points@.len(),
                    result@.len() == n,
                    basis_i@.len() == n,
                    term@ == weight(xs, ys, i as int),
                    values(basis_i@) == reduced(basis(xs, i as int, n as int)),
                    xs.len() == n,
                    forall|s: int|
                        k <= s < n ==> (#[trigger] result@[s])@ == fred(
                            lagrange_coefficient(xs, ys, s, i as int),
                        ),
                    forall|s: int|
                        0 <= s < k ==> (#[trigger] result@[s])@ == fred(
                            lagrange_coefficient(xs, ys, s, i + 1),
                        ),
                decreases n - k,
            {
                let scaled = basis_i[k].mul(&term);
                let ghost before = result@[k as int]@;
                let updated = result[k].add(&scaled);
                result.set(k, updated);
                proof {
                    lemma_basis_len(xs, i as int, n as int);
                    let b = basis(xs, i as int, n as int)[k as int];
                    assert(values(basis_i@)[k as int] == fred(b));
                    lemma_fred_basics(b);
                    lemma_fred_basics(b * term@);
                    lemma_mul_congruent(basis_i@[k as int]@, b, term@, term@);
                    lemma_add_congruent(
                        before,
                        lagrange_coefficient(xs, ys, k as int, i as int),
                        scaled@,
                        b * term@,
                    );
                }
                k = k + 1;
            }
            i = i + 1;
        }
        proof {
            assert(values(result@) =~= reduced(lagrange(xs, ys)));
            assert forall|j: int| 0 <= j < n implies fred(
                poly_value(
                    trimmed_values(reduced(lagrange(xs, ys))),
                    #[trigger] abscissas(points@)[j],
                ),
            ) == ordinates(points@)[j] by {
                assert(is_inverse(
                    finv(fred(denominator(xs, j, n as int))),
                    fred(denominator(xs, j, n as int)),
                ));
                crate::dense_polynomial_laws::lemma_lagrange_passes_through(xs, ys, j);
                lemma_view_range(points@[j].1);
                lemma_fred_basics(ys[j]);
            }
        }
        DensePolynomial::new(result)
    }
}

} // verus!
