//! What holds of the polynomial through given points: it takes at each
//! abscissa the ordinate that stands with it.

use vstd::prelude::*;
use crate::field::fred;
use crate::field::reduced;
use crate::field::power;
use crate::field::poly_sum;
use crate::field::poly_value;
use crate::field::lemma_fred_basics;
use crate::field::lemma_add_congruent;
use crate::field::lemma_mul_congruent;
use crate::dense_polynomial::trimmed_values;
use crate::dense_polynomial::basis;
use crate::dense_polynomial::denominator;
use crate::dense_polynomial::linear_term;
use crate::dense_polynomial::weight;
use crate::dense_polynomial::finv;
use crate::dense_polynomial::is_inverse;
use crate::dense_polynomial::lagrange;
use crate::dense_polynomial::lagrange_coefficient;
use crate::dense_polynomial::lemma_basis_len;

verus! {

/// The sum of the first `k` terms of a polynomial depends on its first `k`
/// coefficients only.
pub proof fn lemma_poly_sum_prefix(a: Seq<int>, b: Seq<int>, x: int, k: int)
    requires
        0 <= k <= a.len(),
        k <= b.len(),
        forall|i: int| 0 <= i < k ==> a[i] == b[i],
    ensures
        poly_sum(a, x, k) == poly_sum(b, x, k),
    decreases k,
{
    if k > 0 {
        lemma_poly_sum_prefix(a, b, x, k - 1);
    }
}

/// Zeros at the end of its coefficients do not change the value of a
/// polynomial.
pub proof fn lemma_poly_value_trimmed(vals: Seq<int>, x: int)
    ensures
        poly_value(trimmed_values(vals), x) == poly_value(vals, x),
    decreases vals.len(),
{
    if vals.len() > 1 && vals.last() == 0 {
        lemma_poly_value_trimmed(vals.drop_last(), x);
        lemma_poly_sum_prefix(vals, vals.drop_last(), x, vals.len() - 1);
        assert(0 * power(x, (vals.len() - 1) as nat) == 0);
    }
}

/// Polynomials whose coefficients agree modulo the field order have sums of
/// terms that agree modulo the field order.
pub proof fn lemma_poly_sum_congruent(a: Seq<int>, b: Seq<int>, x: int, k: int)
    requires
        a.len() == b.len(),
        0 <= k <= a.len(),
        forall|i: int| 0 <= i < a.len() ==> fred(#[trigger] a[i]) == fred(b[i]),
    ensures
        fred(poly_sum(a, x, k)) == fred(poly_sum(b, x, k)),
    decreases k,
{
    if k > 0 {
        lemma_poly_sum_congruent(a, b, x, k - 1);
        let p = power(x, (k - 1) as nat);
        assert(fred(a[k - 1]) == fred(b[k - 1]));
        lemma_mul_congruent(a[k - 1], b[k - 1], p, p);
        lemma_add_congruent(
            poly_sum(a, x, k - 1),
            poly_sum(b, x, k - 1),
            a[k - 1] * p,
            b[k - 1] * p,
        );
    }
}

/// The product of the differences between `x` and the abscissas before
/// `k`, but for abscissa `i`.
pub open spec fn numerator(xs: Seq<int>, i: int, x: int, k: int) -> int
    decreases k,
{
    if k <= 0 {
        1
    } else if k - 1 == i {
        numerator(xs, i, x, k - 1)
    } else {
        numerator(xs, i, x, k - 1) * (x - xs[k - 1])
    }
}

/// Whether the coefficients of a polynomial are zero from place `d` on.
pub open spec fn zero_from(coeffs: Seq<int>, d: int) -> bool {
    forall|t: int| d <= t < coeffs.len() ==> #[trigger] coeffs[t] == 0
}

proof fn lemma_linear_term_sum(current: Seq<int>, c: int, x: int, k: int)
    requires
        1 <= k <= current.len(),
    ensures
        poly_sum(linear_term(current, c), x, k) == x * poly_sum(current, x, k - 1) - c * poly_sum(
            current,
            x,
            k,
        ),
    decreases k,
{
    let product = linear_term(current, c);
    if k == 1 {
        assert(poly_sum(product, x, 0) == 0);
        assert(poly_sum(current, x, 0) == 0);
        assert(power(x, 0) == 1);
        assert(product[0] == 0 - current[0] * c);
        assert(x * 0 - c * (0 + current[0] * 1) == (0 - current[0] * c) * 1) by (nonlinear_arith);
    } else {
        lemma_linear_term_sum(current, c, x, k - 1);
        let p = power(x, (k - 1) as nat);
        let q = power(x, (k - 2) as nat);
        assert(p == x * q);
        let s1 = poly_sum(current, x, k - 1);
        let s2 = poly_sum(current, x, k - 2);
        let a = current[k - 2];
        let b = current[k - 1];
        assert(product[k - 1] == a - b * c);
        assert(s1 == s2 + a * q);
        let aq = a * q;
        let bp = b * p;
        assert(a * p == x * aq) by (nonlinear_arith)
            requires
                p == x * q,
                aq == a * q,
        ;
        assert(x * s1 == x * s2 + x * aq) by (nonlinear_arith)
            requires
                s1 == s2 + aq,
        ;
        assert((a - b * c) * p == a * p - c * bp) by (nonlinear_arith)
            requires
                bp == b * p,
        ;
        assert(c * (s1 + bp) == c * s1 + c * bp) by (nonlinear_arith);
    }
}

/// A polynomial times `X - c`, cut to the same length, has the value of
/// the polynomial times `x - c`, where the last coefficient of the
/// polynomial is zero.
pub proof fn lemma_linear_term_value(current: Seq<int>, c: int, x: int)
    requires
        current.len() >= 1,
        current.last() == 0,
    ensures
        poly_value(linear_term(current, c), x) == (x - c) * poly_value(current, x),
{
    let n = current.len() as int;
    lemma_linear_term_sum(current, c, x, n);
    let s = poly_sum(current, x, n - 1);
    assert(poly_sum(current, x, n) == s + 0 * power(x, (n - 1) as nat));
    assert(0 * power(x, (n - 1) as nat) == 0);
    assert(x * s - c * s == (x - c) * s) by (nonlinear_arith);
}

/// A basis polynomial before it is divided has as its value the product of
/// the differences between `x` and the other abscissas.
pub proof fn lemma_basis_value(xs: Seq<int>, i: int, x: int, k: int)
    requires
        0 <= i < xs.len(),
        0 <= k <= xs.len(),
    ensures
        poly_value(basis(xs, i, k), x) == numerator(xs, i, x, k),
        zero_from(basis(xs, i, k), if k > i {
            k
        } else {
            k + 1
        }),
    decreases k,
{
    let n = xs.len() as int;
    lemma_basis_len(xs, i, k);
    if k == 0 {
        let start = basis(xs, i, 0);
        assert(poly_sum(start, x, 1) == 1) by {
            assert(poly_sum(start, x, 0) == 0);
            assert(power(x, 0) == 1);
            assert(start[0] * 1 == 1);
        }
        lemma_poly_sum_zeros(start, x, 1, n);
    } else {
        lemma_basis_value(xs, i, x, k - 1);
        lemma_basis_len(xs, i, k - 1);
        if k - 1 != i {
            let before = basis(xs, i, k - 1);
            let d = if k - 1 > i {
                k - 1
            } else {
                k
            };
            assert(d <= n - 1);
            assert(before.last() == 0);
            lemma_linear_term_value(before, xs[k - 1], x);
            assert((x - xs[k - 1]) * numerator(xs, i, x, k - 1) == numerator(xs, i, x, k - 1) * (x
                - xs[k - 1])) by (nonlinear_arith);
            let after = basis(xs, i, k);
            assert forall|t: int| d + 1 <= t < after.len() implies #[trigger] after[t] == 0 by {
                assert(before[t - 1] == 0);
                assert(before[t] == 0);
                assert(0 * xs[k - 1] == 0);
            }
        }
    }
}

proof fn lemma_poly_sum_zeros(coeffs: Seq<int>, x: int, d: int, k: int)
    requires
        0 <= d <= k <= coeffs.len(),
        zero_from(coeffs, d),
    ensures
        poly_sum(coeffs, x, k) == poly_sum(coeffs, x, d),
    decreases k,
{
    if k > d {
        lemma_poly_sum_zeros(coeffs, x, d, k - 1);
        assert(coeffs[k - 1] == 0);
        assert(0 * power(x, (k - 1) as nat) == 0);
    }
}

/// At its own abscissa the product of the differences is the denominator of
/// a point, and at another abscissa it is zero.
pub proof fn lemma_numerator_at_abscissa(xs: Seq<int>, i: int, j: int, k: int)
    requires
        0 <= i < xs.len(),
        0 <= j < xs.len(),
        0 <= k <= xs.len(),
    ensures
        j == i ==> numerator(xs, i, xs[j], k) == denominator(xs, i, k),
        j != i && j < k ==> numerator(xs, i, xs[j], k) == 0,
    decreases k,
{
    if k > 0 {
        lemma_numerator_at_abscissa(xs, i, j, k - 1);
        if j != i && j < k && k - 1 != i {
            let before = numerator(xs, i, xs[j], k - 1);
            if j == k - 1 {
                assert(before * (xs[j] - xs[k - 1]) == 0) by (nonlinear_arith)
                    requires
                        xs[j] - xs[k - 1] == 0,
                ;
            } else {
                assert(before * (xs[j] - xs[k - 1]) == 0) by (nonlinear_arith)
                    requires
                        before == 0,
                ;
            }
        }
    }
}

/// The sum of the first `m` basis polynomials, each times its weight, has
/// as its value the sum of their values, each times its weight.
proof fn lemma_lagrange_sum(xs: Seq<int>, ys: Seq<int>, x: int, m: int, k: int)
    requires
        0 <= m <= xs.len(),
        0 <= k <= xs.len(),
        ys.len() == xs.len(),
    ensures
        poly_sum(Seq::new(xs.len(), |t: int| lagrange_coefficient(xs, ys, t, m)), x, k)
            == weighted_values(xs, ys, x, m, k),
    decreases m, k,
{
    let n = xs.len();
    let here = Seq::new(n, |t: int| lagrange_coefficient(xs, ys, t, m));
    if k > 0 {
        lemma_lagrange_sum(xs, ys, x, m, k - 1);
        if m > 0 {
            let before = Seq::new(n, |t: int| lagrange_coefficient(xs, ys, t, m - 1));
            lemma_lagrange_sum(xs, ys, x, (m - 1) as int, k);
            lemma_lagrange_sum(xs, ys, x, (m - 1) as int, k - 1);
            lemma_basis_len(xs, m - 1, n as int);
            let b = basis(xs, m - 1, n as int);
            let w = weight(xs, ys, m - 1);
            let p = power(x, (k - 1) as nat);
            assert(here[k - 1] == before[k - 1] + b[k - 1] * w);
            assert((before[k - 1] + b[k - 1] * w) * p == before[k - 1] * p + w * (b[k - 1] * p))
                by (nonlinear_arith);
            let s = poly_sum(b, x, k - 1);
            assert(w * (s + b[k - 1] * p) == w * s + w * (b[k - 1] * p)) by (nonlinear_arith);
        } else {
            assert(here[k - 1] == 0);
            assert(0 * power(x, (k - 1) as nat) == 0);
        }
    } else if m > 0 {
        lemma_lagrange_sum(xs, ys, x, (m - 1) as int, k);
        assert(weight(xs, ys, m - 1) * 0 == 0);
    }
}

/// The sum over the first `m` points of the first `k` terms of the basis
/// polynomial of the point at `x`, times the weight of the point.
pub open spec fn weighted_values(xs: Seq<int>, ys: Seq<int>, x: int, m: int, k: int) -> int
    decreases m,
{
    if m <= 0 {
        0
    } else {
        weighted_values(xs, ys, x, m - 1, k) + weight(xs, ys, m - 1) * poly_sum(
            basis(xs, m - 1, xs.len() as int),
            x,
            k,
        )
    }
}

/// At abscissa `j` only the basis polynomial of point `j` counts among the
/// first `m`.
proof fn lemma_weighted_at_abscissa(xs: Seq<int>, ys: Seq<int>, j: int, m: int)
    requires
        0 <= j < xs.len(),
        0 <= m <= xs.len(),
        ys.len() == xs.len(),
    ensures
        weighted_values(xs, ys, xs[j], m, xs.len() as int) == if j < m {
            weight(xs, ys, j) * denominator(xs, j, xs.len() as int)
        } else {
            0
        },
    decreases m,
{
    let n = xs.len() as int;
    if m > 0 {
        lemma_weighted_at_abscissa(xs, ys, j, m - 1);
        lemma_basis_value(xs, m - 1, xs[j], n);
        lemma_basis_len(xs, m - 1, n);
        lemma_numerator_at_abscissa(xs, m - 1, j, n);
        if j != m - 1 {
            assert(weight(xs, ys, m - 1) * 0 == 0);
        }
    }
}

/// The polynomial through the points takes at an abscissa the ordinate
/// that stands with it, modulo the field order, where the denominator of the
/// point has an inverse in the field.
pub proof fn lemma_lagrange_passes_through(xs: Seq<int>, ys: Seq<int>, j: int)
    requires
        ys.len() == xs.len(),
        0 <= j < xs.len(),
        exists|inverse: int| is_inverse(inverse, fred(denominator(xs, j, xs.len() as int))),
    ensures
        fred(poly_value(lagrange(xs, ys), xs[j])) == fred(ys[j]),
        fred(poly_value(trimmed_values(reduced(lagrange(xs, ys))), xs[j])) == fred(ys[j]),
{
    let n = xs.len() as int;
    let c = lagrange(xs, ys);
    lemma_lagrange_sum(xs, ys, xs[j], n, n);
    assert(c =~= Seq::new(xs.len(), |t: int| lagrange_coefficient(xs, ys, t, n)));
    lemma_weighted_at_abscissa(xs, ys, j, n);
    let den = denominator(xs, j, n);
    let w = weight(xs, ys, j);
    assert(poly_value(c, xs[j]) == w * den);
    // The weight is the ordinate divided by the denominator.
    lemma_fred_basics(den);
    let inverse = finv(fred(den));
    assert(is_inverse(inverse, fred(den)));
    lemma_fred_basics(ys[j] * inverse);
    lemma_mul_congruent(w, ys[j] * inverse, den, fred(den));
    assert((ys[j] * inverse) * fred(den) == ys[j] * (inverse * fred(den))) by (nonlinear_arith);
    lemma_fred_basics(1);
    lemma_mul_congruent(ys[j], ys[j], inverse * fred(den), 1);
    assert(ys[j] * 1 == ys[j]);
    // Reducing the coefficients and dropping zeros keeps the value.
    lemma_poly_value_trimmed(reduced(c), xs[j]);
    assert forall|i: int| 0 <= i < c.len() implies fred(#[trigger] reduced(c)[i]) == fred(
        c[i],
    ) by {
        lemma_fred_basics(c[i]);
    }
    lemma_poly_sum_congruent(reduced(c), c, xs[j], n);
}

} // verus!
