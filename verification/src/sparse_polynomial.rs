//! Polynomials in one variable over the machine integers, held as their
//! nonzero terms.

use vstd::prelude::*;
use crate::field::power;

verus! {

/// The greatest exponent among the first `k` terms.
pub open spec fn max_exponent(terms: Seq<(u32, u32)>, k: int) -> int
    decreases k,
{
    if k <= 0 {
        0
    } else if terms[k - 1].1 > max_exponent(terms, k - 1) {
        terms[k - 1].1 as int
    } else {
        max_exponent(terms, k - 1)
    }
}

/// The sum of the first `k` terms at `x`, each a coefficient times a power
/// of `x`.
pub open spec fn terms_value(terms: Seq<(u32, u32)>, x: int, k: int) -> int
    decreases k,
{
    if k <= 0 {
        0
    } else {
        terms_value(terms, x, k - 1) + terms[k - 1].0 * power(x, terms[k - 1].1 as nat)
    }
}

/// A polynomial as a list of terms, each a coefficient and an exponent.
pub struct SparsePolynomial {
    pub coefficients: Vec<(u32, u32)>,
    pub degree: u32,
}

proof fn lemma_power_nonnegative(b: int, e: nat)
    requires
        b >= 0,
    ensures
        power(b, e) >= 0,
        b >= 1 ==> power(b, e) >= 1,
    decreases e,
{
    if e > 0 {
        lemma_power_nonnegative(b, (e - 1) as nat);
        assert(b * power(b, (e - 1) as nat) >= 0) by (nonlinear_arith)
            requires
                b >= 0,
                power(b, (e - 1) as nat) >= 0,
        ;
        if b >= 1 {
            assert(b * power(b, (e - 1) as nat) >= 1) by (nonlinear_arith)
                requires
                    b >= 1,
                    power(b, (e - 1) as nat) >= 1,
            ;
        }
    }
}

proof fn lemma_power_monotonic(b: int, e1: nat, e2: nat)
    requires
        b >= 1,
        e1 <= e2,
    ensures
        power(b, e1) <= power(b, e2),
    decreases e2,
{
    if e1 < e2 {
        lemma_power_monotonic(b, e1, (e2 - 1) as nat);
        lemma_power_nonnegative(b, (e2 - 1) as nat);
        assert(b * power(b, (e2 - 1) as nat) >= power(b, (e2 - 1) as nat)) by (nonlinear_arith)
            requires
                b >= 1,
                power(b, (e2 - 1) as nat) >= 0,
        ;
    }
}

proof fn lemma_terms_value_monotonic(terms: Seq<(u32, u32)>, x: int, j: int, k: int)
    requires
        x >= 0,
        0 <= j <= k,
    ensures
        0 <= terms_value(terms, x, j) <= terms_value(terms, x, k),
    decreases k,
{
    if j < k {
        lemma_terms_value_monotonic(terms, x, j, k - 1);
        lemma_power_nonnegative(x, terms[k - 1].1 as nat);
        assert(terms[k - 1].0 * power(x, terms[k - 1].1 as nat) >= 0) by (nonlinear_arith)
            requires
                terms[k - 1].0 >= 0,
                power(x, terms[k - 1].1 as nat) >= 0,
        ;
    } else if j > 0 {
        lemma_terms_value_monotonic(terms, x, j - 1, j - 1);
        lemma_power_nonnegative(x, terms[j - 1].1 as nat);
        assert(terms[j - 1].0 * power(x, terms[j - 1].1 as nat) >= 0) by (nonlinear_arith)
            requires
                terms[j - 1].0 >= 0,
                power(x, terms[j - 1].1 as nat) >= 0,
        ;
    }
}

/// `x` to the power `d`, where it fits.
pub fn pow_u32(x: u32, d: u32) -> (r: u32)
    requires
        power(x as int, d as nat) <= u32::MAX,
    ensures
        r == power(x as int, d as nat),
{
    if x == 0 {
        if d == 0 {
            return 1;
        }
        assert(power(0, d as nat) == 0 * power(0, (d - 1) as nat));
        return 0;
    }
    let mut acc: u32 = 1;
    let mut t: u32 = 0;
    while t < d
        invariant
            t <= d,
            x >= 1,
            acc == power(x as int, t as nat),
            power(x as int, d as nat) <= u32::MAX,
        decreases d - t,
    {
        proof {
            lemma_power_monotonic(x as int, (t + 1) as nat, d as nat);
            assert(power(x as int, (t + 1) as nat) == x * power(x as int, t as nat));
            assert(x * acc == acc * x) by (nonlinear_arith);
        }
        acc = acc * x;
        t = t + 1;
    }
    acc
}

impl SparsePolynomial {
    /// The polynomial with the given terms, of which there is at least one.
    pub fn new(coefficients: Vec<(u32, u32)>) -> (r: SparsePolynomial)
        requires
            coefficients@.len() > 0,
        ensures
            r.coefficients == coefficients,
            r.degree == max_exponent(coefficients@, coefficients@.len() as int),
    {
        let mut degree: u32 = 0;
        let mut k: usize = 0;
        while k < coefficients.len()
            invariant
                k <= coefficients@.len(),
                degree == max_exponent(coefficients@, k as int),
            decreases coefficients@.len() - k,
        {
            if coefficients[k].1 > degree {
                degree = coefficients[k].1;
            }
            k = k + 1;
        }
        SparsePolynomial { coefficients, degree }
    }

    /// The greatest exponent of the polynomial.
    pub fn degree(&self) -> (r: u32)
        ensures
            r == self.degree,
    {
        self.degree
    }

    /// The value of the polynomial at `x`, where every power of `x` and the
    /// sum of the terms fit a machine integer.
    pub fn evaluate(&self, x: u32) -> (r: u32)
        requires
            forall|k: int|
                0 <= k < self.coefficients@.len() ==> power(
                    x as int,
                    (#[trigger] self.coefficients@[k]).1 as nat,
                ) <= u32::MAX,
            terms_value(self.coefficients@, x as int, self.coefficients@.len() as int)
                <= u32::MAX,
        ensures
            r == terms_value(self.coefficients@, x as int, self.coefficients@.len() as int),
    {
        let ghost terms = self.coefficients@;
        let mut result: u32 = 0;
        let mut k: usize = 0;
        while k < self.coefficients.len()
            invariant
                k <= self.coefficients@.len(),
                terms == self.coefficients@,
                result == terms_value(terms, x as int, k as int),
                terms_value(terms, x as int, terms.len() as int) <= u32::MAX,
                forall|j: int|
                    0 <= j < terms.len() ==> power(x as int, (#[trigger] terms[j]).1 as nat)
                        <= u32::MAX,
            decreases self.coefficients@.len() - k,
        {
            let (c, d) = self.coefficients[k];
            assert(power(x as int, terms[k as int].1 as nat) <= u32::MAX);
            let p = pow_u32(x, d);
            proof {
                lemma_terms_value_monotonic(terms, x as int, k + 1, terms.len() as int);
                lemma_terms_value_monotonic(terms, x as int, k as int, k as int);
                lemma_power_nonnegative(x as int, d as nat);
                assert(c * p >= 0) by (nonlinear_arith)
                    requires
                        c >= 0,
                        p >= 0,
                ;
            }
            result = result + c * p;
            k = k + 1;
        }
        result
    }
}

} // verus!
