//! Multilinear extensions: polynomials in `n` variables, of degree at most one
//! in each, held as their `2^n` values on the boolean hypercube.
//!
//! Bit `j` of an index selects variable `j`: `evaluate` reads coordinate `j`
//! of a point on bit `j`, and `partial_evaluate` sets the variable on bit
//! `var_idx`. `evaluate_partial` and `solve` take the variables one after
//! the other from the leading one, which stands on the highest bit, and the
//! blow-ups are named after that order: entry `j` of their points stands at
//! bit `n - 1 - j`. A point read in one order is the reversed point read in
//! the other.

use vstd::prelude::*;
use crate::field::FieldElement;
use crate::field::fred;
use crate::field::values;
use crate::field::reduced;
use crate::field::lemma_fred_basics;
use crate::field::lemma_add_congruent;
use crate::field::lemma_mul_congruent;
use crate::field::lemma_view_range;
use crate::powers::two_pow;
use crate::powers::log2_floor;
use crate::powers::is_power_of_two;
use crate::powers::lemma_two_pow_positive;
use crate::powers::lemma_power_of_two_halves;
use crate::powers::lemma_log2_of_two_pow;
use crate::powers::lemma_two_pow_adds;
use crate::powers::lemma_two_pow_monotonic;
use crate::powers::checked_two_pow;
use crate::multilinear_laws::lemma_fix_variable;
use crate::multilinear_laws::lemma_eval_reduced;
use crate::multilinear_laws::lemma_eval_at_vertex;
use crate::multilinear_laws::lemma_vertex_zero;

verus! {

/// The weight that vertex `i` of the hypercube has at a point of which the
/// first `k` coordinates count, coordinate `j` read on bit `j` of the index:
/// the product, over those coordinates, of the coordinate where the index has
/// a one and of one minus the coordinate where it has a zero.
pub open spec fn corner_weight(point: Seq<int>, i: int, k: int) -> int
    decreases k,
{
    if k <= 0 {
        1
    } else {
        corner_weight(point, i, k - 1) * (if (i / two_pow((k - 1) as nat)) % 2 == 1 {
            point[k - 1]
        } else {
            1 - point[k - 1]
        })
    }
}

/// The sum of the first `k` values, each times the weight of its vertex at a
/// point, coordinate `j` read on bit `j`.
pub open spec fn point_sum(vals: Seq<int>, point: Seq<int>, k: int) -> int
    decreases k,
{
    if k <= 0 {
        0
    } else {
        point_sum(vals, point, k - 1) + vals[k - 1] * corner_weight(
            point,
            k - 1,
            point.len() as int,
        )
    }
}

/// The value at a point of the multilinear extension of `vals`, over the
/// integers, coordinate `j` of the point read on bit `j` of an index.
pub open spec fn point_eval(vals: Seq<int>, point: Seq<int>) -> int {
    point_sum(vals, point, vals.len() as int)
}

/// The lowest `n` bits of an index as a point, the lowest first.
pub open spec fn low_bits(n: nat, i: int) -> Seq<int>
    decreases n,
{
    if n == 0 {
        Seq::empty()
    } else {
        seq![i % 2] + low_bits((n - 1) as nat, i / 2)
    }
}

/// The weight that vertex `i` of the hypercube has at a point whose first
/// coordinate is read on the highest bit of the index: the product, over the
/// variables, of the coordinate where the vertex has a one and of one minus
/// the coordinate where it has a zero.
pub open spec fn chi(point: Seq<int>, i: int) -> int
    decreases point.len(),
{
    if point.len() == 0 {
        1
    } else {
        let half = two_pow((point.len() - 1) as nat);
        if i >= half {
            point[0] * chi(point.drop_first(), i - half)
        } else {
            (1 - point[0]) * chi(point.drop_first(), i)
        }
    }
}

/// The sum of the first `k` values, each times the weight of its vertex at a
/// point whose first coordinate is read on the highest bit.
pub open spec fn weighted_sum(vals: Seq<int>, point: Seq<int>, k: int) -> int
    decreases k,
{
    if k <= 0 {
        0
    } else {
        weighted_sum(vals, point, k - 1) + vals[k - 1] * chi(point, k - 1)
    }
}

/// The value at a point of the multilinear extension of `vals`, over the
/// integers, the first coordinate of the point read on the highest bit of an
/// index.
pub open spec fn mle_eval(vals: Seq<int>, point: Seq<int>) -> int {
    weighted_sum(vals, point, vals.len() as int)
}

/// The index of the lower partner of the `i`-th pair of vertices that differ
/// only in the bit of weight `stride`.
pub open spec fn pair_low(i: int, stride: int) -> int {
    (i / stride) * (2 * stride) + i % stride
}

/// The values left when the variable whose bit has weight `stride` is set to
/// `v`: each pair `(a, b)` of values becomes `a + v * (b - a)`.
pub open spec fn fix_variable(vals: Seq<int>, stride: int, v: int) -> Seq<int> {
    Seq::new(
        (vals.len() / 2) as nat,
        |i: int|
            vals[pair_low(i, stride)] + v * (vals[pair_low(i, stride) + stride] - vals[pair_low(
                i,
                stride,
            )]),
    )
}

/// Vertex `i` of the hypercube of `n` variables as a point: the bits of `i`,
/// the most significant first.
pub open spec fn vertex(n: nat, i: int) -> Seq<int>
    decreases n,
{
    if n == 0 {
        Seq::empty()
    } else {
        let half = two_pow((n - 1) as nat);
        if i >= half {
            seq![1int] + vertex((n - 1) as nat, i - half)
        } else {
            seq![0int] + vertex((n - 1) as nat, i)
        }
    }
}

/// The sum of the first `k` entries.
pub open spec fn seq_sum(vals: Seq<int>, k: int) -> int
    decreases k,
{
    if k <= 0 {
        0
    } else {
        seq_sum(vals, k - 1) + vals[k - 1]
    }
}

/// The table with `k` variables added after the last: entry `i` is the old
/// entry `i / 2^k`.
pub open spec fn blow_right(vals: Seq<int>, k: nat) -> Seq<int> {
    Seq::new((vals.len() * two_pow(k)) as nat, |i: int| vals[i / two_pow(k)])
}

/// The table with `k` variables added before the first: entry `i` is the old
/// entry `i % len`.
pub open spec fn blow_left(vals: Seq<int>, k: nat) -> Seq<int> {
    Seq::new((vals.len() * two_pow(k)) as nat, |i: int| vals[i % (vals.len() as int)])
}

/// Entry by entry, the sum of two tables.
pub open spec fn pointwise_sum(a: Seq<int>, b: Seq<int>) -> Seq<int> {
    Seq::new(a.len(), |i: int| a[i] + b[i])
}

/// Entry by entry, the product of two tables.
pub open spec fn pointwise_product(a: Seq<int>, b: Seq<int>) -> Seq<int> {
    Seq::new(a.len(), |i: int| a[i] * b[i])
}

/// Each entry times `c`.
pub open spec fn scaled(a: Seq<int>, c: int) -> Seq<int> {
    Seq::new(a.len(), |i: int| a[i] * c)
}

/// The sum, over the first `k` vertices of the hypercube of `free` variables,
/// of the value at `prefix` followed by the bits of the vertex, the lowest
/// first, coordinate `j` of the point read on bit `j`.
pub open spec fn vertex_sum(vals: Seq<int>, prefix: Seq<int>, free: nat, k: int) -> int
    decreases k,
{
    if k <= 0 {
        0
    } else {
        vertex_sum(vals, prefix, free, k - 1) + point_eval(vals, prefix + low_bits(free, k - 1))
    }
}

/// An assignment of some variables, as integers.
pub open spec fn option_values(s: Seq<Option<FieldElement>>) -> Seq<Option<int>> {
    Seq::new(
        s.len(),
        |i: int|
            match s[i] {
                Some(c) => Some(c@),
                None => None,
            },
    )
}

/// The number of variables that an assignment gives a value.
pub open spec fn assigned_count(assignment: Seq<Option<int>>) -> nat
    decreases assignment.len(),
{
    if assignment.len() == 0 {
        0
    } else if assignment.last() is Some {
        assigned_count(assignment.drop_last()) + 1
    } else {
        assigned_count(assignment.drop_last())
    }
}

/// The table left when the variables that `assignment` gives a value are set
/// to it, one after the other from the first: entry `i` of the assignment
/// speaks of the variable that stands at `pos` plus the number of entries
/// before it that gave no value.
pub open spec fn restrict(vals: Seq<int>, assignment: Seq<Option<int>>, pos: nat) -> Seq<int>
    decreases assignment.len(),
{
    if assignment.len() == 0 {
        vals
    } else {
        match assignment[0] {
            Some(v) => restrict(
                reduced(
                    fix_variable(
                        vals,
                        two_pow((log2_floor(vals.len() as int) - 1 - pos) as nat),
                        v,
                    ),
                ),
                assignment.drop_first(),
                pos,
            ),
            None => restrict(vals, assignment.drop_first(), pos + 1),
        }
    }
}

/// A multilinear extension over the field.
#[derive(Clone, Debug, PartialEq)]
pub struct MultivariatePoly {
    pub coeffs: Vec<FieldElement>,
    pub num_vars: usize,
}

/// The bounds of the partners of a pair.
pub proof fn lemma_pair_bounds(i: int, stride: int, len: int)
    requires
        stride >= 1,
        0 <= i,
        2 * i < len,
        len % (2 * stride) == 0,
    ensures
        0 <= pair_low(i, stride),
        pair_low(i, stride) + stride < len,
{
    let q = i / stride;
    let r = i % stride;
    let blocks = len / (2 * stride);
    assert(i == q * stride + r && 0 <= r < stride) by {
        vstd::arithmetic::div_mod::lemma_fundamental_div_mod(i, stride);
        vstd::arithmetic::div_mod::lemma_mod_pos_bound(i, stride);
        assert(stride * q == q * stride) by (nonlinear_arith);
    }
    assert(len == blocks * (2 * stride)) by {
        vstd::arithmetic::div_mod::lemma_fundamental_div_mod(len, 2 * stride);
        assert((2 * stride) * blocks == blocks * (2 * stride)) by (nonlinear_arith);
    }
    assert(q >= 0) by (nonlinear_arith)
        requires
            i == q * stride + r,
            0 <= r < stride,
            i >= 0,
    ;
    assert(q < blocks) by (nonlinear_arith)
        requires
            i == q * stride + r,
            0 <= r < stride,
            2 * i < len,
            len == blocks * (2 * stride),
            stride >= 1,
    ;
    assert(q * (2 * stride) + r + stride < blocks * (2 * stride)) by (nonlinear_arith)
        requires
            q < blocks,
            0 <= r < stride,
            stride >= 1,
    ;
    assert(q * (2 * stride) >= 0) by (nonlinear_arith)
        requires
            q >= 0,
            stride >= 1,
    ;
}

/// A copy of a table.
pub fn copy_table(table: &Vec<FieldElement>) -> (r: Vec<FieldElement>)
    ensures
        r@ == table@,
{
    let mut out: Vec<FieldElement> = Vec::with_capacity(table.len());
    let mut i: usize = 0;
    while i < table.len()
        invariant
            i <= table@.len(),
            out@ == table@.subrange(0, i as int),
        decreases table@.len() - i,
    {
        out.push(table[i]);
        proof {
            assert(table@.subrange(0, i as int).push(table@[i as int]) =~= table@.subrange(
                0,
                i + 1,
            ));
        }
        i = i + 1;
    }
    proof {
        assert(table@.subrange(0, table@.len() as int) =~= table@);
    }
    out
}

/// Vertex `i` of the hypercube of `n` variables, as a point of the field.
pub fn vertex_point(n: usize, size: usize, i: usize) -> (r: Vec<FieldElement>)
    requires
        size == two_pow(n as nat),
        i < size,
    ensures
        r@.len() == n,
        values(r@) == vertex(n as nat, i as int),
{
    let mut out: Vec<FieldElement> = Vec::with_capacity(n);
    let mut rem = i;
    let mut half = size;
    let mut j: usize = 0;
    while j < n
        invariant
            j <= n,
            half == two_pow((n - j) as nat),
            0 <= rem < half,
            out@.len() == j,
            values(out@) + vertex((n - j) as nat, rem as int) == vertex(n as nat, i as int),
        decreases n - j,
    {
        let ghost before = values(out@);
        let ghost old_rem = rem as int;
        half = half / 2;
        let bit = if rem >= half {
            rem = rem - half;
            FieldElement::one()
        } else {
            FieldElement::zero()
        };
        out.push(bit);
        proof {
            let tail = vertex((n - j - 1) as nat, rem as int);
            assert(vertex((n - j) as nat, old_rem) == seq![bit@] + tail);
            assert(values(out@) =~= before + seq![bit@]);
            assert(values(out@) + tail =~= before + (seq![bit@] + tail));
        }
        j = j + 1;
    }
    proof {
        assert(values(out@) + vertex(0, rem as int) =~= values(out@));
    }
    out
}

/// The lowest `n` bits of an index as a point of the field, the lowest
/// first.
pub fn low_bits_point(n: usize, i: usize) -> (r: Vec<FieldElement>)
    ensures
        r@.len() == n,
        values(r@) == low_bits(n as nat, i as int),
{
    let mut out: Vec<FieldElement> = Vec::with_capacity(n);
    let mut rest = i;
    let mut j: usize = 0;
    while j < n
        invariant
            j <= n,
            out@.len() == j,
            values(out@) + low_bits((n - j) as nat, rest as int) == low_bits(n as nat, i as int),
        decreases n - j,
    {
        let ghost before = values(out@);
        let ghost old_rest = rest as int;
        let bit = if rest % 2 == 1 {
            FieldElement::one()
        } else {
            FieldElement::zero()
        };
        rest = rest / 2;
        out.push(bit);
        proof {
            let tail = low_bits((n - j - 1) as nat, rest as int);
            assert(low_bits((n - j) as nat, old_rest) == seq![bit@] + tail);
            assert(values(out@) =~= before + seq![bit@]);
            assert(values(out@) + tail =~= before + (seq![bit@] + tail));
        }
        j = j + 1;
    }
    proof {
        assert(values(out@) + low_bits(0, rest as int) =~= values(out@));
    }
    out
}

/// A table of zeros as long as the table of `poly` with `blows` more
/// variables.
pub fn get_blow_up_poly(poly: &MultivariatePoly, blows: u32) -> (r: Vec<FieldElement>)
    requires
        poly.wf(),
        two_pow((poly.num_vars + blows) as nat) <= usize::MAX,
    ensures
        r@.len() == two_pow((poly.num_vars + blows) as nat),
        r@.len() == poly.coeffs@.len() * two_pow(blows as nat),
        forall|i: int| 0 <= i < r@.len() ==> (#[trigger] r@[i])@ == 0,
{
    proof {
        lemma_two_pow_adds(poly.num_vars as nat, blows as nat);
        lemma_two_pow_positive(poly.num_vars as nat);
        lemma_two_pow_positive(blows as nat);
        assert(two_pow(blows as nat) <= two_pow(poly.num_vars as nat) * two_pow(blows as nat))
            by (nonlinear_arith)
            requires
                two_pow(poly.num_vars as nat) >= 1,
                two_pow(blows as nat) >= 1,
        ;
    }
    let width = checked_two_pow(blows as usize).unwrap();
    let new_len = poly.coeffs.len() * width;
    let mut out: Vec<FieldElement> = Vec::with_capacity(new_len);
    let mut i: usize = 0;
    while i < new_len
        invariant
            i <= new_len,
            out@.len() == i,
            forall|t: int| 0 <= t < i ==> (#[trigger] out@[t])@ == 0,
        decreases new_len - i,
    {
        out.push(FieldElement::zero());
        i = i + 1;
    }
    out
}

impl MultivariatePoly {
    /// A polynomial holds one value for each vertex of its hypercube.
    pub open spec fn wf(&self) -> bool {
        self.coeffs@.len() == two_pow(self.num_vars as nat)
    }

    /// The values on the hypercube, as integers.
    pub open spec fn values(&self) -> Seq<int> {
        values(self.coeffs@)
    }

    /// The polynomial with the given values on the hypercube.
    pub fn new(coeffs: Vec<FieldElement>, num_vars: usize) -> (r: MultivariatePoly)
        requires
            coeffs@.len() == two_pow(num_vars as nat),
        ensures
            r.coeffs == coeffs,
            r.num_vars == num_vars,
            r.wf(),
    {
        MultivariatePoly { coeffs, num_vars }
    }

    /// Sets one variable of a table of hypercube values to `val`, which
    /// halves the table: the variable on bit `var_idx` of an index. Each pair
    /// `(a, b)` of values whose indices differ in that bit only becomes
    /// `a + val * (b - a)`.
    pub fn partial_evaluate(poly: &Vec<FieldElement>, var_idx: usize, val: FieldElement) -> (r:
        Vec<FieldElement>)
        requires
            is_power_of_two(poly@.len() as int),
            var_idx < log2_floor(poly@.len() as int),
        ensures
            r@.len() == poly@.len() / 2,
            is_power_of_two(r@.len() as int),
            log2_floor(r@.len() as int) == log2_floor(poly@.len() as int) - 1,
            values(r@) == reduced(fix_variable(values(poly@), two_pow(var_idx as nat), val@)),
    {
        let len = poly.len();
        let new_len = len / 2;
        let ghost n = log2_floor(len as int);
        let ghost vals = values(poly@);
        proof {
            lemma_power_of_two_halves(len as int);
            assert(two_pow(0) == 1);
            lemma_two_pow_positive((n - 1) as nat);
        }
        let mut stride: usize = 1;
        let mut k: usize = 0;
        while k < var_idx
            invariant
                k <= var_idx < n,
                new_len == two_pow((n - 1) as nat),
                stride == two_pow(k as nat),
            decreases var_idx - k,
        {
            proof {
                assert(two_pow((k + 1) as nat) == 2 * two_pow(k as nat));
                crate::powers::lemma_two_pow_monotonic((k + 1) as nat, (n - 1) as nat);
            }
            stride = stride * 2;
            k = k + 1;
        }
        proof {
            lemma_two_pow_positive(var_idx as nat);
            lemma_two_pow_positive((n - 1 - var_idx) as nat);
            crate::powers::lemma_two_pow_adds((n - 1 - var_idx) as nat, (var_idx + 1) as nat);
            assert(two_pow((var_idx + 1) as nat) == 2 * stride);
            crate::powers::lemma_two_pow_monotonic((var_idx + 1) as nat, n);
            assert(len == two_pow(n));
            vstd::arithmetic::div_mod::lemma_mod_multiples_basic(
                two_pow((n - 1 - var_idx) as nat),
                2 * stride,
            );
        }
        let mut out: Vec<FieldElement> = Vec::with_capacity(new_len);
        let mut i: usize = 0;
        while i < new_len
            invariant
                i <= new_len,
                len == poly@.len(),
                new_len == len / 2,
                len == 2 * new_len,
                stride >= 1,
                2 * stride <= len,
                (len as int) % (2 * stride) == 0,
                out@.len() == i,
                vals == values(poly@),
                forall|t: int|
                    0 <= t < i ==> (#[trigger] out@[t])@ == fred(
                        fix_variable(vals, stride as int, val@)[t],
                    ),
            decreases new_len - i,
        {
            proof {
                lemma_pair_bounds(i as int, stride as int, len as int);
            }
            let q = i / stride;
            let low = i % stride;
            assert(q * (2 * stride) + low == pair_low(i as int, stride as int));
            assert(q * (2 * stride) >= 0) by (nonlinear_arith)
                requires
                    q >= 0,
                    stride >= 1,
            ;
            let j = q * (2 * stride) + low;
            let y1 = poly[j];
            let y2 = poly[j + stride];
            let diff = y2.sub(&y1);
            let scaled = val.mul(&diff);
            let entry = y1.add(&scaled);
            proof {
                let a = vals[j as int];
                let b = vals[j + stride];
                lemma_fred_basics(val@);
                lemma_fred_basics(b - a);
                lemma_fred_basics(a);
                lemma_fred_basics(val@ * (b - a));
                lemma_mul_congruent(val@, val@, diff@, b - a);
                lemma_add_congruent(a, a, scaled@, val@ * (b - a));
            }
            out.push(entry);
            i = i + 1;
        }
        proof {
            let target = reduced(fix_variable(vals, stride as int, val@));
            assert(values(out@) =~= target);
        }
        out
    }

    /// The value of the polynomial at a point: the sum over the vertices of
    /// the value at the vertex times the weight of the vertex at the point,
    /// coordinate `j` of the point read on bit `j` of the index of the vertex.
    pub fn evaluate(&self, point: &Vec<FieldElement>) -> (r: FieldElement)
        requires
            self.wf(),
            point@.len() == self.num_vars,
        ensures
            r@ == fred(point_eval(self.values(), values(point@))),
    {
        let n = self.num_vars;
        let len = self.coeffs.len();
        let ghost vals = self.values();
        let ghost pt = values(point@);
        let mut result = FieldElement::zero();
        let mut i: usize = 0;
        proof {
            lemma_fred_basics(0);
        }
        while i < len
            invariant
                i <= len,
                len == self.coeffs@.len(),
                n == self.num_vars,
                point@.len() == n,
                vals == self.values(),
                pt == values(point@),
                result@ == fred(point_sum(vals, pt, i as int)),
            decreases len - i,
        {
            let mut term = self.coeffs[i];
            let mut rest = i;
            let mut j: usize = 0;
            proof {
                assert(two_pow(0) == 1);
                assert(vals[i as int] * 1 == vals[i as int]);
                lemma_view_range(term);
                lemma_fred_basics(term@);
            }
            while j < n
                invariant
                    j <= n,
                    point@.len() == n,
                    pt == values(point@),
                    rest == i as int / two_pow(j as nat),
                    term@ == fred(vals[i as int] * corner_weight(pt, i as int, j as int)),
                decreases n - j,
            {
                let ghost old_term = term@;
                let ghost before = vals[i as int] * corner_weight(pt, i as int, j as int);
                let factor = if rest % 2 == 1 {
                    point[j]
                } else {
                    let one = FieldElement::one();
                    one.sub(&point[j])
                };
                term = term.mul(&factor);
                proof {
                    let f = if (i as int / two_pow(j as nat)) % 2 == 1 {
                        pt[j as int]
                    } else {
                        1 - pt[j as int]
                    };
                    lemma_view_range(point@[j as int]);
                    lemma_fred_basics(pt[j as int]);
                    lemma_fred_basics(1 - pt[j as int]);
                    lemma_fred_basics(before);
                    lemma_mul_congruent(old_term, before, factor@, f);
                    assert(before * f == vals[i as int] * (corner_weight(pt, i as int, j as int)
                        * f)) by (nonlinear_arith)
                        requires
                            before == vals[i as int] * corner_weight(pt, i as int, j as int),
                    ;
                    lemma_two_pow_positive(j as nat);
                    vstd::arithmetic::div_mod::lemma_div_denominator(
                        i as int,
                        two_pow(j as nat),
                        2,
                    );
                    assert(two_pow((j + 1) as nat) == two_pow(j as nat) * 2);
                }
                rest = rest / 2;
                j = j + 1;
            }
            let ghost before = result@;
            result = result.add(&term);
            proof {
                let exact = vals[i as int] * corner_weight(pt, i as int, n as int);
                lemma_fred_basics(exact);
                lemma_add_congruent(before, point_sum(vals, pt, i as int), term@, exact);
            }
            i = i + 1;
        }
        result
    }

    /// The value at the point that starts with `points` and goes on with
    /// zeros: the variables are set one after the other, from the first,
    /// which stands on the highest bit of an index.
    pub fn evaluate_partial(&self, points: &Vec<FieldElement>) -> (r: FieldElement)
        requires
            self.wf(),
            points@.len() <= self.num_vars,
        ensures
            r@ == fred(
                mle_eval(
                    self.values(),
                    values(points@) + Seq::new(
                        (self.num_vars - points@.len()) as nat,
                        |j: int| 0int,
                    ),
                ),
            ),
    {
        let n = self.num_vars;
        let k = points.len();
        let ghost vals = self.values();
        let ghost zeros = Seq::new((n - k) as nat, |j: int| 0int);
        let ghost pts = values(points@);
        let ghost goal = mle_eval(vals, pts + zeros);
        let mut cur = copy_table(&self.coeffs);
        let mut t: usize = 0;
        proof {
            lemma_log2_of_two_pow(n as nat);
            assert(pts.subrange(0, k as int) =~= pts);
        }
        while t < k
            invariant
                t <= k <= n,
                k == points@.len(),
                pts == values(points@),
                zeros.len() == n - k,
                cur@.len() == two_pow((n - t) as nat),
                fred(mle_eval(values(cur@), pts.subrange(t as int, k as int) + zeros)) == fred(
                    goal,
                ),
            decreases k - t,
        {
            let ghost before = values(cur@);
            proof {
                lemma_log2_of_two_pow((n - t) as nat);
            }
            cur = MultivariatePoly::partial_evaluate(&cur, n - t - 1, points[t]);
            proof {
                let rest = pts.subrange(t + 1, k as int) + zeros;
                let m = (n - t - 1) as nat;
                assert(rest.len() == m);
                assert(two_pow((n - t) as nat) == 2 * two_pow(m));
                lemma_fix_variable(before, 0, pts[t as int], rest);
                lemma_eval_reduced(fix_variable(before, two_pow(m), pts[t as int]), rest);
                assert(rest.insert(0, pts[t as int]) =~= pts.subrange(t as int, k as int)
                    + zeros);
                assert(cur@.len() == two_pow(m));
            }
            t = t + 1;
        }
        proof {
            lemma_two_pow_positive((n - k) as nat);
            assert(pts.subrange(k as int, k as int) + zeros =~= zeros);
            lemma_vertex_zero((n - k) as nat);
            lemma_eval_at_vertex(values(cur@), (n - k) as nat, 0);
            lemma_view_range(cur@[0]);
            lemma_fred_basics(cur@[0]@);
        }
        cur[0]
    }

    /// The polynomial in the variables that `values` leaves open, with each
    /// of the others set to the value that `values` gives it: entry `i` of
    /// `values` speaks of the variable `i` places after the leading one, which
    /// stands on the highest bit, and variables beyond its end stay open.
    pub fn solve(&self, values: &Vec<Option<FieldElement>>) -> (r: MultivariatePoly)
        requires
            self.wf(),
            values@.len() <= self.num_vars,
        ensures
            r.wf(),
            r.num_vars == self.num_vars - assigned_count(option_values(values@)),
            r.values() == restrict(self.values(), option_values(values@), 0),
    {
        let ghost asg = option_values(values@);
        let ghost goal = restrict(self.values(), asg, 0);
        let mut cur = copy_table(&self.coeffs);
        let mut vars = self.num_vars;
        let mut pos: usize = 0;
        let mut i: usize = 0;
        proof {
            assert(asg.subrange(0, asg.len() as int) =~= asg);
        }
        while i < values.len()
            invariant
                i <= values@.len(),
                asg == option_values(values@),
                cur@.len() == two_pow(vars as nat),
                pos + (values@.len() - i) <= vars,
                vars == self.num_vars - assigned_count(asg.subrange(0, i as int)),
                restrict(crate::field::values(cur@), asg.subrange(i as int, asg.len() as int), pos as nat)
                    == goal,
            decreases values@.len() - i,
        {
            let ghost rest = asg.subrange(i as int, asg.len() as int);
            proof {
                assert(rest.drop_first() =~= asg.subrange(i + 1, asg.len() as int));
                assert(rest[0] == asg[i as int]);
                lemma_log2_of_two_pow(vars as nat);
                assert(asg.subrange(0, i + 1).drop_last() =~= asg.subrange(0, i as int));
                assert(asg.subrange(0, i + 1).last() == asg[i as int]);
            }
            match values[i] {
                Some(v) => {
                    cur = MultivariatePoly::partial_evaluate(&cur, vars - 1 - pos, v);
                    vars = vars - 1;
                    proof {
                        lemma_log2_of_two_pow(vars as nat);
                        assert(two_pow((vars + 1) as nat) == 2 * two_pow(vars as nat));
                    }
                },
                None => {
                    pos = pos + 1;
                },
            }
            i = i + 1;
        }
        proof {
            assert(asg.subrange(0, asg.len() as int) =~= asg);
        }
        MultivariatePoly { coeffs: cur, num_vars: vars }
    }

    /// The sum, over the vertices of the hypercube, of the value of the
    /// polynomial at the vertex, as `evaluate` gives it.
    pub fn sum_over_boolean_hypercube(&self) -> (r: FieldElement)
        requires
            self.wf(),
        ensures
            r@ == fred(
                vertex_sum(
                    self.values(),
                    Seq::empty(),
                    self.num_vars as nat,
                    two_pow(self.num_vars as nat),
                ),
            ),
    {
        let n = self.num_vars;
        let size = self.coeffs.len();
        let ghost vals = self.values();
        let mut sum = FieldElement::zero();
        let mut i: usize = 0;
        proof {
            lemma_fred_basics(0);
        }
        while i < size
            invariant
                i <= size,
                self.wf(),
                n == self.num_vars,
                size == two_pow(n as nat),
                vals == self.values(),
                sum@ == fred(vertex_sum(vals, Seq::empty(), n as nat, i as int)),
            decreases size - i,
        {
            let point = low_bits_point(n, i);
            let term = self.evaluate(&point);
            let ghost before = sum@;
            sum = sum.add(&term);
            proof {
                assert(Seq::<int>::empty() + low_bits(n as nat, i as int) =~= low_bits(
                    n as nat,
                    i as int,
                ));
                let e = point_eval(vals, low_bits(n as nat, i as int));
                lemma_fred_basics(e);
                lemma_add_congruent(
                    before,
                    vertex_sum(vals, Seq::empty(), n as nat, i as int),
                    term@,
                    e,
                );
            }
            i = i + 1;
        }
        sum
    }

    /// The sum of the values of the polynomial at the points that start with
    /// the first `round` entries of `partial_evaluation`, go on with `x`, and
    /// end with a vertex of the hypercube of the variables that are left, the
    /// points read as `evaluate` reads them.
    pub fn evaluate_at_round(
        &self,
        round: usize,
        partial_evaluation: &[FieldElement],
        x: FieldElement,
    ) -> (r: FieldElement)
        requires
            self.wf(),
            round < self.num_vars,
            round <= partial_evaluation@.len(),
        ensures
            r@ == fred(
                vertex_sum(
                    self.values(),
                    values(partial_evaluation@.subrange(0, round as int)) + seq![x@],
                    (self.num_vars - round - 1) as nat,
                    two_pow((self.num_vars - round - 1) as nat),
                ),
            ),
    {
        let n = self.num_vars;
        let free = n - round - 1;
        let ghost vals = self.values();
        let ghost prefix = values(partial_evaluation@.subrange(0, round as int)) + seq![x@];
        let mut head: Vec<FieldElement> = Vec::with_capacity(n);
        let mut t: usize = 0;
        while t < round
            invariant
                t <= round <= partial_evaluation@.len(),
                head@ == partial_evaluation@.subrange(0, t as int),
            decreases round - t,
        {
            head.push(partial_evaluation[t]);
            proof {
                assert(partial_evaluation@.subrange(0, t as int).push(
                    partial_evaluation@[t as int],
                ) =~= partial_evaluation@.subrange(0, t + 1));
            }
            t = t + 1;
        }
        head.push(x);
        proof {
            assert(values(head@) =~= prefix);
        }
        let mut size = self.coeffs.len();
        let mut h: usize = 0;
        while h < round + 1
            invariant
                h <= round + 1,
                round < n,
                size == two_pow((n - h) as nat),
            decreases round + 1 - h,
        {
            assert(two_pow((n - h) as nat) == 2 * two_pow((n - h - 1) as nat));
            size = size / 2;
            h = h + 1;
        }
        let mut sum = FieldElement::zero();
        let mut i: usize = 0;
        proof {
            lemma_fred_basics(0);
        }
        while i < size
            invariant
                i <= size,
                self.wf(),
                n == self.num_vars,
                free == n - round - 1,
                round < n,
                size == two_pow(free as nat),
                vals == self.values(),
                head@.len() == round + 1,
                values(head@) == prefix,
                sum@ == fred(vertex_sum(vals, prefix, free as nat, i as int)),
            decreases size - i,
        {
            let tail = low_bits_point(free, i);
            let mut full_point = copy_table(&head);
            let mut j: usize = 0;
            while j < free
                invariant
                    j <= free,
                    tail@.len() == free,
                    full_point@ == head@ + tail@.subrange(0, j as int),
                decreases free - j,
            {
                full_point.push(tail[j]);
                proof {
                    assert(tail@.subrange(0, j as int).push(tail@[j as int]) =~= tail@.subrange(
                        0,
                        j + 1,
                    ));
                    assert((head@ + tail@.subrange(0, j as int)).push(tail@[j as int]) =~= head@
                        + tail@.subrange(0, j + 1));
                }
                j = j + 1;
            }
            proof {
                assert(tail@.subrange(0, free as int) =~= tail@);
                assert(values(full_point@) =~= prefix + low_bits(free as nat, i as int));
            }
            let term = self.evaluate(&full_point);
            let ghost before = sum@;
            sum = sum.add(&term);
            proof {
                let e = point_eval(vals, prefix + low_bits(free as nat, i as int));
                lemma_fred_basics(e);
                lemma_add_congruent(
                    before,
                    vertex_sum(vals, prefix, free as nat, i as int),
                    term@,
                    e,
                );
            }
            i = i + 1;
        }
        sum
    }

    /// The same polynomial in `blows` more variables, added on the lowest
    /// bits: after the last variable as `evaluate_partial` counts, before the
    /// first coordinate as `evaluate` counts. It does not depend on them.
    pub fn blow_up_right(&self, blows: u32) -> (r: MultivariatePoly)
        requires
            self.wf(),
            self.num_vars + blows <= usize::MAX,
            two_pow((self.num_vars + blows) as nat) <= usize::MAX,
        ensures
            r.wf(),
            r.num_vars == self.num_vars + blows,
            r.values() == blow_right(self.values(), blows as nat),
    {
        let zeros = get_blow_up_poly(self, blows);
        let new_len = zeros.len();
        proof {
            lemma_two_pow_positive(blows as nat);
            lemma_two_pow_positive(self.num_vars as nat);
            assert(two_pow(blows as nat) <= self.coeffs@.len() * two_pow(blows as nat))
                by (nonlinear_arith)
                requires
                    self.coeffs@.len() >= 1,
                    two_pow(blows as nat) >= 1,
            ;
        }
        let width = checked_two_pow(blows as usize).unwrap();
        let mut out: Vec<FieldElement> = Vec::with_capacity(new_len);
        let mut i: usize = 0;
        while i < new_len
            invariant
                i <= new_len,
                width == two_pow(blows as nat),
                width >= 1,
                new_len == self.coeffs@.len() * width,
                out@.len() == i,
                forall|t: int| 0 <= t < i ==> #[trigger] out@[t] == self.coeffs@[t / (width as int)],
            decreases new_len - i,
        {
            proof {
                assert((width as int) * (self.coeffs@.len() as int) == self.coeffs@.len() * width)
                    by (nonlinear_arith);
                vstd::arithmetic::div_mod::lemma_multiply_divide_lt(
                    i as int,
                    width as int,
                    self.coeffs@.len() as int,
                );
            }
            out.push(self.coeffs[i / width]);
            i = i + 1;
        }
        proof {
            let target = blow_right(self.values(), blows as nat);
            assert forall|t: int| 0 <= t < new_len implies values(out@)[t] == #[trigger] target[t] by {
                assert((width as int) * (self.coeffs@.len() as int) == self.coeffs@.len() * width)
                    by (nonlinear_arith);
                vstd::arithmetic::div_mod::lemma_multiply_divide_lt(
                    t,
                    width as int,
                    self.coeffs@.len() as int,
                );
                vstd::arithmetic::div_mod::lemma_div_pos_is_pos(t, width as int);
            }
            assert(values(out@) =~= target);
        }
        MultivariatePoly { coeffs: out, num_vars: self.num_vars + blows as usize }
    }

    /// The same polynomial in `blows` more variables, added on the highest
    /// bits: before the first variable as `evaluate_partial` counts, after
    /// the last coordinate as `evaluate` counts. It does not depend on them.
    pub fn blow_up_left(&self, blows: u32) -> (r: MultivariatePoly)
        requires
            self.wf(),
            self.num_vars + blows <= usize::MAX,
            two_pow((self.num_vars + blows) as nat) <= usize::MAX,
        ensures
            r.wf(),
            r.num_vars == self.num_vars + blows,
            r.values() == blow_left(self.values(), blows as nat),
    {
        let zeros = get_blow_up_poly(self, blows);
        let new_len = zeros.len();
        let len = self.coeffs.len();
        proof {
            lemma_two_pow_positive(self.num_vars as nat);
        }
        let mut out: Vec<FieldElement> = Vec::with_capacity(new_len);
        let mut i: usize = 0;
        while i < new_len
            invariant
                i <= new_len,
                len == self.coeffs@.len(),
                len >= 1,
                out@.len() == i,
                forall|t: int| 0 <= t < i ==> #[trigger] out@[t] == self.coeffs@[t % (len as int)],
            decreases new_len - i,
        {
            out.push(self.coeffs[i % len]);
            i = i + 1;
        }
        proof {
            let target = blow_left(self.values(), blows as nat);
            assert forall|t: int| 0 <= t < new_len implies values(out@)[t] == #[trigger] target[t] by {
                vstd::arithmetic::div_mod::lemma_mod_pos_bound(t, len as int);
            }
            assert(values(out@) =~= target);
        }
        MultivariatePoly { coeffs: out, num_vars: self.num_vars + blows as usize }
    }

    /// The polynomial times a scalar.
    pub fn scalar_mul(&self, value: FieldElement) -> (r: MultivariatePoly)
        requires
            self.wf(),
        ensures
            r.wf(),
            r.num_vars == self.num_vars,
            r.values() == reduced(scaled(self.values(), value@)),
    {
        let len = self.coeffs.len();
        let mut out: Vec<FieldElement> = Vec::with_capacity(len);
        let mut i: usize = 0;
        while i < len
            invariant
                i <= len,
                len == self.coeffs@.len(),
                out@.len() == i,
                forall|t: int|
                    0 <= t < i ==> (#[trigger] out@[t])@ == fred(self.coeffs@[t]@ * value@),
            decreases len - i,
        {
            out.push(self.coeffs[i].mul(&value));
            i = i + 1;
        }
        proof {
            assert(values(out@) =~= reduced(scaled(self.values(), value@)));
        }
        MultivariatePoly { coeffs: out, num_vars: self.num_vars }
    }

    /// The sum of two polynomials in the same variables.
    pub fn add(&self, other: &MultivariatePoly) -> (r: MultivariatePoly)
        requires
            self.wf(),
            other.wf(),
            self.num_vars == other.num_vars,
        ensures
            r.wf(),
            r.num_vars == self.num_vars,
            r.values() == reduced(pointwise_sum(self.values(), other.values())),
    {
        let len = self.coeffs.len();
        let mut out: Vec<FieldElement> = Vec::with_capacity(len);
        let mut i: usize = 0;
        while i < len
            invariant
                i <= len,
                len == self.coeffs@.len(),
                len == other.coeffs@.len(),
                out@.len() == i,
                forall|t: int|
                    0 <= t < i ==> (#[trigger] out@[t])@ == fred(
                        self.coeffs@[t]@ + other.coeffs@[t]@,
                    ),
            decreases len - i,
        {
            out.push(self.coeffs[i].add(&other.coeffs[i]));
            i = i + 1;
        }
        proof {
            assert(values(out@) =~= reduced(pointwise_sum(self.values(), other.values())));
        }
        MultivariatePoly { coeffs: out, num_vars: self.num_vars }
    }

    /// The product, vertex by vertex, of two polynomials in the same
    /// variables.
    pub fn mul(&self, other: &MultivariatePoly) -> (r: MultivariatePoly)
        requires
            self.wf(),
            other.wf(),
            self.num_vars == other.num_vars,
        ensures
            r.wf(),
            r.num_vars == self.num_vars,
            r.values() == reduced(pointwise_product(self.values(), other.values())),
    {
        let len = self.coeffs.len();
        let mut out: Vec<FieldElement> = Vec::with_capacity(len);
        let mut i: usize = 0;
        while i < len
            invariant
                i <= len,
                len == self.coeffs@.len(),
                len == other.coeffs@.len(),
                out@.len() == i,
                forall|t: int|
                    0 <= t < i ==> (#[trigger] out@[t])@ == fred(
                        self.coeffs@[t]@ * other.coeffs@[t]@,
                    ),
            decreases len - i,
        {
            out.push(self.coeffs[i].mul(&other.coeffs[i]));
            i = i + 1;
        }
        proof {
            assert(values(out@) =~= reduced(pointwise_product(self.values(), other.values())));
        }
        MultivariatePoly { coeffs: out, num_vars: self.num_vars }
    }

    /// A copy of the polynomial.
    pub fn copy(&self) -> (r: MultivariatePoly)
        ensures
            r.coeffs@ == self.coeffs@,
            r.num_vars == self.num_vars,
    {
        MultivariatePoly { coeffs: copy_table(&self.coeffs), num_vars: self.num_vars }
    }
}

} // verus!
