//! What holds of multilinear extensions whatever their values: how an
//! evaluation splits by the first variable, what setting a variable does to
//! it, and that injected variables do not change it. The laws are stated
//! first of `mle_eval`, the value that `evaluate_partial` gives, which reads
//! the first coordinate on the highest bit, and then of `point_eval`, the
//! value that `evaluate` gives, which reads it on the lowest: the one at a
//! point is the other at the reversed point.

use vstd::prelude::*;
use crate::field::fred;
use crate::field::lemma_add_congruent;
use crate::field::lemma_mul_congruent;
use crate::powers::two_pow;
use crate::powers::lemma_two_pow_positive;
use crate::powers::lemma_two_pow_adds;
use crate::multilinear::chi;
use crate::multilinear::weighted_sum;
use crate::multilinear::mle_eval;
use crate::multilinear::pair_low;
use crate::multilinear::fix_variable;
use crate::field::reduced;
use crate::multilinear::lemma_pair_bounds;
use crate::multilinear::vertex;
use crate::multilinear::seq_sum;
use crate::multilinear::vertex_sum;
use crate::multilinear::corner_weight;
use crate::multilinear::point_sum;
use crate::multilinear::point_eval;
use crate::multilinear::low_bits;
use crate::multilinear::blow_left;
use crate::multilinear::blow_right;
use crate::multilinear::pointwise_sum;
use crate::multilinear::scaled;

verus! {

/// The lower half of a table: the values where the first variable is zero.
pub open spec fn lower_half(vals: Seq<int>) -> Seq<int> {
    vals.subrange(0, vals.len() as int / 2)
}

/// The upper half of a table: the values where the first variable is one.
pub open spec fn upper_half(vals: Seq<int>) -> Seq<int> {
    vals.subrange(vals.len() as int / 2, vals.len() as int)
}

proof fn lemma_weighted_sum_lower(vals: Seq<int>, point: Seq<int>, k: int)
    requires
        point.len() >= 1,
        vals.len() == two_pow(point.len()),
        0 <= k <= vals.len() / 2,
    ensures
        weighted_sum(vals, point, k) == (1 - point[0]) * weighted_sum(
            lower_half(vals),
            point.drop_first(),
            k,
        ),
    decreases k,
{
    if k > 0 {
        lemma_weighted_sum_lower(vals, point, k - 1);
        let a = weighted_sum(lower_half(vals), point.drop_first(), k - 1);
        let c = chi(point.drop_first(), k - 1);
        let x = vals[k - 1];
        assert(lower_half(vals)[k - 1] == x);
        assert(chi(point, k - 1) == (1 - point[0]) * c);
        assert((1 - point[0]) * a + x * ((1 - point[0]) * c) == (1 - point[0]) * (a + x * c))
            by (nonlinear_arith);
    }
}

proof fn lemma_weighted_sum_upper(vals: Seq<int>, point: Seq<int>, k: int)
    requires
        point.len() >= 1,
        vals.len() == two_pow(point.len()),
        0 <= k <= vals.len() / 2,
    ensures
        weighted_sum(vals, point, vals.len() / 2 + k) == weighted_sum(
            vals,
            point,
            vals.len() as int / 2,
        ) + point[0] * weighted_sum(upper_half(vals), point.drop_first(), k),
    decreases k,
{
    let h = vals.len() as int / 2;
    if k > 0 {
        lemma_weighted_sum_upper(vals, point, k - 1);
        let a = weighted_sum(upper_half(vals), point.drop_first(), k - 1);
        let c = chi(point.drop_first(), k - 1);
        let x = vals[h + k - 1];
        assert(upper_half(vals)[k - 1] == x);
        assert(chi(point, h + k - 1) == point[0] * c);
        assert(point[0] * a + x * (point[0] * c) == point[0] * (a + x * c)) by (nonlinear_arith);
    } else {
        assert(point[0] * 0 == 0);
    }
}

/// An evaluation splits by its first coordinate `x` into `1 - x` times the
/// evaluation of the lower half and `x` times that of the upper half.
pub proof fn lemma_eval_split(vals: Seq<int>, point: Seq<int>)
    requires
        point.len() >= 1,
        vals.len() == two_pow(point.len()),
    ensures
        mle_eval(vals, point) == (1 - point[0]) * mle_eval(lower_half(vals), point.drop_first())
            + point[0] * mle_eval(upper_half(vals), point.drop_first()),
{
    let h = vals.len() as int / 2;
    lemma_two_pow_positive((point.len() - 1) as nat);
    assert(vals.len() == 2 * h);
    lemma_weighted_sum_lower(vals, point, h);
    lemma_weighted_sum_upper(vals, point, h);
}

/// Tables that agree entry by entry modulo the field order have evaluations
/// that agree modulo the field order.
pub proof fn lemma_eval_congruent(a: Seq<int>, b: Seq<int>, point: Seq<int>)
    requires
        a.len() == b.len(),
        forall|i: int| 0 <= i < a.len() ==> fred(#[trigger] a[i]) == fred(b[i]),
    ensures
        fred(mle_eval(a, point)) == fred(mle_eval(b, point)),
{
    lemma_weighted_sum_congruent(a, b, point, a.len() as int);
}

proof fn lemma_weighted_sum_congruent(a: Seq<int>, b: Seq<int>, point: Seq<int>, k: int)
    requires
        a.len() == b.len(),
        0 <= k <= a.len(),
        forall|i: int| 0 <= i < a.len() ==> fred(#[trigger] a[i]) == fred(b[i]),
    ensures
        fred(weighted_sum(a, point, k)) == fred(weighted_sum(b, point, k)),
    decreases k,
{
    if k > 0 {
        lemma_weighted_sum_congruent(a, b, point, k - 1);
        let c = chi(point, k - 1);
        assert(fred(a[k - 1]) == fred(b[k - 1]));
        lemma_mul_congruent(a[k - 1], b[k - 1], c, c);
        lemma_add_congruent(
            weighted_sum(a, point, k - 1),
            weighted_sum(b, point, k - 1),
            a[k - 1] * c,
            b[k - 1] * c,
        );
    }
}

/// A table and its entry-wise reduction have congruent evaluations.
pub proof fn lemma_eval_reduced(a: Seq<int>, point: Seq<int>)
    ensures
        fred(mle_eval(reduced(a), point)) == fred(mle_eval(a, point)),
{
    assert forall|i: int| 0 <= i < a.len() implies fred(#[trigger] reduced(a)[i]) == fred(
        a[i],
    ) by {
        crate::field::lemma_fred_basics(a[i]);
    }
    lemma_eval_congruent(reduced(a), a, point);
}

proof fn lemma_weighted_sum_interpolates(
    lo: Seq<int>,
    hi: Seq<int>,
    mixed: Seq<int>,
    v: int,
    point: Seq<int>,
    k: int,
)
    requires
        lo.len() == hi.len(),
        mixed.len() == lo.len(),
        0 <= k <= lo.len(),
        forall|i: int| 0 <= i < lo.len() ==> #[trigger] mixed[i] == lo[i] + v * (hi[i] - lo[i]),
    ensures
        weighted_sum(mixed, point, k) == weighted_sum(lo, point, k) + v * (weighted_sum(
            hi,
            point,
            k,
        ) - weighted_sum(lo, point, k)),
    decreases k,
{
    if k > 0 {
        lemma_weighted_sum_interpolates(lo, hi, mixed, v, point, k - 1);
        let c = chi(point, k - 1);
        let sl = weighted_sum(lo, point, k - 1);
        let sh = weighted_sum(hi, point, k - 1);
        let l = lo[k - 1];
        let h = hi[k - 1];
        assert(mixed[k - 1] == l + v * (h - l));
        assert(sl + v * (sh - sl) + (l + v * (h - l)) * c == (sl + l * c) + v * ((sh + h * c) - (
            sl + l * c))) by (nonlinear_arith);
    } else {
        assert(v * (0 - 0) == 0);
    }
}

/// Setting the first variable of a table to `v` and evaluating at the other
/// coordinates is evaluating the table at `v` followed by them.
pub proof fn lemma_fix_first_variable(vals: Seq<int>, v: int, rest: Seq<int>)
    requires
        vals.len() == two_pow(rest.len() + 1),
    ensures
        mle_eval(fix_variable(vals, two_pow(rest.len()), v), rest) == mle_eval(
            vals,
            seq![v] + rest,
        ),
{
    let n = rest.len() + 1;
    let h = two_pow(rest.len());
    lemma_two_pow_positive(rest.len());
    let point = seq![v] + rest;
    let fixed = fix_variable(vals, h, v);
    assert(point.drop_first() =~= rest);
    assert(vals.len() == 2 * h);
    lemma_eval_split(vals, point);
    assert forall|i: int| 0 <= i < h implies #[trigger] fixed[i] == lower_half(vals)[i] + v * (
        upper_half(vals)[i] - lower_half(vals)[i]) by {
        vstd::arithmetic::div_mod::lemma_small_mod(i as nat, h as nat);
        vstd::arithmetic::div_mod::lemma_basic_div(i, h);
        assert(pair_low(i, h) == i);
    }
    lemma_weighted_sum_interpolates(lower_half(vals), upper_half(vals), fixed, v, rest, h);
    let el = mle_eval(lower_half(vals), rest);
    let eh = mle_eval(upper_half(vals), rest);
    assert(el + v * (eh - el) == (1 - v) * el + v * eh) by (nonlinear_arith);
}

/// Where a pair sits once half a table is skipped: the pair of the same
/// rank in the other half.
proof fn lemma_pair_low_shift(i: int, stride: int, blocks: int)
    requires
        stride >= 1,
        0 <= i,
        blocks >= 0,
    ensures
        pair_low(i + blocks * stride, stride) == pair_low(i, stride) + blocks * (2 * stride),
{
    let q = i / stride;
    let r = i % stride;
    vstd::arithmetic::div_mod::lemma_fundamental_div_mod(i, stride);
    vstd::arithmetic::div_mod::lemma_mod_pos_bound(i, stride);
    assert(i + blocks * stride == (q + blocks) * stride + r) by (nonlinear_arith)
        requires
            i == stride * q + r,
    ;
    vstd::arithmetic::div_mod::lemma_fundamental_div_mod_converse(
        i + blocks * stride,
        stride,
        q + blocks,
        r,
    );
    assert((q + blocks) * (2 * stride) == q * (2 * stride) + blocks * (2 * stride))
        by (nonlinear_arith);
}

/// Setting to `v` the variable of a table that stands `j` places after the
/// leading one, and evaluating at the other coordinates from the leading one
/// on, is evaluating the table at the point that has `v` as its coordinate
/// `j` and the others around it.
pub proof fn lemma_fix_variable(vals: Seq<int>, j: int, v: int, rest: Seq<int>)
    requires
        vals.len() == two_pow(rest.len() + 1),
        0 <= j <= rest.len(),
    ensures
        mle_eval(fix_variable(vals, two_pow((rest.len() - j) as nat), v), rest) == mle_eval(
            vals,
            rest.insert(j, v),
        ),
    decreases rest.len(),
{
    if j == 0 {
        lemma_fix_first_variable(vals, v, rest);
        assert(rest.insert(0, v) =~= seq![v] + rest);
    } else {
        let m = rest.len();
        let h = two_pow(m);
        let stride = two_pow((m - j) as nat);
        let blocks = two_pow((j - 1) as nat);
        let fixed = fix_variable(vals, stride, v);
        let tail = rest.drop_first();
        let lo = lower_half(vals);
        let hi = upper_half(vals);
        let point = rest.insert(j, v);
        lemma_two_pow_positive(m);
        lemma_two_pow_positive((m - j) as nat);
        lemma_two_pow_positive((j - 1) as nat);
        lemma_two_pow_positive((m - 1) as nat);
        lemma_two_pow_adds((j - 1) as nat, (m - j) as nat);
        assert(two_pow((m - 1) as nat) == blocks * stride);
        assert(h == 2 * two_pow((m - 1) as nat));
        assert(h == blocks * (2 * stride)) by (nonlinear_arith)
            requires
                h == 2 * (blocks * stride),
        ;
        assert(vals.len() == 2 * h);
        assert(fixed.len() == h);
        let half = h / 2;
        assert(half == blocks * stride);
        vstd::arithmetic::div_mod::lemma_mod_multiples_basic(blocks, 2 * stride);
        assert forall|i: int| 0 <= i < half implies #[trigger] lower_half(fixed)[i]
            == fix_variable(lo, stride, v)[i] by {
            lemma_pair_bounds(i, stride, h);
        }
        assert(lower_half(fixed) =~= fix_variable(lo, stride, v));
        assert forall|i: int| 0 <= i < half implies #[trigger] upper_half(fixed)[i]
            == fix_variable(hi, stride, v)[i] by {
            lemma_pair_bounds(i, stride, h);
            lemma_pair_low_shift(i, stride, blocks);
            assert(upper_half(fixed)[i] == fixed[i + half]);
        }
        assert(upper_half(fixed) =~= fix_variable(hi, stride, v));
        lemma_fix_variable(lo, j - 1, v, tail);
        lemma_fix_variable(hi, j - 1, v, tail);
        lemma_eval_split(fixed, rest);
        lemma_eval_split(vals, point);
        assert(point.drop_first() =~= tail.insert(j - 1, v));
        assert(point[0] == rest[0]);
    }
}

/// A table with the variable set that `evaluate_partial` counts as
/// `var_idx`, evaluated by `evaluate_partial` at the other coordinates, gives
/// what `evaluate_partial` gives for the whole table at the point with that
/// variable set. Counted from the leading variable, `var_idx` stands on bit
/// `rest.len() - var_idx`.
pub proof fn lemma_partial_evaluate_consistent(
    vals: Seq<int>,
    var_idx: int,
    val: int,
    rest: Seq<int>,
)
    requires
        vals.len() == two_pow(rest.len() + 1),
        0 <= var_idx <= rest.len(),
    ensures
        fred(
            mle_eval(
                reduced(fix_variable(vals, two_pow((rest.len() - var_idx) as nat), val)),
                rest,
            ),
        ) == fred(mle_eval(vals, rest.insert(var_idx, val))),
{
    lemma_fix_variable(vals, var_idx, val, rest);
    lemma_eval_reduced(fix_variable(vals, two_pow((rest.len() - var_idx) as nat), val), rest);
}

/// A multilinear extension takes at each vertex of the hypercube the value
/// that its table holds for the vertex.
pub proof fn lemma_eval_at_vertex(vals: Seq<int>, n: nat, i: int)
    requires
        vals.len() == two_pow(n),
        0 <= i < vals.len(),
    ensures
        vertex(n, i).len() == n,
        mle_eval(vals, vertex(n, i)) == vals[i],
    decreases n,
{
    if n == 0 {
        assert(vals.len() == 1);
        assert(weighted_sum(vals, vertex(n, i), 0) == 0);
        assert(chi(vertex(n, i), 0) == 1);
        assert(vals[0] * 1 == vals[0]);
    } else {
        let h = two_pow((n - 1) as nat);
        lemma_two_pow_positive((n - 1) as nat);
        let point = vertex(n, i);
        if i >= h {
            lemma_eval_at_vertex(upper_half(vals), (n - 1) as nat, i - h);
            assert(point.drop_first() =~= vertex((n - 1) as nat, i - h));
            lemma_eval_split(vals, point);
            assert(upper_half(vals)[i - h] == vals[i]);
            let el = mle_eval(lower_half(vals), point.drop_first());
            assert((1 - 1) * el + 1 * vals[i] == vals[i]) by (nonlinear_arith);
        } else {
            lemma_eval_at_vertex(lower_half(vals), (n - 1) as nat, i);
            assert(point.drop_first() =~= vertex((n - 1) as nat, i));
            lemma_eval_split(vals, point);
            assert(lower_half(vals)[i] == vals[i]);
            let eh = mle_eval(upper_half(vals), point.drop_first());
            assert((1 - 0) * vals[i] + 0 * eh == vals[i]) by (nonlinear_arith);
        }
    }
}

/// The first vertex is the point whose coordinates are all zero.
pub proof fn lemma_vertex_zero(n: nat)
    ensures
        vertex(n, 0) == Seq::new(n, |j: int| 0int),
    decreases n,
{
    if n > 0 {
        lemma_vertex_zero((n - 1) as nat);
        lemma_two_pow_positive((n - 1) as nat);
    }
    assert(vertex(n, 0) =~= Seq::new(n, |j: int| 0int));
}

/// A table that holds one value throughout evaluates to that value
/// everywhere.
pub proof fn lemma_eval_constant(vals: Seq<int>, c: int, point: Seq<int>)
    requires
        vals.len() == two_pow(point.len()),
        forall|i: int| 0 <= i < vals.len() ==> vals[i] == c,
    ensures
        mle_eval(vals, point) == c,
    decreases point.len(),
{
    if point.len() == 0 {
        assert(weighted_sum(vals, point, 0) == 0);
        assert(chi(point, 0) == 1);
        assert(vals[0] * 1 == vals[0]);
    } else {
        lemma_two_pow_positive((point.len() - 1) as nat);
        lemma_eval_constant(lower_half(vals), c, point.drop_first());
        lemma_eval_constant(upper_half(vals), c, point.drop_first());
        lemma_eval_split(vals, point);
        assert((1 - point[0]) * c + point[0] * c == c) by (nonlinear_arith);
    }
}

/// Variables added after the last do not change what `evaluate_partial`
/// gives, whatever their coordinates, which come last.
pub proof fn lemma_blow_up_right_eval(vals: Seq<int>, k: nat, point: Seq<int>, extra: Seq<int>)
    requires
        vals.len() == two_pow(point.len()),
        extra.len() == k,
    ensures
        mle_eval(blow_right(vals, k), point + extra) == mle_eval(vals, point),
    decreases point.len(),
{
    let blown = blow_right(vals, k);
    let w = two_pow(k);
    lemma_two_pow_positive(k);
    lemma_two_pow_adds(point.len(), k);
    if point.len() == 0 {
        assert(point + extra =~= extra);
        assert(vals.len() == 1);
        assert(1 * w == w);
        assert forall|i: int| 0 <= i < blown.len() implies blown[i] == vals[0] by {
            vstd::arithmetic::div_mod::lemma_basic_div(i, w);
        }
        lemma_eval_constant(blown, vals[0], extra);
        assert(weighted_sum(vals, point, 0) == 0);
        assert(chi(point, 0) == 1);
        assert(vals[0] * 1 == vals[0]);
    } else {
        let m = (point.len() - 1) as nat;
        let h = two_pow(m);
        lemma_two_pow_positive(m);
        lemma_two_pow_adds(m, k);
        let full = point + extra;
        let tail = point.drop_first();
        assert(full.drop_first() =~= tail + extra);
        assert(full[0] == point[0]);
        assert(vals.len() == 2 * h);
        assert(blown.len() == 2 * (h * w)) by (nonlinear_arith)
            requires
                blown.len() == (2 * h) * w,
        ;
        assert(two_pow(full.len()) == blown.len()) by {
            lemma_two_pow_adds(point.len(), k);
        }
        assert forall|i: int| 0 <= i < h * w implies #[trigger] lower_half(blown)[i]
            == blow_right(lower_half(vals), k)[i] by {
            assert(0 <= i / w < h) by {
                assert(h * w == w * h) by (nonlinear_arith);
                vstd::arithmetic::div_mod::lemma_div_pos_is_pos(i, w);
                vstd::arithmetic::div_mod::lemma_multiply_divide_lt(i, w, h);
            }
        }
        assert(lower_half(blown) =~= blow_right(lower_half(vals), k));
        assert forall|i: int| 0 <= i < h * w implies #[trigger] upper_half(blown)[i]
            == blow_right(upper_half(vals), k)[i] by {
            assert(0 <= i / w < h) by {
                assert(h * w == w * h) by (nonlinear_arith);
                vstd::arithmetic::div_mod::lemma_div_pos_is_pos(i, w);
                vstd::arithmetic::div_mod::lemma_multiply_divide_lt(i, w, h);
            }
            assert((i + h * w) / w == i / w + h) by {
                vstd::arithmetic::div_mod::lemma_fundamental_div_mod(i, w);
                vstd::arithmetic::div_mod::lemma_mod_pos_bound(i, w);
                assert(i + h * w == (i / w + h) * w + i % w) by (nonlinear_arith)
                    requires
                        i == w * (i / w) + i % w,
                ;
                vstd::arithmetic::div_mod::lemma_fundamental_div_mod_converse(
                    i + h * w,
                    w,
                    i / w + h,
                    i % w,
                );
            }
            assert(upper_half(blown)[i] == blown[i + h * w]);
        }
        assert(upper_half(blown) =~= blow_right(upper_half(vals), k));
        lemma_blow_up_right_eval(lower_half(vals), k, tail, extra);
        lemma_blow_up_right_eval(upper_half(vals), k, tail, extra);
        lemma_eval_split(blown, full);
        lemma_eval_split(vals, point);
    }
}

/// Variables added before the first do not change what `evaluate_partial`
/// gives, whatever their coordinates, which come first.
pub proof fn lemma_blow_up_left_eval(vals: Seq<int>, k: nat, extra: Seq<int>, point: Seq<int>)
    requires
        vals.len() == two_pow(point.len()),
        extra.len() == k,
    ensures
        mle_eval(blow_left(vals, k), extra + point) == mle_eval(vals, point),
    decreases k,
{
    let blown = blow_left(vals, k);
    let len = vals.len() as int;
    lemma_two_pow_positive(point.len());
    if k == 0 {
        assert(extra + point =~= point);
        assert(len * 1 == len);
        assert forall|i: int| 0 <= i < len implies blown[i] == vals[i] by {
            vstd::arithmetic::div_mod::lemma_small_mod(i as nat, len as nat);
        }
        assert(blown =~= vals);
    } else {
        let w = two_pow((k - 1) as nat);
        lemma_two_pow_positive((k - 1) as nat);
        let full = extra + point;
        let tail = extra.drop_first();
        let smaller = blow_left(vals, (k - 1) as nat);
        assert(full.drop_first() =~= tail + point);
        assert(blown.len() == 2 * (len * w)) by (nonlinear_arith)
            requires
                blown.len() == len * (2 * w),
        ;
        assert(two_pow(full.len()) == blown.len()) by {
            lemma_two_pow_adds(point.len(), k);
            assert(two_pow((point.len() + k) as nat) == two_pow(full.len()));
        }
        assert(lower_half(blown) =~= smaller);
        assert forall|i: int| 0 <= i < len * w implies #[trigger] upper_half(blown)[i]
            == smaller[i] by {
            assert(upper_half(blown)[i] == blown[i + len * w]);
            assert(i + len * w == len * w + i);
            assert(len * w == w * len) by (nonlinear_arith);
            vstd::arithmetic::div_mod::lemma_mod_multiples_vanish(w, i, len);
        }
        assert(upper_half(blown) =~= smaller);
        lemma_blow_up_left_eval(vals, (k - 1) as nat, tail, point);
        lemma_eval_split(blown, full);
        let e = mle_eval(smaller, tail + point);
        assert((1 - full[0]) * e + full[0] * e == e) by (nonlinear_arith);
    }
}

/// Taking a power of two off an index that holds it leaves the bits below
/// the power as they were.
pub proof fn lemma_bit_below(i: int, m: nat, j: nat)
    requires
        j < m,
        i >= two_pow(m),
    ensures
        ((i - two_pow(m)) / two_pow(j)) % 2 == (i / two_pow(j)) % 2,
{
    let w = two_pow(j);
    let e = two_pow((m - j - 1) as nat);
    lemma_two_pow_positive(j);
    lemma_two_pow_positive((m - j - 1) as nat);
    lemma_two_pow_adds(j, (m - j) as nat);
    assert(two_pow((m - j) as nat) == 2 * e);
    let d = 2 * e;
    assert(two_pow(m) == w * d);
    let q = i / w;
    let r = i % w;
    vstd::arithmetic::div_mod::lemma_fundamental_div_mod(i, w);
    vstd::arithmetic::div_mod::lemma_mod_pos_bound(i, w);
    assert(i - w * d == (q - d) * w + r) by (nonlinear_arith)
        requires
            i == w * q + r,
    ;
    vstd::arithmetic::div_mod::lemma_fundamental_div_mod_converse(i - w * d, w, q - d, r);
    vstd::arithmetic::div_mod::lemma_mod_multiples_vanish(-e, q, 2);
    assert(2 * (-e) + q == q - d);
}

proof fn lemma_corner_weight_of_prefix(a: Seq<int>, b: Seq<int>, i: int, k: int)
    requires
        0 <= k <= a.len(),
        k <= b.len(),
        forall|j: int| 0 <= j < k ==> a[j] == b[j],
    ensures
        corner_weight(a, i, k) == corner_weight(b, i, k),
    decreases k,
{
    if k > 0 {
        lemma_corner_weight_of_prefix(a, b, i, k - 1);
    }
}

proof fn lemma_corner_weight_below(point: Seq<int>, i: int, m: nat, k: int)
    requires
        0 <= k <= m,
        k <= point.len(),
        i >= two_pow(m),
    ensures
        corner_weight(point, i - two_pow(m), k) == corner_weight(point, i, k),
    decreases k,
{
    if k > 0 {
        lemma_corner_weight_below(point, i, m, k - 1);
        lemma_bit_below(i, m, (k - 1) as nat);
    }
}

/// The weight of a vertex at a point read from the lowest bit is its weight
/// at the reversed point read from the highest bit.
pub proof fn lemma_corner_weight_reversed(point: Seq<int>, i: int)
    requires
        0 <= i < two_pow(point.len()),
    ensures
        corner_weight(point, i, point.len() as int) == chi(point.reverse(), i),
    decreases point.len(),
{
    let n = point.len();
    if n > 0 {
        let m = (n - 1) as nat;
        let half = two_pow(m);
        lemma_two_pow_positive(m);
        let shorter = point.drop_last();
        let turned = point.reverse();
        assert(turned.drop_first() =~= shorter.reverse());
        assert(turned[0] == point[m as int]);
        assert(two_pow(n) == 2 * half);
        if i >= half {
            vstd::arithmetic::div_mod::lemma_fundamental_div_mod_converse(i, half, 1, i - half);
            lemma_corner_weight_reversed(shorter, i - half);
            lemma_corner_weight_of_prefix(point, shorter, i - half, m as int);
            lemma_corner_weight_below(point, i, m, m as int);
            let below = corner_weight(point, i, m as int);
            assert(below * point[m as int] == point[m as int] * below) by (nonlinear_arith);
        } else {
            vstd::arithmetic::div_mod::lemma_basic_div(i, half);
            lemma_corner_weight_reversed(shorter, i);
            lemma_corner_weight_of_prefix(point, shorter, i, m as int);
            let below = corner_weight(point, i, m as int);
            assert(below * (1 - point[m as int]) == (1 - point[m as int]) * below)
                by (nonlinear_arith);
        }
    } else {
        assert(point.reverse().len() == 0);
    }
}

proof fn lemma_point_sum_reversed(vals: Seq<int>, point: Seq<int>, k: int)
    requires
        0 <= k <= two_pow(point.len()),
    ensures
        point_sum(vals, point, k) == weighted_sum(vals, point.reverse(), k),
    decreases k,
{
    if k > 0 {
        lemma_point_sum_reversed(vals, point, k - 1);
        lemma_corner_weight_reversed(point, k - 1);
    }
}

/// What `evaluate` gives at a point is the value of the multilinear
/// extension at the reversed point, the first coordinate read on the highest
/// bit.
pub proof fn lemma_point_eval_reversed(vals: Seq<int>, point: Seq<int>)
    requires
        vals.len() == two_pow(point.len()),
    ensures
        point_eval(vals, point) == mle_eval(vals, point.reverse()),
{
    lemma_point_sum_reversed(vals, point, vals.len() as int);
}

/// A vertex as a point, the highest bit first, ends with the lowest bit of
/// its index after the vertex of the other bits.
pub proof fn lemma_vertex_ends_low(n: nat, i: int)
    requires
        n >= 1,
        0 <= i < two_pow(n),
    ensures
        vertex(n, i) == vertex((n - 1) as nat, i / 2) + seq![i % 2],
    decreases n,
{
    let m = (n - 1) as nat;
    let half = two_pow(m);
    lemma_two_pow_positive(m);
    if n == 1 {
        assert(two_pow(0) == 1);
        assert(vertex(0, i - half) =~= Seq::<int>::empty());
        assert(vertex(0, i) =~= Seq::<int>::empty());
        assert(vertex(0, i / 2) =~= Seq::<int>::empty());
        assert(vertex(n, i) =~= vertex(m, i / 2) + seq![i % 2]);
    } else {
        let quarter = two_pow((m - 1) as nat);
        assert(half == 2 * quarter);
        if i >= half {
            lemma_vertex_ends_low(m, i - half);
            assert((i - half) / 2 == i / 2 - quarter);
            assert((i - half) % 2 == i % 2);
            assert(vertex(n, i) =~= vertex(m, i / 2) + seq![i % 2]);
        } else {
            lemma_vertex_ends_low(m, i);
            assert(vertex(n, i) =~= vertex(m, i / 2) + seq![i % 2]);
        }
    }
}

/// The bits of an index, the lowest first, are the reversed vertex of the
/// index.
pub proof fn lemma_low_bits_reversed(n: nat, i: int)
    requires
        0 <= i < two_pow(n),
    ensures
        low_bits(n, i).len() == n,
        low_bits(n, i).reverse() == vertex(n, i),
    decreases n,
{
    if n == 0 {
        assert(low_bits(n, i).reverse() =~= vertex(n, i));
    } else {
        let m = (n - 1) as nat;
        lemma_two_pow_positive(m);
        lemma_low_bits_reversed(m, i / 2);
        lemma_vertex_ends_low(n, i);
        let tail = low_bits(m, i / 2);
        assert(low_bits(n, i) == seq![i % 2] + tail);
        assert((seq![i % 2] + tail).reverse() =~= tail.reverse() + seq![i % 2]);
    }
}

/// `evaluate` gives at each vertex of the hypercube, as the bits of its
/// index from the lowest on, the value that the table holds at the index.
pub proof fn lemma_point_eval_at_vertex(vals: Seq<int>, n: nat, i: int)
    requires
        vals.len() == two_pow(n),
        0 <= i < vals.len(),
    ensures
        point_eval(vals, low_bits(n, i)) == vals[i],
{
    lemma_low_bits_reversed(n, i);
    lemma_point_eval_reversed(vals, low_bits(n, i));
    lemma_eval_at_vertex(vals, n, i);
}

proof fn lemma_vertex_sum_prefix(vals: Seq<int>, n: nat, k: int)
    requires
        vals.len() == two_pow(n),
        0 <= k <= vals.len(),
    ensures
        vertex_sum(vals, Seq::empty(), n, k) == seq_sum(vals, k),
    decreases k,
{
    if k > 0 {
        lemma_vertex_sum_prefix(vals, n, k - 1);
        lemma_point_eval_at_vertex(vals, n, k - 1);
        assert(Seq::<int>::empty() + low_bits(n, k - 1) =~= low_bits(n, k - 1));
    }
}

/// The sum of the values that `evaluate` gives at the vertices of the
/// hypercube is the sum of the table.
pub proof fn lemma_hypercube_sum(vals: Seq<int>, n: nat)
    requires
        vals.len() == two_pow(n),
    ensures
        vertex_sum(vals, Seq::empty(), n, two_pow(n)) == seq_sum(vals, two_pow(n)),
{
    lemma_vertex_sum_prefix(vals, n, two_pow(n));
}

/// What `partial_evaluate` returns for variable `j`, evaluated by `evaluate`
/// at the other coordinates, is what `evaluate` gives for the table at the
/// point that has the value set as its coordinate `j` and the others around
/// it.
pub proof fn lemma_partial_evaluate_then_evaluate(vals: Seq<int>, j: int, v: int, rest: Seq<int>)
    requires
        vals.len() == two_pow(rest.len() + 1),
        0 <= j <= rest.len(),
    ensures
        fred(point_eval(reduced(fix_variable(vals, two_pow(j as nat), v)), rest)) == fred(
            point_eval(vals, rest.insert(j, v)),
        ),
{
    let turned = rest.reverse();
    let from_top = rest.len() - j;
    let fixed = reduced(fix_variable(vals, two_pow(j as nat), v));
    let whole = rest.insert(j, v);
    lemma_two_pow_positive(rest.len());
    assert(two_pow(rest.len() + 1) == 2 * two_pow(rest.len()));
    assert(fixed.len() == two_pow(rest.len()));
    lemma_point_eval_reversed(fixed, rest);
    lemma_point_eval_reversed(vals, whole);
    assert(turned.len() == rest.len());
    assert((turned.len() - from_top) as nat == j as nat);
    lemma_partial_evaluate_consistent(vals, from_top, v, turned);
    assert(turned.insert(from_top, v) =~= whole.reverse());
}

/// Variables added after the last in the order of the blow-up stand on the
/// lowest bits, so they are the first coordinates of `evaluate`, and
/// `evaluate` does not depend on them.
pub proof fn lemma_blow_up_right_evaluate(
    vals: Seq<int>,
    k: nat,
    extra: Seq<int>,
    point: Seq<int>,
)
    requires
        vals.len() == two_pow(point.len()),
        extra.len() == k,
    ensures
        point_eval(blow_right(vals, k), extra + point) == point_eval(vals, point),
{
    lemma_two_pow_adds(point.len(), k);
    lemma_two_pow_positive(point.len() + k);
    assert((extra + point).len() == point.len() + k);
    assert(blow_right(vals, k).len() == two_pow((extra + point).len()));
    lemma_point_eval_reversed(blow_right(vals, k), extra + point);
    lemma_point_eval_reversed(vals, point);
    assert((extra + point).reverse() =~= point.reverse() + extra.reverse());
    lemma_blow_up_right_eval(vals, k, point.reverse(), extra.reverse());
}

/// Variables added before the first in the order of the blow-up stand on
/// the highest bits, so they are the last coordinates of `evaluate`, and
/// `evaluate` does not depend on them.
pub proof fn lemma_blow_up_left_evaluate(
    vals: Seq<int>,
    k: nat,
    point: Seq<int>,
    extra: Seq<int>,
)
    requires
        vals.len() == two_pow(point.len()),
        extra.len() == k,
    ensures
        point_eval(blow_left(vals, k), point + extra) == point_eval(vals, point),
{
    lemma_two_pow_adds(point.len(), k);
    lemma_two_pow_positive(point.len() + k);
    assert((point + extra).len() == point.len() + k);
    assert(blow_left(vals, k).len() == two_pow((point + extra).len()));
    lemma_point_eval_reversed(blow_left(vals, k), point + extra);
    lemma_point_eval_reversed(vals, point);
    assert((point + extra).reverse() =~= extra.reverse() + point.reverse());
    lemma_blow_up_left_eval(vals, k, extra.reverse(), point.reverse());
}

proof fn lemma_weighted_sum_of_sum(a: Seq<int>, b: Seq<int>, point: Seq<int>, k: int)
    requires
        a.len() == b.len(),
        0 <= k <= a.len(),
    ensures
        weighted_sum(pointwise_sum(a, b), point, k) == weighted_sum(a, point, k) + weighted_sum(
            b,
            point,
            k,
        ),
    decreases k,
{
    if k > 0 {
        lemma_weighted_sum_of_sum(a, b, point, k - 1);
        let c = chi(point, k - 1);
        assert((a[k - 1] + b[k - 1]) * c == a[k - 1] * c + b[k - 1] * c) by (nonlinear_arith);
    }
}

/// The sum of two polynomials evaluates to the sum of what they evaluate
/// to.
pub proof fn lemma_eval_of_sum(a: Seq<int>, b: Seq<int>, point: Seq<int>)
    requires
        a.len() == b.len(),
    ensures
        mle_eval(pointwise_sum(a, b), point) == mle_eval(a, point) + mle_eval(b, point),
{
    lemma_weighted_sum_of_sum(a, b, point, a.len() as int);
}

proof fn lemma_weighted_sum_scaled(a: Seq<int>, c: int, point: Seq<int>, k: int)
    requires
        0 <= k <= a.len(),
    ensures
        weighted_sum(scaled(a, c), point, k) == weighted_sum(a, point, k) * c,
    decreases k,
{
    if k > 0 {
        lemma_weighted_sum_scaled(a, c, point, k - 1);
        let w = chi(point, k - 1);
        let s = weighted_sum(a, point, k - 1);
        assert(s * c + (a[k - 1] * c) * w == (s + a[k - 1] * w) * c) by (nonlinear_arith);
    } else {
        assert(0 * c == 0);
    }
}

/// A polynomial times a scalar evaluates to what it evaluates to times the
/// scalar.
pub proof fn lemma_eval_scaled(a: Seq<int>, c: int, point: Seq<int>)
    ensures
        mle_eval(scaled(a, c), point) == mle_eval(a, point) * c,
{
    lemma_weighted_sum_scaled(a, c, point, a.len() as int);
}

/// The table over the variables of `a` followed by those of `b` that holds
/// at each pair of vertices the product of the values of `a` and `b`.
pub open spec fn tensor(a: Seq<int>, b: Seq<int>) -> Seq<int> {
    Seq::new(
        (a.len() * b.len()) as nat,
        |i: int| a[i / (b.len() as int)] * b[i % (b.len() as int)],
    )
}

/// The product of a polynomial in some variables and one in others
/// evaluates to the product of what they evaluate to.
pub proof fn lemma_eval_tensor(a: Seq<int>, b: Seq<int>, p: Seq<int>, q: Seq<int>)
    requires
        a.len() == two_pow(p.len()),
        b.len() == two_pow(q.len()),
    ensures
        mle_eval(tensor(a, b), p + q) == mle_eval(a, p) * mle_eval(b, q),
    decreases p.len(),
{
    let t = tensor(a, b);
    let w = b.len() as int;
    lemma_two_pow_positive(q.len());
    lemma_two_pow_positive(p.len());
    if p.len() == 0 {
        assert(p + q =~= q);
        assert(a.len() == 1);
        assert(1 * w == w);
        assert forall|i: int| 0 <= i < w implies t[i] == scaled(b, a[0])[i] by {
            vstd::arithmetic::div_mod::lemma_basic_div(i, w);
            vstd::arithmetic::div_mod::lemma_small_mod(i as nat, w as nat);
            assert(a[0] * b[i] == b[i] * a[0]) by (nonlinear_arith);
        }
        assert(t =~= scaled(b, a[0]));
        lemma_eval_scaled(b, a[0], q);
        assert(weighted_sum(a, p, 0) == 0);
        assert(chi(p, 0) == 1);
        assert(a[0] * 1 == a[0]);
        assert(mle_eval(a, p) == a[0]);
        assert(mle_eval(b, q) * a[0] == a[0] * mle_eval(b, q)) by (nonlinear_arith);
    } else {
        let m = (p.len() - 1) as nat;
        let h = two_pow(m);
        lemma_two_pow_positive(m);
        lemma_two_pow_adds(p.len(), q.len());
        let full = p + q;
        let tail = p.drop_first();
        assert(full.drop_first() =~= tail + q);
        assert(full[0] == p[0]);
        assert(a.len() == 2 * h);
        assert(t.len() == 2 * (h * w)) by (nonlinear_arith)
            requires
                t.len() == (2 * h) * w,
        ;
        assert(t.len() == two_pow(full.len()));
        let lo = lower_half(a);
        let hi = upper_half(a);
        assert(lo.len() * w == h * w);
        assert forall|i: int| 0 <= i < h * w implies #[trigger] lower_half(t)[i] == tensor(lo, b)[i] by {
            assert(h * w == w * h) by (nonlinear_arith);
            vstd::arithmetic::div_mod::lemma_div_pos_is_pos(i, w);
            vstd::arithmetic::div_mod::lemma_multiply_divide_lt(i, w, h);
        }
        assert(lower_half(t) =~= tensor(lo, b));
        assert forall|i: int| 0 <= i < h * w implies #[trigger] upper_half(t)[i] == tensor(hi, b)[i] by {
            assert(h * w == w * h) by (nonlinear_arith);
            vstd::arithmetic::div_mod::lemma_div_pos_is_pos(i, w);
            vstd::arithmetic::div_mod::lemma_multiply_divide_lt(i, w, h);
            vstd::arithmetic::div_mod::lemma_fundamental_div_mod(i, w);
            vstd::arithmetic::div_mod::lemma_mod_pos_bound(i, w);
            assert(i + h * w == (i / w + h) * w + i % w) by (nonlinear_arith)
                requires
                    i == w * (i / w) + i % w,
            ;
            vstd::arithmetic::div_mod::lemma_fundamental_div_mod_converse(
                i + h * w,
                w,
                i / w + h,
                i % w,
            );
            assert(upper_half(t)[i] == t[i + h * w]);
        }
        assert(upper_half(t) =~= tensor(hi, b));
        lemma_eval_tensor(lo, b, tail, q);
        lemma_eval_tensor(hi, b, tail, q);
        lemma_eval_split(t, full);
        lemma_eval_split(a, p);
        let el = mle_eval(lo, tail);
        let eh = mle_eval(hi, tail);
        let eb = mle_eval(b, q);
        assert((1 - p[0]) * (el * eb) + p[0] * (eh * eb) == ((1 - p[0]) * el + p[0] * eh) * eb)
            by (nonlinear_arith);
    }
}

} // verus!
