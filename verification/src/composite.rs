//! Composite expressions: operands joined by `ADD` and `MUL`, where `MUL`
//! binds tighter. An expression is reduced in two passes, first to postfix
//! order and then to one value, and its operands are either all scalars or
//! all polynomials in the same variables.

use vstd::prelude::*;
use crate::field::FieldElement;
use crate::field::fred;
use crate::field::values;
use crate::field::lemma_fred_basics;
use crate::field::lemma_add_congruent;
use crate::field::lemma_mul_congruent;
use crate::field::lemma_view_range;
use crate::powers::two_pow;
use crate::powers::log2_floor;
use crate::powers::is_power_of_two;
use crate::powers::exact_log2;
use crate::multilinear::MultivariatePoly;
use crate::multilinear::mle_eval;
use crate::multilinear::fix_variable;
use crate::field::reduced;
use crate::multilinear::copy_table;

verus! {

/// An operator of an expression.
#[allow(non_camel_case_types)]
#[derive(Clone, Copy, Debug, PartialEq, Eq, Structural)]
pub enum OP {
    ADD,
    MUL,
}

/// How tightly an operator binds.
pub open spec fn precedence(op: OP) -> int {
    match op {
        OP::ADD => 0,
        OP::MUL => 1,
    }
}

/// What an operator makes of two integers.
pub open spec fn apply_op(op: OP, a: int, b: int) -> int {
    match op {
        OP::ADD => a + b,
        OP::MUL => a * b,
    }
}

/// The product of the run of factors that ends with operand `k`: the operands
/// back to the nearest `ADD` before it.
pub open spec fn term_at(vals: Seq<int>, ops: Seq<OP>, k: int) -> int
    decreases k,
{
    if k <= 0 {
        vals[0]
    } else if ops[k - 1] == OP::MUL {
        term_at(vals, ops, k - 1) * vals[k]
    } else {
        vals[k]
    }
}

/// The sum of the products that are complete before the run of operand `k`.
pub open spec fn sum_before(vals: Seq<int>, ops: Seq<OP>, k: int) -> int
    decreases k,
{
    if k <= 0 {
        0
    } else if ops[k - 1] == OP::MUL {
        sum_before(vals, ops, k - 1)
    } else {
        sum_before(vals, ops, k - 1) + term_at(vals, ops, k - 1)
    }
}

/// The value of the operands `0..=k` joined by the operators before operand
/// `k`, products first.
pub open spec fn prefix_value(vals: Seq<int>, ops: Seq<OP>, k: int) -> int {
    sum_before(vals, ops, k) + term_at(vals, ops, k)
}

/// The value of `vals[0] ops[0] vals[1] ops[1] ...`, products first.
pub open spec fn expr_value(vals: Seq<int>, ops: Seq<OP>) -> int {
    prefix_value(vals, ops, ops.len() as int)
}

/// An entry of an expression in postfix order: an operand, by its place
/// among the operands, or an operator.
#[derive(Clone, Copy, Debug, PartialEq, Eq, Structural)]
pub enum PostfixToken {
    Operand(usize),
    Operator(OP),
}

/// The stack that reading a postfix expression from the left leaves behind:
/// an operand is pushed, an operator replaces the two values on top by what
/// it makes of them.
pub open spec fn postfix_stack(tokens: Seq<PostfixToken>, vals: Seq<int>) -> Seq<int>
    decreases tokens.len(),
{
    if tokens.len() == 0 {
        Seq::empty()
    } else {
        let below = postfix_stack(tokens.drop_last(), vals);
        match tokens.last() {
            PostfixToken::Operand(k) => below.push(vals[k as int]),
            PostfixToken::Operator(op) => if below.len() >= 2 {
                below.drop_last().drop_last().push(
                    apply_op(op, below[below.len() - 2], below[below.len() - 1]),
                )
            } else {
                below
            },
        }
    }
}

/// How many values reading a postfix expression leaves on the stack, if no
/// operator ever finds fewer than two and every operand exists.
pub open spec fn postfix_depth(tokens: Seq<PostfixToken>, operands: int) -> Option<int>
    decreases tokens.len(),
{
    if tokens.len() == 0 {
        Some(0)
    } else {
        match postfix_depth(tokens.drop_last(), operands) {
            None => None,
            Some(d) => match tokens.last() {
                PostfixToken::Operand(k) => if k < operands {
                    Some(d + 1)
                } else {
                    None
                },
                PostfixToken::Operator(op) => if d >= 2 {
                    Some(d - 1)
                } else {
                    None
                },
            },
        }
    }
}

/// How tightly an operator binds.
#[allow(non_snake_case)]
pub fn getPrecedence(op: &OP) -> (r: u8)
    ensures
        r == precedence(*op),
{
    match op {
        OP::ADD => 0,
        OP::MUL => 1,
    }
}

/// What one more token does to the stack and to the depth.
proof fn lemma_postfix_push(tokens: Seq<PostfixToken>, t: PostfixToken, vals: Seq<int>)
    ensures
        postfix_stack(tokens.push(t), vals) == (match t {
            PostfixToken::Operand(k) => postfix_stack(tokens, vals).push(vals[k as int]),
            PostfixToken::Operator(op) => {
                let below = postfix_stack(tokens, vals);
                if below.len() >= 2 {
                    below.drop_last().drop_last().push(
                        apply_op(op, below[below.len() - 2], below[below.len() - 1]),
                    )
                } else {
                    below
                }
            },
        }),
        postfix_depth(tokens.push(t), vals.len() as int) == (match postfix_depth(
            tokens,
            vals.len() as int,
        ) {
            None => None,
            Some(d) => match t {
                PostfixToken::Operand(k) => if k < vals.len() {
                    Some(d + 1)
                } else {
                    None
                },
                PostfixToken::Operator(op) => if d >= 2 {
                    Some(d - 1)
                } else {
                    None
                },
            },
        }),
{
    assert(tokens.push(t).drop_last() =~= tokens);
    assert(tokens.push(t).last() == t);
}

/// The stack between two operands, when operand `k` comes next: under a
/// waiting `ADD` lies the sum of the finished products, under a waiting `MUL`
/// the running product.
pub open spec fn between_operands(
    stack: Seq<int>,
    waiting: Seq<OP>,
    vals: Seq<int>,
    ops: Seq<OP>,
    k: int,
) -> bool {
    if k == 0 {
        waiting.len() == 0 && stack.len() == 0
    } else if waiting.len() == 1 && waiting[0] == OP::ADD {
        ops[k - 1] == OP::ADD && stack == seq![sum_before(vals, ops, k)]
    } else if waiting.len() == 1 && waiting[0] == OP::MUL {
        ops[k - 1] == OP::MUL && sum_before(vals, ops, k) == 0 && stack == seq![
            term_at(vals, ops, k - 1),
        ]
    } else {
        waiting.len() == 2 && waiting[0] == OP::ADD && waiting[1] == OP::MUL && ops[k - 1]
            == OP::MUL && stack == seq![sum_before(vals, ops, k), term_at(vals, ops, k - 1)]
    }
}

/// The stack once operand `k` is out and some waiting operators may have
/// followed it.
pub open spec fn after_operand(
    stack: Seq<int>,
    waiting: Seq<OP>,
    vals: Seq<int>,
    ops: Seq<OP>,
    k: int,
) -> bool {
    if waiting.len() == 0 {
        stack == seq![prefix_value(vals, ops, k)] && (k < ops.len() && ops[k] == OP::MUL
            ==> sum_before(vals, ops, k) == 0)
    } else if waiting.len() == 1 && waiting[0] == OP::ADD {
        stack == seq![sum_before(vals, ops, k), term_at(vals, ops, k)]
    } else if waiting.len() == 1 && waiting[0] == OP::MUL {
        k >= 1 && ops[k - 1] == OP::MUL && sum_before(vals, ops, k) == 0 && stack == seq![
            term_at(vals, ops, k - 1),
            vals[k],
        ]
    } else {
        waiting.len() == 2 && waiting[0] == OP::ADD && waiting[1] == OP::MUL && k >= 1 && ops[k
            - 1] == OP::MUL && stack == seq![
            sum_before(vals, ops, k),
            term_at(vals, ops, k - 1),
            vals[k],
        ]
    }
}

/// The first pass: the operands `0..=ops.len()` and the operators between
/// them, in postfix order. An operator waits on a stack until one that binds
/// no tighter follows it.
pub fn to_postfix(ops: &Vec<OP>) -> (r: Vec<PostfixToken>)
    requires
        ops@.len() < usize::MAX,
    ensures
        postfix_depth(r@, (ops@.len() + 1) as int) == Some(1int),
        forall|vals: Seq<int>|
            vals.len() == ops@.len() + 1 ==> #[trigger] postfix_stack(r@, vals) == seq![
                expr_value(vals, ops@),
            ],
{
    let n = ops.len() + 1;
    let mut output: Vec<PostfixToken> = Vec::new();
    let mut waiting: Vec<OP> = Vec::new();
    let mut k: usize = 0;
    while k < ops.len()
        invariant
            k <= ops@.len(),
            n == ops@.len() + 1,
            postfix_depth(output@, n as int) == Some(waiting@.len() as int),
            forall|vals: Seq<int>|
                vals.len() == n ==> between_operands(
                    #[trigger] postfix_stack(output@, vals),
                    waiting@,
                    vals,
                    ops@,
                    k as int,
                ),
        decreases ops@.len() - k,
    {
        let ghost before = output@;
        output.push(PostfixToken::Operand(k));
        proof {
            lemma_operand_out(before, waiting@, ops@, k as int, n as int);
        }
        let next = ops[k];
        let p = getPrecedence(&next);
        while waiting.len() > 0 && getPrecedence(&waiting[waiting.len() - 1]) >= p
            invariant
                k < ops@.len(),
                n == ops@.len() + 1,
                next == ops@[k as int],
                p == precedence(next),
                waiting@.len() <= 2,
                postfix_depth(output@, n as int) == Some((waiting@.len() + 1) as int),
                forall|vals: Seq<int>|
                    vals.len() == n ==> after_operand(
                        #[trigger] postfix_stack(output@, vals),
                        waiting@,
                        vals,
                        ops@,
                        k as int,
                    ),
            decreases waiting@.len(),
        {
            let ghost out_before = output@;
            let ghost wait_before = waiting@;
            let top = waiting.pop().unwrap();
            output.push(PostfixToken::Operator(top));
            proof {
                lemma_emit(out_before, wait_before, ops@, k as int, n as int);
            }
        }
        proof {
            let zero = Seq::new(n as nat, |i: int| 0int);
            assert(after_operand(postfix_stack(output@, zero), waiting@, zero, ops@, k as int));
        }
        let ghost wait_before = waiting@;
        waiting.push(next);
        proof {
            assert forall|vals: Seq<int>| vals.len() == n implies between_operands(
                #[trigger] postfix_stack(output@, vals),
                waiting@,
                vals,
                ops@,
                k + 1,
            ) by {
                assert(after_operand(
                    postfix_stack(output@, vals),
                    wait_before,
                    vals,
                    ops@,
                    k as int,
                ));
            }
        }
        k = k + 1;
    }
    let ghost before = output@;
    output.push(PostfixToken::Operand(k));
    proof {
        lemma_operand_out(before, waiting@, ops@, k as int, n as int);
    }
    while waiting.len() > 0
        invariant
            k == ops@.len(),
            n == ops@.len() + 1,
            waiting@.len() <= 2,
            postfix_depth(output@, n as int) == Some((waiting@.len() + 1) as int),
            forall|vals: Seq<int>|
                vals.len() == n ==> after_operand(
                    #[trigger] postfix_stack(output@, vals),
                    waiting@,
                    vals,
                    ops@,
                    k as int,
                ),
        decreases waiting@.len(),
    {
        let ghost out_before = output@;
        let ghost wait_before = waiting@;
        let top = waiting.pop().unwrap();
        output.push(PostfixToken::Operator(top));
        proof {
            lemma_emit(out_before, wait_before, ops@, k as int, n as int);
        }
    }
    proof {
        assert forall|vals: Seq<int>| vals.len() == n implies #[trigger] postfix_stack(
            output@,
            vals,
        ) == seq![expr_value(vals, ops@)] by {
            assert(after_operand(postfix_stack(output@, vals), waiting@, vals, ops@, k as int));
        }
    }
    output
}

/// What sending operand `k` to the output does to the stack of values.
proof fn lemma_operand_out(
    tokens: Seq<PostfixToken>,
    waiting: Seq<OP>,
    ops: Seq<OP>,
    k: int,
    n: int,
)
    requires
        0 <= k <= ops.len(),
        k <= usize::MAX,
        n == ops.len() + 1,
        postfix_depth(tokens, n) == Some(waiting.len() as int),
        forall|vals: Seq<int>|
            vals.len() == n ==> between_operands(
                #[trigger] postfix_stack(tokens, vals),
                waiting,
                vals,
                ops,
                k,
            ),
    ensures
        waiting.len() <= 2,
        postfix_depth(tokens.push(PostfixToken::Operand(k as usize)), n) == Some(
            (waiting.len() + 1) as int,
        ),
        forall|vals: Seq<int>|
            vals.len() == n ==> after_operand(
                #[trigger] postfix_stack(tokens.push(PostfixToken::Operand(k as usize)), vals),
                waiting,
                vals,
                ops,
                k,
            ),
{
    let t = PostfixToken::Operand(k as usize);
    let zero = Seq::new(n as nat, |i: int| 0int);
    lemma_postfix_push(tokens, t, zero);
    assert(between_operands(postfix_stack(tokens, zero), waiting, zero, ops, k));
    assert forall|vals: Seq<int>| vals.len() == n implies after_operand(
        #[trigger] postfix_stack(tokens.push(t), vals),
        waiting,
        vals,
        ops,
        k,
    ) by {
        lemma_postfix_push(tokens, t, vals);
        let st = postfix_stack(tokens, vals);
        assert(between_operands(st, waiting, vals, ops, k));
        if k == 0 {
            assert(st.push(vals[0]) =~= seq![vals[0]]);
        } else if waiting.len() == 1 && waiting[0] == OP::ADD {
            assert(st.push(vals[k]) =~= seq![sum_before(vals, ops, k), term_at(vals, ops, k)]);
        } else if waiting.len() == 1 && waiting[0] == OP::MUL {
            assert(st.push(vals[k]) =~= seq![term_at(vals, ops, k - 1), vals[k]]);
        } else {
            assert(st.push(vals[k]) =~= seq![
                sum_before(vals, ops, k),
                term_at(vals, ops, k - 1),
                vals[k],
            ]);
        }
    }
}

/// What sending the operator on top of the waiting stack to the output does:
/// the stack of values keeps matching the operators that still wait.
proof fn lemma_emit(tokens: Seq<PostfixToken>, waiting: Seq<OP>, ops: Seq<OP>, k: int, n: int)
    requires
        0 <= k <= ops.len(),
        n == ops.len() + 1,
        1 <= waiting.len() <= 2,
        k < ops.len() ==> precedence(waiting.last()) >= precedence(ops[k]),
        postfix_depth(tokens, n) == Some((waiting.len() + 1) as int),
        forall|vals: Seq<int>|
            vals.len() == n ==> after_operand(
                #[trigger] postfix_stack(tokens, vals),
                waiting,
                vals,
                ops,
                k,
            ),
    ensures
        postfix_depth(tokens.push(PostfixToken::Operator(waiting.last())), n) == Some(
            waiting.len() as int,
        ),
        forall|vals: Seq<int>|
            vals.len() == n ==> after_operand(
                #[trigger] postfix_stack(
                    tokens.push(PostfixToken::Operator(waiting.last())),
                    vals,
                ),
                waiting.drop_last(),
                vals,
                ops,
                k,
            ),
{
    let t = PostfixToken::Operator(waiting.last());
    let zero = Seq::new(n as nat, |i: int| 0int);
    lemma_postfix_push(tokens, t, zero);
    assert forall|vals: Seq<int>| vals.len() == n implies after_operand(
        #[trigger] postfix_stack(tokens.push(t), vals),
        waiting.drop_last(),
        vals,
        ops,
        k,
    ) by {
        lemma_postfix_push(tokens, t, vals);
        let st = postfix_stack(tokens, vals);
        assert(after_operand(st, waiting, vals, ops, k));
        let after = postfix_stack(tokens.push(t), vals);
        if waiting.len() == 1 && waiting[0] == OP::ADD {
            assert(after =~= seq![prefix_value(vals, ops, k)]);
        } else if waiting.len() == 1 {
            assert(waiting[0] == OP::MUL);
            assert(after =~= seq![term_at(vals, ops, k)]);
        } else {
            assert(after =~= seq![sum_before(vals, ops, k), term_at(vals, ops, k)]);
            assert(waiting.drop_last() =~= seq![OP::ADD]);
        }
    }
}

/// An entry of an expression: a scalar, an operator or a polynomial.
#[allow(non_camel_case_types)]
#[derive(Clone, Debug)]
pub enum OP_ELEMENT {
    Value(FieldElement),
    OP(OP),
    Poly(MultivariatePoly),
}

/// An operand of an expression: a scalar or a polynomial.
#[allow(non_camel_case_types)]
#[derive(Clone, Debug)]
pub enum Poly_or_F {
    Value(FieldElement),
    Poly(MultivariatePoly),
}

/// Why an expression has no value.
#[derive(Clone, Copy, Debug, PartialEq, Eq, Structural)]
pub enum ExpressionError {
    /// The operators are not one fewer than the operands.
    OperatorCount,
    /// An operator stands where an operand belongs.
    OperatorAsOperand,
    /// Scalars and polynomials stand side by side.
    MixedOperands,
    /// Two polynomials differ in their number of variables.
    SizeMismatch,
}

/// The number of entries of an operand of a shape: one for a scalar, one for
/// each vertex of the hypercube for a polynomial.
pub open spec fn shape_width(shape: Option<usize>) -> int {
    match shape {
        None => 1,
        Some(n) => two_pow(n as nat),
    }
}

impl Poly_or_F {
    /// Nothing for a scalar, the number of variables for a polynomial.
    pub open spec fn shape(&self) -> Option<usize> {
        match self {
            Poly_or_F::Value(_) => None,
            Poly_or_F::Poly(p) => Some(p.num_vars),
        }
    }

    /// A polynomial holds one value for each vertex of its hypercube.
    pub open spec fn wf(&self) -> bool {
        match self {
            Poly_or_F::Value(_) => true,
            Poly_or_F::Poly(p) => p.wf(),
        }
    }

    /// Entry `i` of the operand: the scalar itself, or the value of the
    /// polynomial at vertex `i`.
    pub open spec fn entry(&self, i: int) -> int {
        match self {
            Poly_or_F::Value(x) => x@,
            Poly_or_F::Poly(p) => p.coeffs@[i]@,
        }
    }

    /// The sum of two operands of one shape, entry by entry.
    pub fn add(&self, other: &Poly_or_F) -> (r: Poly_or_F)
        requires
            self.wf(),
            other.wf(),
            self.shape() == other.shape(),
        ensures
            r.wf(),
            r.shape() == self.shape(),
            forall|i: int|
                0 <= i < shape_width(self.shape()) ==> #[trigger] r.entry(i) == fred(
                    self.entry(i) + other.entry(i),
                ),
    {
        match self {
            Poly_or_F::Value(value) => Poly_or_F::Value(value.add(&get_F(other))),
            Poly_or_F::Poly(poly) => {
                let sum = poly.add(get_poly(other));
                proof {
                    assert forall|i: int| 0 <= i < two_pow(poly.num_vars as nat) implies (
                    #[trigger] sum.coeffs@[i])@ == fred(
                        self.entry(i) + other.entry(i),
                    ) by {
                        assert(sum.values()[i] == fred(self.entry(i) + other.entry(i)));
                    }
                }
                Poly_or_F::Poly(sum)
            },
        }
    }

    /// The product of two operands of one shape, entry by entry.
    pub fn mul(&self, other: &Poly_or_F) -> (r: Poly_or_F)
        requires
            self.wf(),
            other.wf(),
            self.shape() == other.shape(),
        ensures
            r.wf(),
            r.shape() == self.shape(),
            forall|i: int|
                0 <= i < shape_width(self.shape()) ==> #[trigger] r.entry(i) == fred(
                    self.entry(i) * other.entry(i),
                ),
    {
        match self {
            Poly_or_F::Value(value) => Poly_or_F::Value(value.mul(&get_F(other))),
            Poly_or_F::Poly(poly) => {
                let product = poly.mul(get_poly(other));
                proof {
                    assert forall|i: int| 0 <= i < two_pow(poly.num_vars as nat) implies (
                    #[trigger] product.coeffs@[i])@ == fred(
                        self.entry(i) * other.entry(i),
                    ) by {
                        assert(product.values()[i] == fred(self.entry(i) * other.entry(i)));
                    }
                }
                Poly_or_F::Poly(product)
            },
        }
    }
}

/// The polynomial that an operand holds.
pub fn get_poly(poly: &Poly_or_F) -> (r: &MultivariatePoly)
    requires
        poly is Poly,
    ensures
        *r == poly->Poly_0,
{
    match poly {
        Poly_or_F::Poly(x) => x,
        Poly_or_F::Value(_) => vstd::pervasive::unreached(),
    }
}

/// The scalar that an operand holds.
#[allow(non_snake_case)]
pub fn get_F(f: &Poly_or_F) -> (r: FieldElement)
    requires
        f is Value,
    ensures
        r == f->Value_0,
{
    match f {
        Poly_or_F::Value(x) => *x,
        Poly_or_F::Poly(_) => vstd::pervasive::unreached(),
    }
}

impl OP_ELEMENT {
    /// Nothing for a scalar or an operator, the number of variables for a
    /// polynomial.
    pub open spec fn shape(&self) -> Option<usize> {
        match self {
            OP_ELEMENT::Poly(p) => Some(p.num_vars),
            _ => None,
        }
    }

    /// A polynomial holds one value for each vertex of its hypercube.
    pub open spec fn wf(&self) -> bool {
        match self {
            OP_ELEMENT::Poly(p) => p.wf(),
            _ => true,
        }
    }

    /// Entry `i` of an operand: the scalar itself, or the value of the
    /// polynomial at vertex `i`.
    pub open spec fn entry(&self, i: int) -> int {
        match self {
            OP_ELEMENT::Value(x) => x@,
            OP_ELEMENT::OP(_) => 0,
            OP_ELEMENT::Poly(p) => p.coeffs@[i]@,
        }
    }
}

/// Entry `i` of each operand.
pub open spec fn column(operands: Seq<OP_ELEMENT>, i: int) -> Seq<int> {
    Seq::new(operands.len(), |k: int| operands[k].entry(i))
}

/// Whether every entry is an operand of the given shape.
pub open spec fn operands_of_shape(operands: Seq<OP_ELEMENT>, shape: Option<usize>) -> bool {
    forall|k: int|
        0 <= k < operands.len() ==> !(#[trigger] operands[k] is OP) && operands[k].shape()
            == shape && operands[k].wf()
}

/// Whether entry `i` of each operand on a stack is the canonical
/// representative of the integer at its place in `target`.
pub open spec fn stack_matches(stack: Seq<Poly_or_F>, target: Seq<int>, i: int) -> bool {
    stack.len() == target.len() && forall|k: int|
        0 <= k < stack.len() ==> (#[trigger] stack[k]).entry(i) == fred(target[k])
}

/// The operand at a place of a list.
pub fn get_value(list: &Vec<OP_ELEMENT>, index: usize) -> (r: Poly_or_F)
    requires
        index < list@.len(),
        !(list@[index as int] is OP),
    ensures
        r.shape() == list@[index as int].shape(),
        r.wf() == list@[index as int].wf(),
        forall|i: int| r.entry(i) == list@[index as int].entry(i),
{
    match &list[index] {
        OP_ELEMENT::Value(value) => Poly_or_F::Value(*value),
        OP_ELEMENT::Poly(poly) => Poly_or_F::Poly(poly.copy()),
        OP_ELEMENT::OP(_) => vstd::pervasive::unreached(),
    }
}

/// The operator at a place of a list.
pub fn get_op(list: &Vec<OP_ELEMENT>, index: usize) -> (r: OP)
    requires
        index < list@.len(),
        list@[index as int] is OP,
    ensures
        r == list@[index as int]->OP_0,
{
    match &list[index] {
        OP_ELEMENT::OP(operator) => *operator,
        _ => vstd::pervasive::unreached(),
    }
}

/// Every prefix of a well-formed postfix expression is well-formed.
proof fn lemma_prefix_depth(tokens: Seq<PostfixToken>, operands: int, t: int)
    requires
        postfix_depth(tokens, operands) is Some,
        0 <= t <= tokens.len(),
    ensures
        postfix_depth(tokens.subrange(0, t), operands) is Some,
    decreases tokens.len(),
{
    if t == tokens.len() {
        assert(tokens.subrange(0, t) =~= tokens);
    } else {
        lemma_prefix_depth(tokens.drop_last(), operands, t);
        assert(tokens.drop_last().subrange(0, t) =~= tokens.subrange(0, t));
    }
}

/// The second pass: the value of a postfix expression, entry by entry. An
/// operand is pushed on a stack, and an operator replaces the two operands on
/// top by what it makes of them.
pub fn eval_postfix(tokens: &Vec<PostfixToken>, operands: &Vec<OP_ELEMENT>) -> (r: Poly_or_F)
    requires
        operands@.len() >= 1,
        operands_of_shape(operands@, operands@[0].shape()),
        postfix_depth(tokens@, operands@.len() as int) == Some(1int),
    ensures
        r.wf(),
        r.shape() == operands@[0].shape(),
        forall|i: int|
            0 <= i < shape_width(operands@[0].shape()) ==> #[trigger] r.entry(i) == fred(
                postfix_stack(tokens@, column(operands@, i))[0],
            ),
{
    let ghost shape = operands@[0].shape();
    let ghost count = operands@.len() as int;
    let mut stack: Vec<Poly_or_F> = Vec::new();
    let mut t: usize = 0;
    proof {
        assert(tokens@.subrange(0, 0) =~= Seq::<PostfixToken>::empty());
    }
    while t < tokens.len()
        invariant
            t <= tokens@.len(),
            count == operands@.len(),
            shape == operands@[0].shape(),
            operands_of_shape(operands@, shape),
            postfix_depth(tokens@, count) == Some(1int),
            postfix_depth(tokens@.subrange(0, t as int), count) == Some(stack@.len() as int),
            forall|k: int|
                0 <= k < stack@.len() ==> (#[trigger] stack@[k]).wf() && stack@[k].shape()
                    == shape,
            forall|i: int|
                0 <= i < shape_width(shape) ==> stack_matches(
                    stack@,
                    #[trigger] postfix_stack(
                        tokens@.subrange(0, t as int),
                        column(operands@, i),
                    ),
                    i,
                ),
        decreases tokens@.len() - t,
    {
        let ghost before = tokens@.subrange(0, t as int);
        let ghost after = tokens@.subrange(0, t + 1);
        let ghost old_stack = stack@;
        let token = tokens[t];
        proof {
            assert(after =~= before.push(token));
            lemma_prefix_depth(tokens@, count, t + 1);
            lemma_postfix_push(before, token, column(operands@, 0));
        }
        match token {
            PostfixToken::Operand(k) => {
                let operand = get_value(operands, k);
                stack.push(operand);
                proof {
                    assert forall|i: int| 0 <= i < shape_width(shape) implies stack_matches(
                        stack@,
                        #[trigger] postfix_stack(after, column(operands@, i)),
                        i,
                    ) by {
                        let col = column(operands@, i);
                        lemma_postfix_push(before, token, col);
                        assert(stack_matches(old_stack, postfix_stack(before, col), i));
                        match operands@[k as int] {
                            OP_ELEMENT::Value(x) => {
                                lemma_view_range(x);
                            },
                            OP_ELEMENT::Poly(p) => {
                                lemma_view_range(p.coeffs@[i]);
                            },
                            OP_ELEMENT::OP(_) => {},
                        }
                        lemma_fred_basics(col[k as int]);
                    }
                }
            },
            PostfixToken::Operator(op) => {
                let right = stack.pop().unwrap();
                let left = stack.pop().unwrap();
                let result = match op {
                    OP::ADD => left.add(&right),
                    OP::MUL => left.mul(&right),
                };
                stack.push(result);
                proof {
                    let d = old_stack.len() as int;
                    assert(left == old_stack[d - 2]);
                    assert(right == old_stack[d - 1]);
                    assert forall|i: int| 0 <= i < shape_width(shape) implies stack_matches(
                        stack@,
                        #[trigger] postfix_stack(after, column(operands@, i)),
                        i,
                    ) by {
                        let col = column(operands@, i);
                        lemma_postfix_push(before, token, col);
                        let below = postfix_stack(before, col);
                        assert(stack_matches(old_stack, below, i));
                        let a = below[d - 2];
                        let b = below[d - 1];
                        lemma_fred_basics(a);
                        lemma_fred_basics(b);
                        lemma_add_congruent(left.entry(i), a, right.entry(i), b);
                        lemma_mul_congruent(left.entry(i), a, right.entry(i), b);
                        assert(result.entry(i) == fred(apply_op(op, a, b)));
                    }
                }
            },
        }
        t = t + 1;
    }
    proof {
        assert(tokens@.subrange(0, t as int) =~= tokens@);
    }
    stack.pop().unwrap()
}

/// Why a list of operands and operators has no value, if it has none: the
/// first failure in the order of the variants.
pub open spec fn expression_error(operands: Seq<OP_ELEMENT>, ops: Seq<OP>) -> Option<
    ExpressionError,
> {
    if operands.len() != ops.len() + 1 {
        Some(ExpressionError::OperatorCount)
    } else if exists|k: int| 0 <= k < operands.len() && #[trigger] operands[k] is OP {
        Some(ExpressionError::OperatorAsOperand)
    } else if exists|k: int|
        0 <= k < operands.len() && (#[trigger] operands[k] is Poly) != (operands[0] is Poly) {
        Some(ExpressionError::MixedOperands)
    } else if exists|k: int|
        0 <= k < operands.len() && (#[trigger] operands[k]).shape() != operands[0].shape() {
        Some(ExpressionError::SizeMismatch)
    } else {
        None
    }
}

/// The value of `values[0] ops[0] values[1] ops[1] ...` with products first,
/// entry by entry: the operators go to postfix order, and the postfix
/// expression is then reduced to one operand.
pub fn shunting_yard_algo(values: &Vec<OP_ELEMENT>, ops: &Vec<OP>) -> (r: Result<
    OP_ELEMENT,
    ExpressionError,
>)
    requires
        forall|k: int| 0 <= k < values@.len() ==> (#[trigger] values@[k]).wf(),
    ensures
        match r {
            Ok(e) => expression_error(values@, ops@) is None && !(e is OP) && e.wf() && e.shape()
                == values@[0].shape() && forall|i: int|
                0 <= i < shape_width(e.shape()) ==> #[trigger] e.entry(i) == fred(
                    expr_value(column(values@, i), ops@),
                ),
            Err(err) => expression_error(values@, ops@) == Some(err),
        },
{
    if values.len() == 0 || values.len() - 1 != ops.len() {
        return Err(ExpressionError::OperatorCount);
    }
    let mut has_operator = false;
    let mut mixed = false;
    let mut mismatch = false;
    let first_is_poly = matches!(&values[0], OP_ELEMENT::Poly(_));
    let mut k: usize = 0;
    while k < values.len()
        invariant
            k <= values@.len(),
            values@.len() >= 1,
            first_is_poly == (values@[0] is Poly),
            has_operator == exists|j: int| 0 <= j < k && #[trigger] values@[j] is OP,
            mixed == exists|j: int|
                0 <= j < k && (#[trigger] values@[j] is Poly) != (values@[0] is Poly),
            mismatch == exists|j: int|
                0 <= j < k && (#[trigger] values@[j]).shape() != values@[0].shape(),
        decreases values@.len() - k,
    {
        match &values[k] {
            OP_ELEMENT::OP(_) => {
                has_operator = true;
                if first_is_poly {
                    mixed = true;
                    mismatch = true;
                }
            },
            OP_ELEMENT::Value(_) => {
                if first_is_poly {
                    mixed = true;
                    mismatch = true;
                }
            },
            OP_ELEMENT::Poly(p) => {
                if !first_is_poly {
                    mixed = true;
                    mismatch = true;
                } else {
                    match &values[0] {
                        OP_ELEMENT::Poly(q) => {
                            if p.num_vars != q.num_vars {
                                mismatch = true;
                            }
                        },
                        _ => {},
                    }
                }
            },
        }
        k = k + 1;
    }
    if has_operator {
        return Err(ExpressionError::OperatorAsOperand);
    }
    if mixed {
        return Err(ExpressionError::MixedOperands);
    }
    if mismatch {
        return Err(ExpressionError::SizeMismatch);
    }
    let tokens = to_postfix(ops);
    let result = eval_postfix(&tokens, values);
    let ghost shape = result.shape();
    let ghost held = result;
    let e = match result {
        Poly_or_F::Poly(x) => OP_ELEMENT::Poly(x),
        Poly_or_F::Value(x) => OP_ELEMENT::Value(x),
    };
    proof {
        assert(e.shape() == shape);
        assert forall|i: int| 0 <= i < shape_width(e.shape()) implies #[trigger] e.entry(i)
            == fred(expr_value(column(values@, i), ops@)) by {
            assert(e.entry(i) == held.entry(i));
            assert(postfix_stack(tokens@, column(values@, i)) == seq![
                expr_value(column(values@, i), ops@),
            ]);
        }
        assert(expression_error(values@, ops@) is None);
    }
    Ok(e)
}

proof fn lemma_prefix_congruent(a: Seq<int>, b: Seq<int>, ops: Seq<OP>, k: int)
    requires
        a.len() == b.len(),
        a.len() == ops.len() + 1,
        0 <= k <= ops.len(),
        forall|j: int| 0 <= j < a.len() ==> fred(#[trigger] a[j]) == fred(b[j]),
    ensures
        fred(term_at(a, ops, k)) == fred(term_at(b, ops, k)),
        fred(sum_before(a, ops, k)) == fred(sum_before(b, ops, k)),
    decreases k,
{
    assert(fred(a[0]) == fred(b[0]));
    if k > 0 {
        lemma_prefix_congruent(a, b, ops, k - 1);
        assert(fred(a[k]) == fred(b[k]));
        lemma_mul_congruent(term_at(a, ops, k - 1), term_at(b, ops, k - 1), a[k], b[k]);
        lemma_add_congruent(
            sum_before(a, ops, k - 1),
            sum_before(b, ops, k - 1),
            term_at(a, ops, k - 1),
            term_at(b, ops, k - 1),
        );
    }
}

/// Expressions whose operands agree modulo the field order have values that
/// agree modulo the field order.
pub proof fn lemma_expr_congruent(a: Seq<int>, b: Seq<int>, ops: Seq<OP>)
    requires
        a.len() == b.len(),
        a.len() == ops.len() + 1,
        forall|j: int| 0 <= j < a.len() ==> fred(#[trigger] a[j]) == fred(b[j]),
    ensures
        fred(expr_value(a, ops)) == fred(expr_value(b, ops)),
{
    let k = ops.len() as int;
    lemma_prefix_congruent(a, b, ops, k);
    lemma_add_congruent(
        sum_before(a, ops, k),
        sum_before(b, ops, k),
        term_at(a, ops, k),
        term_at(b, ops, k),
    );
}

/// A composite polynomial: polynomials in the same variables, joined by
/// operators.
#[derive(Clone, Debug)]
pub struct Composite {
    pub polys: Vec<MultivariatePoly>,
    pub ops: Vec<OP>,
}

/// The point that an assignment of every variable gives.
pub open spec fn assigned_point(assignment: Seq<Option<FieldElement>>) -> Seq<int> {
    Seq::new(assignment.len(), |j: int| assignment[j]->Some_0@)
}

impl Composite {
    /// There is one operator between two operands, and the operands are
    /// polynomials in the same variables.
    pub open spec fn wf(&self) -> bool {
        &&& self.polys@.len() == self.ops@.len() + 1
        &&& forall|k: int|
            0 <= k < self.polys@.len() ==> (#[trigger] self.polys@[k]).wf() && self.polys@[k].num_vars
                == self.polys@[0].num_vars
    }

    /// The number of variables of the operands.
    pub open spec fn num_vars(&self) -> nat {
        self.polys@[0].num_vars as nat
    }

    /// The tables of values of the operands.
    pub open spec fn tables(&self) -> Seq<Seq<int>> {
        Seq::new(self.polys@.len(), |k: int| self.polys@[k].values())
    }

    /// A copy of the composite.
    pub fn copy(&self) -> (r: Composite)
        ensures
            r.wf() == self.wf(),
            r.ops@ == self.ops@,
            r.polys@.len() == self.polys@.len(),
            r.tables() == self.tables(),
            self.polys@.len() > 0 ==> r.num_vars() == self.num_vars(),
    {
        let mut polys: Vec<MultivariatePoly> = Vec::with_capacity(self.polys.len());
        let mut k: usize = 0;
        while k < self.polys.len()
            invariant
                k <= self.polys@.len(),
                polys@.len() == k,
                forall|j: int|
                    0 <= j < k ==> (#[trigger] polys@[j]).coeffs@ == self.polys@[j].coeffs@
                        && polys@[j].num_vars == self.polys@[j].num_vars,
            decreases self.polys@.len() - k,
        {
            polys.push(self.polys[k].copy());
            k = k + 1;
        }
        let r = Composite { polys, ops: copy_ops(&self.ops) };
        proof {
            assert(r.tables() =~= self.tables());
            if self.wf() {
                assert forall|j: int| 0 <= j < r.polys@.len() implies (#[trigger] r.polys@[j]).wf()
                    && r.polys@[j].num_vars == r.polys@[0].num_vars by {
                    assert(self.polys@[j].wf());
                    assert(self.polys@[0].wf());
                }
            }
            if r.wf() {
                assert forall|j: int| 0 <= j < self.polys@.len() implies (
                #[trigger] self.polys@[j]).wf() && self.polys@[j].num_vars
                    == self.polys@[0].num_vars by {
                    assert(r.polys@[j].wf());
                    assert(r.polys@[0].wf());
                }
            }
        }
        r
    }

    /// The values of the operands at vertex `i`.
    pub open spec fn operand_column(&self, i: int) -> Seq<int> {
        Seq::new(self.polys@.len(), |k: int| self.polys@[k].coeffs@[i]@)
    }

    /// The values of the operands at a point.
    pub open spec fn operand_evals(&self, point: Seq<int>) -> Seq<int> {
        Seq::new(self.polys@.len(), |k: int| mle_eval(self.polys@[k].values(), point))
    }

    /// The composite of the polynomials with the given tables of values,
    /// joined by the given operators.
    pub fn new(hypercubes: &Vec<Vec<FieldElement>>, ops: Vec<OP>) -> (r: Composite)
        requires
            ops@.len() + 1 == hypercubes@.len(),
            forall|k: int|
                0 <= k < hypercubes@.len() ==> is_power_of_two(
                    (#[trigger] hypercubes@[k])@.len() as int,
                ) && hypercubes@[k]@.len() == hypercubes@[0]@.len(),
        ensures
            r.wf(),
            r.ops@ == ops@,
            r.polys@.len() == hypercubes@.len(),
            r.num_vars() == log2_floor(hypercubes@[0]@.len() as int),
            forall|k: int|
                0 <= k < hypercubes@.len() ==> (#[trigger] r.polys@[k]).coeffs@
                    == hypercubes@[k]@,
    {
        let mut polys: Vec<MultivariatePoly> = Vec::with_capacity(hypercubes.len());
        let mut k: usize = 0;
        while k < hypercubes.len()
            invariant
                k <= hypercubes@.len(),
                polys@.len() == k,
                forall|j: int|
                    0 <= j < hypercubes@.len() ==> is_power_of_two(
                        (#[trigger] hypercubes@[j])@.len() as int,
                    ) && hypercubes@[j]@.len() == hypercubes@[0]@.len(),
                forall|j: int|
                    0 <= j < k ==> (#[trigger] polys@[j]).wf() && polys@[j].coeffs@
                        == hypercubes@[j]@ && polys@[j].num_vars == log2_floor(
                        hypercubes@[0]@.len() as int,
                    ),
            decreases hypercubes@.len() - k,
        {
            let cube = &hypercubes[k];
            assert(is_power_of_two(hypercubes@[k as int]@.len() as int));
            let num_vars = exact_log2(cube.len()).unwrap();
            polys.push(MultivariatePoly::new(copy_table(cube), num_vars));
            k = k + 1;
        }
        Composite { polys, ops }
    }

    /// The composite with one variable of every operand set to
    /// `value[index]`: the variable that stands `index` places after the
    /// leading one, which is on the highest bit of an index of the tables.
    pub fn partial_evaluate(&self, value: &Vec<FieldElement>, index: usize) -> (r: Composite)
        requires
            self.wf(),
            index < value@.len(),
            index < self.num_vars(),
        ensures
            r.wf(),
            r.ops@ == self.ops@,
            r.polys@.len() == self.polys@.len(),
            r.num_vars() == self.num_vars() - 1,
            forall|k: int|
                0 <= k < self.polys@.len() ==> (#[trigger] r.polys@[k]).values() == reduced(
                    fix_variable(
                        self.polys@[k].values(),
                        two_pow((self.num_vars() - 1 - index) as nat),
                        value@[index as int]@,
                    ),
                ),
    {
        let ghost n = self.num_vars();
        let mut polys: Vec<MultivariatePoly> = Vec::with_capacity(self.polys.len());
        let mut k: usize = 0;
        while k < self.polys.len()
            invariant
                k <= self.polys@.len(),
                self.wf(),
                n == self.num_vars(),
                index < n,
                index < value@.len(),
                polys@.len() == k,
                forall|j: int|
                    0 <= j < k ==> (#[trigger] polys@[j]).wf() && polys@[j].num_vars == n - 1
                        && polys@[j].values() == reduced(
                        fix_variable(
                            self.polys@[j].values(),
                            two_pow((n - 1 - index) as nat),
                            value@[index as int]@,
                        ),
                    ),
            decreases self.polys@.len() - k,
        {
            let x = &self.polys[k];
            proof {
                assert(self.polys@[k as int].wf());
                crate::powers::lemma_log2_of_two_pow(n);
                crate::powers::lemma_log2_of_two_pow((n - 1) as nat);
                assert(two_pow(n) == 2 * two_pow((n - 1) as nat));
            }
            let new_coeffs = MultivariatePoly::partial_evaluate(
                &x.coeffs,
                x.num_vars - 1 - index,
                value[index],
            );
            polys.push(MultivariatePoly::new(new_coeffs, x.num_vars - 1));
            k = k + 1;
        }
        Composite { polys, ops: copy_ops(&self.ops) }
    }

    /// The value of the composite at a point: the operands are evaluated at
    /// the point, and their values joined by the operators, products first.
    pub fn evaluate(&self, values: &Vec<Option<FieldElement>>) -> (r: FieldElement)
        requires
            self.wf(),
            values@.len() == self.num_vars(),
            forall|j: int| 0 <= j < values@.len() ==> (#[trigger] values@[j]) is Some,
        ensures
            r@ == fred(expr_value(self.operand_evals(assigned_point(values@)), self.ops@)),
    {
        let ghost point = assigned_point(values@);
        let mut evaluated_values: Vec<FieldElement> = Vec::with_capacity(values.len());
        let mut j: usize = 0;
        while j < values.len()
            invariant
                j <= values@.len(),
                point == assigned_point(values@),
                forall|t: int| 0 <= t < values@.len() ==> (#[trigger] values@[t]) is Some,
                evaluated_values@.len() == j,
                forall|t: int| 0 <= t < j ==> (#[trigger] evaluated_values@[t])@ == point[t],
            decreases values@.len() - j,
        {
            assert(values@[j as int] is Some);
            evaluated_values.push(values[j].unwrap());
            j = j + 1;
        }
        proof {
            assert(crate::field::values(evaluated_values@) =~= point);
        }
        let mut result: Vec<OP_ELEMENT> = Vec::with_capacity(self.polys.len());
        let mut k: usize = 0;
        while k < self.polys.len()
            invariant
                k <= self.polys@.len(),
                self.wf(),
                evaluated_values@.len() == self.num_vars(),
                crate::field::values(evaluated_values@) == point,
                result@.len() == k,
                forall|t: int|
                    0 <= t < k ==> (#[trigger] result@[t]) is Value && result@[t]->Value_0@
                        == fred(mle_eval(self.polys@[t].values(), point)),
            decreases self.polys@.len() - k,
        {
            let poly = &self.polys[k];
            proof {
                assert(self.polys@[k as int].wf());
                assert(point + Seq::new(0, |j: int| 0int) =~= point);
            }
            let eval_result = poly.evaluate_partial(&evaluated_values);
            result.push(OP_ELEMENT::Value(eval_result));
            k = k + 1;
        }
        let final_result = shunting_yard_algo(&result, &self.ops);
        proof {
            assert(expression_error(result@, self.ops@) is None) by {
                assert(forall|t: int| 0 <= t < result@.len() ==> (#[trigger] result@[t]) is Value);
            }
            let col = column(result@, 0);
            let evals = self.operand_evals(point);
            assert forall|t: int| 0 <= t < col.len() implies fred(#[trigger] col[t]) == fred(
                evals[t],
            ) by {
                assert(result@[t] is Value);
                lemma_fred_basics(evals[t]);
            }
            lemma_expr_congruent(col, evals, self.ops@);
        }
        match final_result {
            Ok(OP_ELEMENT::Value(x)) => {
                proof {
                    assert(OP_ELEMENT::Value(x).entry(0) == x@);
                }
                x
            },
            _ => vstd::pervasive::unreached(),
        }
    }

    /// The polynomial whose value at each vertex is the value of the
    /// composite there: the operands are joined entry by entry, with no
    /// variable set.
    pub fn reduce(&self) -> (r: MultivariatePoly)
        requires
            self.wf(),
        ensures
            r.wf(),
            r.num_vars == self.num_vars(),
            forall|i: int|
                0 <= i < two_pow(self.num_vars()) ==> (#[trigger] r.coeffs@[i])@ == fred(
                    expr_value(self.operand_column(i), self.ops@),
                ),
    {
        let mut operands: Vec<OP_ELEMENT> = Vec::with_capacity(self.polys.len());
        let mut k: usize = 0;
        while k < self.polys.len()
            invariant
                k <= self.polys@.len(),
                self.wf(),
                operands@.len() == k,
                forall|t: int|
                    0 <= t < k ==> (#[trigger] operands@[t]) is Poly && operands@[t]->Poly_0.coeffs@
                        == self.polys@[t].coeffs@ && operands@[t]->Poly_0.num_vars
                        == self.polys@[t].num_vars,
            decreases self.polys@.len() - k,
        {
            operands.push(OP_ELEMENT::Poly(self.polys[k].copy()));
            k = k + 1;
        }
        proof {
            assert forall|t: int| 0 <= t < operands@.len() implies (#[trigger] operands@[t]).wf() by {
                assert(self.polys@[t].wf());
            }
        }
        let result = shunting_yard_algo(&operands, &self.ops);
        proof {
            assert forall|t: int| 0 <= t < operands@.len() implies (#[trigger] operands@[t]).shape()
                == operands@[0].shape() && (operands@[t] is Poly) by {
                assert(self.polys@[t].wf());
                assert(self.polys@[0].wf());
            }
            assert(expression_error(operands@, self.ops@) is None);
        }
        match result {
            Ok(OP_ELEMENT::Poly(x)) => {
                proof {
                    assert(self.polys@[0].wf());
                    assert(operands@[0] is Poly);
                    assert forall|i: int| 0 <= i < two_pow(self.num_vars()) implies (
                    #[trigger] x.coeffs@[i])@ == fred(
                        expr_value(self.operand_column(i), self.ops@),
                    ) by {
                        assert(OP_ELEMENT::Poly(x).entry(i) == x.coeffs@[i]@);
                        assert(column(operands@, i) =~= self.operand_column(i));
                    }
                }
                x
            },
            _ => vstd::pervasive::unreached(),
        }
    }
}

/// A copy of a list of operators.
pub fn copy_ops(ops: &Vec<OP>) -> (r: Vec<OP>)
    ensures
        r@ == ops@,
{
    let mut out: Vec<OP> = Vec::with_capacity(ops.len());
    let mut i: usize = 0;
    while i < ops.len()
        invariant
            i <= ops@.len(),
            out@ == ops@.subrange(0, i as int),
        decreases ops@.len() - i,
    {
        out.push(ops[i]);
        proof {
            assert(ops@.subrange(0, i as int).push(ops@[i as int]) =~= ops@.subrange(0, i + 1));
        }
        i = i + 1;
    }
    proof {
        assert(ops@.subrange(0, ops@.len() as int) =~= ops@);
    }
    out
}

} // verus!
