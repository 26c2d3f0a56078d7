//! Elements of the BN254 scalar field and the arithmetic on them.
//!
//! An element is held as four 64-bit limbs, least significant first, of its
//! canonical representative below the modulus. The arithmetic itself is done
//! by `ark_ff` on `ark_bn254::Fr`; the functions that reach it state, over the
//! integers, what each operation returns.

use vstd::prelude::*;
use vstd::arithmetic::div_mod::lemma_fundamental_div_mod_converse;
use vstd::arithmetic::div_mod::lemma_add_mod_noop;
use vstd::arithmetic::div_mod::lemma_mod_twice;
use vstd::arithmetic::div_mod::lemma_mul_mod_noop_general;
use vstd::arithmetic::div_mod::lemma_sub_mod_noop;
use ark_bn254::Fr;
use ark_ff::BigInt;
use ark_ff::BigInteger;
use ark_ff::Field;
use ark_ff::PrimeField;
use ark_ff::UniformRand;
use ark_poly::univariate::DensePolynomial;
use ark_poly::DenseUVPolynomial;
use ark_poly::Polynomial;

verus! {

/// The order of the field.
pub open spec fn modulus() -> int {
    21888242871839275222246405745257275088548364400416034343698204186575808495617int
}

/// The canonical representative of an integer: its remainder by the modulus.
pub open spec fn fred(a: int) -> int {
    a % modulus()
}

/// The integer that a byte string spells, most significant byte first.
pub open spec fn be_value(bytes: Seq<u8>) -> int
    decreases bytes.len(),
{
    if bytes.len() == 0 {
        0
    } else {
        be_value(bytes.drop_last()) * 256 + bytes.last() as int
    }
}

/// Reducing twice is reducing once, and an integer in `0..modulus()` is its
/// own representative.
pub proof fn lemma_fred_basics(a: int)
    ensures
        0 <= fred(a) < modulus(),
        fred(fred(a)) == fred(a),
        0 <= a < modulus() ==> fred(a) == a,
{
    lemma_mod_twice(a, modulus());
}

/// Sums of congruent integers are congruent.
pub proof fn lemma_add_congruent(a: int, a2: int, b: int, b2: int)
    requires
        fred(a) == fred(a2),
        fred(b) == fred(b2),
    ensures
        fred(a + b) == fred(a2 + b2),
{
    lemma_add_mod_noop(a, b, modulus());
    lemma_add_mod_noop(a2, b2, modulus());
}

/// Differences of congruent integers are congruent.
pub proof fn lemma_sub_congruent(a: int, a2: int, b: int, b2: int)
    requires
        fred(a) == fred(a2),
        fred(b) == fred(b2),
    ensures
        fred(a - b) == fred(a2 - b2),
{
    lemma_sub_mod_noop(a, b, modulus());
    lemma_sub_mod_noop(a2, b2, modulus());
}

/// Products of congruent integers are congruent.
pub proof fn lemma_mul_congruent(a: int, a2: int, b: int, b2: int)
    requires
        fred(a) == fred(a2),
        fred(b) == fred(b2),
    ensures
        fred(a * b) == fred(a2 * b2),
{
    lemma_mul_mod_noop_general(a, b, modulus());
    lemma_mul_mod_noop_general(a2, b2, modulus());
}

/// 256 to the power `k`.
pub open spec fn byte_weight(k: nat) -> int
    decreases k,
{
    if k == 0 {
        1
    } else {
        256 * byte_weight((k - 1) as nat)
    }
}

/// The 32 bytes that spell an integer below `2^256`, most significant byte
/// first.
pub open spec fn be_bytes32(v: int) -> Seq<u8> {
    Seq::new(32, |i: int| ((v / byte_weight((31 - i) as nat)) % 256) as u8)
}

/// The encodings of a list of integers, one after the other.
pub open spec fn encode_all(vals: Seq<int>) -> Seq<u8>
    decreases vals.len(),
{
    if vals.len() == 0 {
        Seq::empty()
    } else {
        encode_all(vals.drop_last()) + be_bytes32(vals.last())
    }
}

/// `b` to the power `e`.
pub open spec fn power(b: int, e: nat) -> int
    decreases e,
{
    if e == 0 {
        1
    } else {
        b * power(b, (e - 1) as nat)
    }
}

/// The sum of the first `k` terms of a polynomial in one variable at `x`:
/// coefficient `i` times `x` to the power `i`.
pub open spec fn poly_sum(coeffs: Seq<int>, x: int, k: int) -> int
    decreases k,
{
    if k <= 0 {
        0
    } else {
        poly_sum(coeffs, x, k - 1) + coeffs[k - 1] * power(x, (k - 1) as nat)
    }
}

/// The value of a polynomial in one variable at `x`, over the integers.
pub open spec fn poly_value(coeffs: Seq<int>, x: int) -> int {
    poly_sum(coeffs, x, coeffs.len() as int)
}

/// A field element.
#[derive(Clone, Copy, Debug, PartialEq, Eq, Structural)]
pub struct FieldElement {
    l0: u64,
    l1: u64,
    l2: u64,
    l3: u64,
}

impl View for FieldElement {
    type V = int;

    /// The integer in `0..modulus()` that the element stands for.
    closed spec fn view(&self) -> int {
        self.limbs_value() % modulus()
    }
}

/// Every element stands for an integer in `0..modulus()`.
pub proof fn lemma_view_range(c: FieldElement)
    ensures
        0 <= c@ < modulus(),
{
}

/// The elements of a sequence as integers.
pub open spec fn values(s: Seq<FieldElement>) -> Seq<int> {
    Seq::new(s.len(), |i: int| s[i]@)
}

/// Each entry reduced to its canonical representative.
pub open spec fn reduced(vals: Seq<int>) -> Seq<int> {
    Seq::new(vals.len(), |i: int| fred(vals[i]))
}

impl FieldElement {
    /// The integer that the four limbs spell, least significant first.
    closed spec fn limbs_value(self) -> int {
        (self.l0 as int) + (self.l1 as int) * 0x1_0000_0000_0000_0000int + (self.l2 as int)
            * 0x1_0000_0000_0000_0000_0000_0000_0000_0000int + (self.l3 as int)
            * 0x1_0000_0000_0000_0000_0000_0000_0000_0000_0000_0000_0000_0000int
    }

    #[verifier::type_invariant]
    closed spec fn canonical(self) -> bool {
        self.limbs_value() < modulus()
    }

    /// Two elements with the same limbs value have the same limbs.
    proof fn lemma_limbs_injective(self, other: FieldElement)
        requires
            self.limbs_value() == other.limbs_value(),
        ensures
            self == other,
    {
        let b = 0x1_0000_0000_0000_0000int;
        let v = self.limbs_value();
        let s1 = (self.l1 as int) + (self.l2 as int) * b + (self.l3 as int) * (b * b);
        let o1 = (other.l1 as int) + (other.l2 as int) * b + (other.l3 as int) * (b * b);
        assert(b * b == 0x1_0000_0000_0000_0000_0000_0000_0000_0000int);
        assert(b * (b * b) == 0x1_0000_0000_0000_0000_0000_0000_0000_0000_0000_0000_0000_0000int);
        assert(v == s1 * b + self.l0) by (nonlinear_arith)
            requires
                v == (self.l0 as int) + (self.l1 as int) * b + (self.l2 as int) * (b * b) + (
                self.l3 as int) * (b * (b * b)),
                s1 == (self.l1 as int) + (self.l2 as int) * b + (self.l3 as int) * (b * b),
        ;
        assert(v == o1 * b + other.l0) by (nonlinear_arith)
            requires
                v == (other.l0 as int) + (other.l1 as int) * b + (other.l2 as int) * (b * b) + (
                other.l3 as int) * (b * (b * b)),
                o1 == (other.l1 as int) + (other.l2 as int) * b + (other.l3 as int) * (b * b),
        ;
        lemma_fundamental_div_mod_converse(v, b, s1, self.l0 as int);
        lemma_fundamental_div_mod_converse(v, b, o1, other.l0 as int);
        let s2 = (self.l2 as int) + (self.l3 as int) * b;
        let o2 = (other.l2 as int) + (other.l3 as int) * b;
        assert(s1 == s2 * b + self.l1) by (nonlinear_arith)
            requires
                s1 == (self.l1 as int) + (self.l2 as int) * b + (self.l3 as int) * (b * b),
                s2 == (self.l2 as int) + (self.l3 as int) * b,
        ;
        assert(o1 == o2 * b + other.l1) by (nonlinear_arith)
            requires
                o1 == (other.l1 as int) + (other.l2 as int) * b + (other.l3 as int) * (b * b),
                o2 == (other.l2 as int) + (other.l3 as int) * b,
        ;
        lemma_fundamental_div_mod_converse(s1, b, s2, self.l1 as int);
        lemma_fundamental_div_mod_converse(s1, b, o2, other.l1 as int);
        lemma_fundamental_div_mod_converse(s2, b, self.l3 as int, self.l2 as int);
        lemma_fundamental_div_mod_converse(s2, b, other.l3 as int, other.l2 as int);
    }

    /// The additive identity.
    pub fn zero() -> (r: FieldElement)
        ensures
            r@ == 0,
    {
        FieldElement { l0: 0, l1: 0, l2: 0, l3: 0 }
    }

    /// The multiplicative identity.
    pub fn one() -> (r: FieldElement)
        ensures
            r@ == 1,
    {
        FieldElement { l0: 1, l1: 0, l2: 0, l3: 0 }
    }

    /// The element that a machine integer stands for.
    pub fn from_u64(x: u64) -> (r: FieldElement)
        ensures
            r@ == x,
    {
        FieldElement { l0: x, l1: 0, l2: 0, l3: 0 }
    }

    /// Whether two elements are the same element of the field.
    pub fn equals(&self, other: &FieldElement) -> (r: bool)
        ensures
            r == (self@ == other@),
    {
        proof {
            use_type_invariant(self);
            use_type_invariant(other);
            if self@ == other@ {
                self.lemma_limbs_injective(*other);
            }
        }
        *self == *other
    }

    /// Whether the element is the additive identity.
    pub fn is_zero(&self) -> (r: bool)
        ensures
            r == (self@ == 0),
    {
        let z = FieldElement::zero();
        self.equals(&z)
    }

    /// The sum of two elements.
    pub fn add(&self, other: &FieldElement) -> (r: FieldElement)
        ensures
            r@ == fred(self@ + other@),
    {
        proof {
            use_type_invariant(self);
            use_type_invariant(other);
        }
        fr_add(self, other)
    }

    /// The difference of two elements.
    pub fn sub(&self, other: &FieldElement) -> (r: FieldElement)
        ensures
            r@ == fred(self@ - other@),
    {
        proof {
            use_type_invariant(self);
            use_type_invariant(other);
        }
        fr_sub(self, other)
    }

    /// The product of two elements.
    pub fn mul(&self, other: &FieldElement) -> (r: FieldElement)
        ensures
            r@ == fred(self@ * other@),
    {
        proof {
            use_type_invariant(self);
            use_type_invariant(other);
        }
        fr_mul(self, other)
    }

    /// The multiplicative inverse, which every element but zero has.
    pub fn inverse(&self) -> (r: Option<FieldElement>)
        ensures
            r is None <==> self@ == 0,
            r matches Some(x) ==> fred(x@ * self@) == 1,
    {
        proof {
            use_type_invariant(self);
        }
        fr_inverse(self)
    }

    /// The element that a big-endian byte string of any length stands for.
    pub fn from_be_bytes_mod_order(bytes: &[u8]) -> (r: FieldElement)
        ensures
            r@ == fred(be_value(bytes@)),
    {
        fr_from_be_bytes_mod_order(bytes)
    }

    /// An element drawn at random.
    pub fn random() -> (r: FieldElement) {
        fr_random()
    }

    /// The 32 bytes that spell the element, most significant byte first.
    pub fn to_bytes_be(&self) -> (r: Vec<u8>)
        ensures
            r@ == be_bytes32(self@),
    {
        proof {
            use_type_invariant(self);
        }
        fr_to_bytes_be(self)
    }
}

/// The value at `x` of the polynomial in one variable with the given
/// coefficients, the constant first.
pub fn evaluate_univariate(coeffs: &Vec<FieldElement>, x: &FieldElement) -> (r: FieldElement)
    ensures
        r@ == fred(poly_value(values(coeffs@), x@)),
{
    let mut i: usize = 0;
    while i < coeffs.len()
        invariant
            i <= coeffs@.len(),
            forall|t: int| 0 <= t < i ==> (#[trigger] coeffs@[t]).canonical(),
        decreases coeffs@.len() - i,
    {
        let c = coeffs[i];
        proof {
            use_type_invariant(&c);
        }
        i = i + 1;
    }
    proof {
        use_type_invariant(x);
    }
    poly_evaluate(coeffs, x)
}

/// `ark_poly`'s `Polynomial::evaluate` on the `DensePolynomial` that
/// `from_coefficients_vec` makes of the coefficients: the sum of the
/// coefficients, each times the power of the point that its place names,
/// reduced.
#[verifier::external_body]
fn poly_evaluate(coeffs: &Vec<FieldElement>, x: &FieldElement) -> (r: FieldElement)
    requires
        forall|t: int| 0 <= t < coeffs@.len() ==> (#[trigger] coeffs@[t]).canonical(),
        x.canonical(),
    ensures
        r.canonical(),
        r@ == fred(poly_value(values(coeffs@), x@)),
{
    let list: Vec<Fr> = coeffs.iter().map(
        |c| Fr::from_bigint(BigInt::new([c.l0, c.l1, c.l2, c.l3])).unwrap(),
    ).collect();
    let point = Fr::from_bigint(BigInt::new([x.l0, x.l1, x.l2, x.l3])).unwrap();
    let z = DensePolynomial::from_coefficients_vec(list).evaluate(&point).into_bigint().0;
    FieldElement { l0: z[0], l1: z[1], l2: z[2], l3: z[3] }
}

/// `ark_ff`'s addition of two `Fr`, reached through `from_bigint` and
/// `into_bigint`: the canonical representative of the sum of the two integers.
#[verifier::external_body]
fn fr_add(a: &FieldElement, b: &FieldElement) -> (r: FieldElement)
    requires
        a.canonical(),
        b.canonical(),
    ensures
        r.canonical(),
        r@ == fred(a@ + b@),
{
    let x = Fr::from_bigint(BigInt::new([a.l0, a.l1, a.l2, a.l3])).unwrap();
    let y = Fr::from_bigint(BigInt::new([b.l0, b.l1, b.l2, b.l3])).unwrap();
    let z = (x + y).into_bigint().0;
    FieldElement { l0: z[0], l1: z[1], l2: z[2], l3: z[3] }
}

/// `ark_ff`'s subtraction of two `Fr`: the canonical representative of the
/// difference of the two integers.
#[verifier::external_body]
fn fr_sub(a: &FieldElement, b: &FieldElement) -> (r: FieldElement)
    requires
        a.canonical(),
        b.canonical(),
    ensures
        r.canonical(),
        r@ == fred(a@ - b@),
{
    let x = Fr::from_bigint(BigInt::new([a.l0, a.l1, a.l2, a.l3])).unwrap();
    let y = Fr::from_bigint(BigInt::new([b.l0, b.l1, b.l2, b.l3])).unwrap();
    let z = (x - y).into_bigint().0;
    FieldElement { l0: z[0], l1: z[1], l2: z[2], l3: z[3] }
}

/// `ark_ff`'s multiplication of two `Fr`: the canonical representative of the
/// product of the two integers.
#[verifier::external_body]
fn fr_mul(a: &FieldElement, b: &FieldElement) -> (r: FieldElement)
    requires
        a.canonical(),
        b.canonical(),
    ensures
        r.canonical(),
        r@ == fred(a@ * b@),
{
    let x = Fr::from_bigint(BigInt::new([a.l0, a.l1, a.l2, a.l3])).unwrap();
    let y = Fr::from_bigint(BigInt::new([b.l0, b.l1, b.l2, b.l3])).unwrap();
    let z = (x * y).into_bigint().0;
    FieldElement { l0: z[0], l1: z[1], l2: z[2], l3: z[3] }
}

/// `ark_ff`'s `Field::inverse` on `Fr`: nothing for zero, and for any other
/// element the one whose product with it is one.
#[verifier::external_body]
fn fr_inverse(a: &FieldElement) -> (r: Option<FieldElement>)
    requires
        a.canonical(),
    ensures
        r is None <==> a@ == 0,
        r matches Some(x) ==> x.canonical() && fred(x@ * a@) == 1,
{
    let x = Fr::from_bigint(BigInt::new([a.l0, a.l1, a.l2, a.l3])).unwrap();
    match x.inverse() {
        Some(y) => {
            let z = y.into_bigint().0;
            Some(FieldElement { l0: z[0], l1: z[1], l2: z[2], l3: z[3] })
        },
        None => None,
    }
}

/// `ark_ff`'s `UniformRand::rand` on `Fr` with the generator of the thread
/// from `rand`: some element of the field, of which no more is known.
#[verifier::external_body]
fn fr_random() -> (r: FieldElement)
    ensures
        r.canonical(),
{
    let z = Fr::rand(&mut rand::thread_rng()).into_bigint().0;
    FieldElement { l0: z[0], l1: z[1], l2: z[2], l3: z[3] }
}

/// `ark_ff`'s `PrimeField::from_be_bytes_mod_order` on `Fr`: the bytes read as
/// one big-endian integer, reduced by the modulus.
#[verifier::external_body]
fn fr_from_be_bytes_mod_order(bytes: &[u8]) -> (r: FieldElement)
    ensures
        r.canonical(),
        r@ == fred(be_value(bytes@)),
{
    let z = Fr::from_be_bytes_mod_order(bytes).into_bigint().0;
    FieldElement { l0: z[0], l1: z[1], l2: z[2], l3: z[3] }
}

/// `ark_ff`'s `BigInteger::to_bytes_be` on the four limbs: the eight bytes of
/// each limb, the most significant limb and byte first, which are the 32
/// bytes of the integer.
#[verifier::external_body]
fn fr_to_bytes_be(a: &FieldElement) -> (r: Vec<u8>)
    requires
        a.canonical(),
    ensures
        r@ == be_bytes32(a@),
{
    BigInt::new([a.l0, a.l1, a.l2, a.l3]).to_bytes_be()
}

} // verus!
