//! Powers of two: the sizes of boolean hypercubes and the widths of indices.

use vstd::prelude::*;

verus! {

/// Two to the power `n`.
pub open spec fn two_pow(n: nat) -> int
    decreases n,
{
    if n == 0 {
        1
    } else {
        2 * two_pow((n - 1) as nat)
    }
}

/// The number of times a length can be halved before it reaches one.
pub open spec fn log2_floor(len: int) -> nat
    decreases len,
{
    if len <= 1 {
        0
    } else {
        1 + log2_floor(len / 2)
    }
}

/// Whether a length is a power of two.
pub open spec fn is_power_of_two(len: int) -> bool {
    len == two_pow(log2_floor(len))
}

pub proof fn lemma_two_pow_positive(n: nat)
    ensures
        two_pow(n) >= 1,
    decreases n,
{
    if n > 0 {
        lemma_two_pow_positive((n - 1) as nat);
    }
}

pub proof fn lemma_two_pow_adds(a: nat, b: nat)
    ensures
        two_pow(a + b) == two_pow(a) * two_pow(b),
    decreases a,
{
    if a == 0 {
        assert(two_pow(0) * two_pow(b) == two_pow(b));
    } else {
        lemma_two_pow_adds((a - 1) as nat, b);
        assert((a - 1) as nat + b == (a + b - 1) as nat);
        assert(2 * (two_pow((a - 1) as nat) * two_pow(b)) == (2 * two_pow((a - 1) as nat))
            * two_pow(b)) by (nonlinear_arith);
    }
}

pub proof fn lemma_two_pow_monotonic(a: nat, b: nat)
    requires
        a <= b,
    ensures
        two_pow(a) <= two_pow(b),
    decreases b,
{
    if a < b {
        lemma_two_pow_monotonic(a, (b - 1) as nat);
        lemma_two_pow_positive((b - 1) as nat);
    }
}

pub proof fn lemma_two_pow_strictly_monotonic(a: nat, b: nat)
    requires
        a < b,
    ensures
        two_pow(a) < two_pow(b),
{
    lemma_two_pow_monotonic(a, (b - 1) as nat);
    lemma_two_pow_positive((b - 1) as nat);
}

/// The logarithm of a power of two is its exponent.
pub proof fn lemma_log2_of_two_pow(n: nat)
    ensures
        log2_floor(two_pow(n)) == n,
        is_power_of_two(two_pow(n)),
    decreases n,
{
    lemma_two_pow_positive(n);
    if n > 0 {
        lemma_log2_of_two_pow((n - 1) as nat);
        lemma_two_pow_positive((n - 1) as nat);
        assert(two_pow(n) / 2 == two_pow((n - 1) as nat));
    }
}

/// A power of two above one is twice a power of two.
pub proof fn lemma_power_of_two_halves(len: int)
    requires
        is_power_of_two(len),
        len >= 2,
    ensures
        is_power_of_two(len / 2),
        log2_floor(len) == log2_floor(len / 2) + 1,
        len == 2 * (len / 2),
{
    let n = log2_floor(len);
    assert(n == 1 + log2_floor(len / 2));
    assert(len == 2 * two_pow((n - 1) as nat));
}

/// Two to the power `n`, where it fits.
pub fn checked_two_pow(n: usize) -> (r: Option<usize>)
    ensures
        r is Some <==> two_pow(n as nat) <= usize::MAX,
        r matches Some(v) ==> v == two_pow(n as nat),
{
    let mut v: usize = 1;
    let mut i: usize = 0;
    while i < n
        invariant
            i <= n,
            v == two_pow(i as nat),
        decreases n - i,
    {
        if v > usize::MAX / 2 {
            proof {
                lemma_two_pow_monotonic((i + 1) as nat, n as nat);
            }
            return None;
        }
        v = v * 2;
        i = i + 1;
    }
    Some(v)
}

/// The exponent of a length that is a power of two, and nothing for any
/// other length.
pub fn exact_log2(len: usize) -> (r: Option<usize>)
    ensures
        r is Some <==> is_power_of_two(len as int),
        r matches Some(n) ==> n == log2_floor(len as int) && len == two_pow(n as nat),
{
    if len == 0 {
        assert(two_pow(0) == 1);
        return None;
    }
    let mut rest: usize = len;
    let mut n: usize = 0;
    assert(two_pow(0) == 1);
    while rest > 1
        invariant
            1 <= rest <= len,
            n < 64,
            len == rest * two_pow(n as nat),
            log2_floor(len as int) == log2_floor(rest as int) + n,
            is_power_of_two(len as int) <==> is_power_of_two(rest as int),
        decreases rest,
    {
        if rest % 2 != 0 {
            proof {
                lemma_odd_not_power(rest as int);
            }
            return None;
        }
        proof {
            let h = (rest / 2) as int;
            assert(rest == 2 * h);
            assert(h * two_pow((n + 1) as nat) == rest * two_pow(n as nat)) by (nonlinear_arith)
                requires
                    rest == 2 * h,
                    two_pow((n + 1) as nat) == 2 * two_pow(n as nat),
            ;
            if is_power_of_two(rest as int) {
                lemma_power_of_two_halves(rest as int);
            }
            if is_power_of_two(h) {
                assert(two_pow((log2_floor(h) + 1) as nat) == 2 * two_pow(log2_floor(h)));
            }
            if n + 1 >= 64 {
                lemma_two_pow_64();
                lemma_two_pow_monotonic(64, (n + 1) as nat);
                assert(h * two_pow((n + 1) as nat) >= two_pow((n + 1) as nat))
                    by (nonlinear_arith)
                    requires
                        h >= 1,
                        two_pow((n + 1) as nat) >= 0,
                ;
            }
        }
        rest = rest / 2;
        n = n + 1;
    }
    Some(n)
}

proof fn lemma_odd_not_power(len: int)
    requires
        len > 1,
        len % 2 != 0,
    ensures
        !is_power_of_two(len),
{
    if is_power_of_two(len) {
        lemma_power_of_two_halves(len);
    }
}

pub proof fn lemma_two_pow_64()
    ensures
        two_pow(64) == 0x1_0000_0000_0000_0000int,
{
    assert(two_pow(8) == 256) by {
        reveal_with_fuel(two_pow, 9);
    }
    lemma_two_pow_adds(8, 8);
    assert(two_pow(16) == 0x1_0000int);
    lemma_two_pow_adds(16, 16);
    assert(two_pow(32) == 0x1_0000_0000int);
    lemma_two_pow_adds(32, 32);
}

} // verus!
