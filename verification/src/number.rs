//! Numbers as the bits of their doubles: the bits of an integer, and
//! equality.

use vstd::prelude::*;
use vstd::arithmetic::power2::{
    pow2, lemma_pow2_adds, lemma_pow2_unfold, lemma2_to64, lemma2_to64_rest, lemma_pow2_pos,
};
use vstd::arithmetic::div_mod::{lemma_div_denominator, lemma_div_by_multiple};

verus! {

/// Two to the power 52: the weight of the exponent field of a double.
pub const MANTISSA_RANGE: u64 = 0x10_0000_0000_0000;

/// The sign bit of a double.
pub const SIGN_BIT: u64 = 0x8000_0000_0000_0000;

/// The exponent of the highest power of two that is not above `n`; 0 for
/// `n` below 2.
pub open spec fn magnitude(n: nat) -> nat
    decreases n,
{
    if n < 2 {
        0
    } else {
        1 + magnitude(n / 2)
    }
}

/// The bits of the double that equals the positive integer `n`, which is
/// below two to the power 53: the biased exponent above the 52 bits of what
/// `n` holds over its highest power of two, moved to the top of the field.
pub open spec fn positive_number_bits(n: nat) -> int {
    let e = magnitude(n);
    (1023 + e) * pow2(52) + (n - pow2(e)) * pow2((52 - e) as nat)
}

/// The bits of the double that equals the integer `n`.
pub open spec fn number_bits(n: int) -> u64 {
    if n == 0 {
        0
    } else if n > 0 {
        positive_number_bits(n as nat) as u64
    } else {
        (SIGN_BIT + positive_number_bits((-n) as nat)) as u64
    }
}

/// The bits `b` are those of a double that is not a number: every bit of
/// the exponent set, and some bit of the mantissa.
pub open spec fn number_is_nan(b: u64) -> bool {
    (b / MANTISSA_RANGE) % 0x800 == 0x7ff && b % MANTISSA_RANGE != 0
}

/// The doubles with the bits `a` and `b` compare equal: neither is not a
/// number, and they have the same bits or are the two zeros.
pub open spec fn number_eq(a: u64, b: u64) -> bool {
    !number_is_nan(a) && !number_is_nan(b) && (a == b || (a % SIGN_BIT == 0 && b % SIGN_BIT == 0))
}

/// Equality of doubles, on their bits.
pub fn numbers_equal(a: u64, b: u64) -> (r: bool)
    ensures
        r == number_eq(a, b),
{
    let a_nan = (a / MANTISSA_RANGE) % 0x800 == 0x7ff && a % MANTISSA_RANGE != 0;
    let b_nan = (b / MANTISSA_RANGE) % 0x800 == 0x7ff && b % MANTISSA_RANGE != 0;
    !a_nan && !b_nan && (a == b || (a % SIGN_BIT == 0 && b % SIGN_BIT == 0))
}

proof fn lemma_magnitude_step(n: nat, p: nat)
    requires
        p > 0,
        2 * p <= n,
    ensures
        magnitude(n / p) == 1 + magnitude(n / (2 * p)),
{
    assert(n / p >= 2) by (nonlinear_arith)
        requires
            p > 0,
            2 * p <= n,
    ;
    lemma_div_denominator(n as int, p as int, 2);
    assert(p * 2 == 2 * p);
}

fn positive_bits(n: u32) -> (r: u64)
    requires
        0 < n <= 0x8000_0000,
    ensures
        r == positive_number_bits(n as nat),
        r < SIGN_BIT,
{
    let mut e: u64 = 0;
    let mut p: u64 = 1;
    proof {
        lemma2_to64();
        lemma2_to64_rest();
    }
    while p * 2 <= n as u64
        invariant
            0 < n <= 0x8000_0000,
            p == pow2(e as nat),
            0 < p <= n,
            e <= 31,
            magnitude(n as nat) == e + magnitude((n / p as u32) as nat),
        decreases n - p,
    {
        proof {
            lemma_magnitude_step(n as nat, p as nat);
            lemma_pow2_unfold((e + 1) as nat);
            assert(e < 31) by {
                lemma2_to64();
            }
        }
        p = p * 2;
        e = e + 1;
    }
    proof {
        assert(n as nat / p as nat == 1) by (nonlinear_arith)
            requires
                0 < p <= n,
                2 * p > n,
        ;
        assert(magnitude(1) == 0);
        lemma_pow2_adds(e as nat, (52 - e) as nat);
        lemma_pow2_pos((52 - e) as nat);
        lemma_div_by_multiple(pow2((52 - e) as nat) as int, p as int);
        assert(pow2((52 - e) as nat) * pow2(e as nat) == pow2(52)) by (nonlinear_arith)
            requires
                pow2(e as nat) * pow2((52 - e) as nat) == pow2(52),
        ;
    }
    let q: u64 = MANTISSA_RANGE / p;
    assert(q == pow2((52 - e) as nat));
    assert((n - p) * q < MANTISSA_RANGE) by (nonlinear_arith)
        requires
            0 < p <= n,
            2 * p > n,
            p * q == MANTISSA_RANGE,
            q > 0,
    ;
    (1023 + e) * MANTISSA_RANGE + (n as u64 - p) * q
}

/// The bits of the double that equals `n`.
pub fn number_from_int(n: i32) -> (r: u64)
    ensures
        r == number_bits(n as int),
{
    if n == 0 {
        0
    } else if n > 0 {
        positive_bits(n as u32)
    } else {
        let m: u32 = (-(n as i64)) as u32;
        SIGN_BIT + positive_bits(m)
    }
}

} // verus!
