//! Small numeric helpers: powers of two, trailing zeros, and the integer
//! base-2 logarithm that bounds how large an aligned block can be.

use vstd::arithmetic::power2::{
    lemma2_to64, lemma_pow2_pos, lemma_pow2_strictly_increases, lemma_pow2_unfold, pow2,
};
use vstd::prelude::*;

verus! {

/// Number of trailing zero bits of a positive integer: the largest `e`
/// such that `pow2(e)` divides `n`.
pub open spec fn tz_of(n: int) -> nat
    recommends
        n >= 1,
    decreases n,
    when n >= 1
{
    if n % 2 == 1 {
        0
    } else {
        (1 + tz_of(n / 2)) as nat
    }
}

/// Trailing zeros of a 32-bit value, with the 32-bit convention that the
/// all-zero value has 32 of them.
pub open spec fn tz32(n: u32) -> nat {
    if n == 0 {
        32
    } else {
        tz_of(n as int)
    }
}

/// Floor of the base-2 logarithm of a positive integer.
pub open spec fn ilog2(n: int) -> nat
    recommends
        n >= 1,
    decreases n,
    when n >= 1
{
    if n < 2 {
        0
    } else {
        (1 + ilog2(n / 2)) as nat
    }
}

/// `pow2(tz_of(n))` divides `n`.
pub proof fn lemma_tz_divides(n: int)
    requires
        n >= 1,
    ensures
        n % (pow2(tz_of(n)) as int) == 0,
    decreases n,
{
    if n % 2 == 1 {
        assert(pow2(0) == 1) by {
            lemma2_to64();
        }
    } else {
        lemma_tz_divides(n / 2);
        let t = tz_of(n / 2);
        lemma_pow2_pos(t);
        let p = pow2(t) as int;
        let k = (n / 2) / p;
        vstd::arithmetic::div_mod::lemma_fundamental_div_mod(n / 2, p);
        assert(n / 2 == k * p);
        assert(n == 2 * (n / 2));
        lemma_pow2_unfold(t + 1);
        assert(pow2(t + 1) == 2 * pow2(t));
        assert(n == k * (2 * p)) by (nonlinear_arith)
            requires
                n == 2 * (n / 2),
                n / 2 == k * p,
        ;
        vstd::arithmetic::div_mod::lemma_mod_multiples_basic(k, 2 * p);
    }
}

/// `pow2(ilog2(n)) <= n`, and `n` itself stays below the next power.
pub proof fn lemma_ilog2_bounds(n: int)
    requires
        n >= 1,
    ensures
        pow2(ilog2(n)) <= n < pow2(ilog2(n) + 1),
    decreases n,
{
    if n < 2 {
        lemma2_to64();
    } else {
        lemma_ilog2_bounds(n / 2);
        let e = ilog2(n / 2);
        lemma_pow2_unfold(e + 1);
        lemma_pow2_unfold(e + 2);
    }
}

/// `pow2(e)` as a 64-bit value.
pub fn pow2_u64(e: u32) -> (r: u64)
    requires
        e <= 63,
    ensures
        r == pow2(e as nat),
{
    let mut r: u64 = 1;
    let mut i: u32 = 0;
    proof {
        lemma2_to64();
        vstd::arithmetic::power2::lemma2_to64_rest();
    }
    while i < e
        invariant
            i <= e <= 63,
            r == pow2(i as nat),
            pow2(63) == 0x8000000000000000,
        decreases e - i,
    {
        proof {
            lemma_pow2_unfold(i as nat + 1);
            if i as nat + 1 < 63 {
                lemma_pow2_strictly_increases(i as nat + 1, 63);
            }
        }
        r = r * 2;
        i = i + 1;
    }
    r
}

/// `pow2(e)` as a 32-bit value.
pub fn pow2_u32(e: u32) -> (r: u32)
    requires
        e <= 31,
    ensures
        r == pow2(e as nat),
{
    let mut r: u32 = 1;
    let mut i: u32 = 0;
    proof {
        lemma2_to64();
    }
    while i < e
        invariant
            i <= e <= 31,
            r == pow2(i as nat),
            pow2(31) == 0x80000000,
        decreases e - i,
    {
        proof {
            lemma_pow2_unfold(i as nat + 1);
            if i as nat + 1 < 31 {
                lemma_pow2_strictly_increases(i as nat + 1, 31);
            }
        }
        r = r * 2;
        i = i + 1;
    }
    r
}

/// `pow2(e)` as a 128-bit value.
pub fn pow2_u128(e: u32) -> (r: u128)
    requires
        e <= 127,
    ensures
        r == pow2(e as nat),
{
    let mut r: u128 = 1;
    let mut i: u32 = 0;
    proof {
        lemma2_to64();
        lemma_pow2_127_value();
    }
    while i < e
        invariant
            i <= e <= 127,
            r == pow2(i as nat),
            pow2(127) == 0x80000000000000000000000000000000,
        decreases e - i,
    {
        proof {
            lemma_pow2_unfold(i as nat + 1);
            if i as nat + 1 < 127 {
                lemma_pow2_strictly_increases(i as nat + 1, 127);
            }
        }
        r = r * 2;
        i = i + 1;
    }
    r
}

/// Concrete value of `pow2(127)`, by doubling up from `pow2(64)`.
proof fn lemma_pow2_127_value()
    ensures
        pow2(127) == 0x80000000000000000000000000000000,
{
    lemma2_to64();
    vstd::arithmetic::power2::lemma_pow2_adds(63, 64);
    vstd::arithmetic::power2::lemma2_to64_rest();
}

/// Trailing zero bits of a 32-bit value (32 for the all-zero value).
pub fn trailing_zeros_u32(n: u32) -> (r: u32)
    ensures
        r == tz32(n),
        r <= 32,
{
    proof {
        if n >= 1 {
            lemma_tz_le_31(n);
        }
    }
    if n == 0 {
        return 32;
    }
    let mut m: u32 = n;
    let mut r: u32 = 0;
    while m % 2 == 0
        invariant
            1 <= m <= n,
            tz32(n) == r + tz_of(m as int),
            r <= 32,
        decreases m,
    {
        m = m / 2;
        r = r + 1;
        proof {
            lemma_tz_le_31(n);
        }
    }
    r
}

/// A positive 32-bit value has at most 31 trailing zero bits.
pub proof fn lemma_tz_le_31(n: u32)
    requires
        n >= 1,
    ensures
        tz_of(n as int) <= 31,
{
    lemma_tz_divides(n as int);
    let t = tz_of(n as int);
    if t > 31 {
        if t > 32 {
            lemma_pow2_strictly_increases(32, t);
        }
        lemma2_to64();
        vstd::arithmetic::div_mod::lemma_small_mod(n as nat, pow2(t));
    }
}

/// Decimal digits of a non-negative number, most significant first.
pub open spec fn dec_of(n: int) -> Seq<u8>
    decreases n,
    when n >= 0
{
    if n < 10 {
        seq![(0x30 + n) as u8]
    } else {
        dec_of(n / 10) + seq![(0x30 + n % 10) as u8]
    }
}

/// Append the decimal digits of `n` to a byte buffer.
pub fn push_decimal(out: &mut Vec<u8>, n: u64)
    ensures
        final(out)@ == old(out)@ + dec_of(n as int),
    decreases n,
{
    if n >= 10 {
        push_decimal(out, n / 10);
        let d: u8 = (n % 10) as u8 + 0x30;
        out.push(d);
        proof {
            assert(out@ =~= old(out)@ + dec_of(n as int));
        }
    } else {
        let d: u8 = n as u8 + 0x30;
        out.push(d);
        proof {
            assert(out@ =~= old(out)@ + dec_of(n as int));
        }
    }
}

/// Floor of the base-2 logarithm, with the convention that zero maps to
/// zero (the integer-log primitive behind the block-size computation).
pub fn floor_log2(n: u64) -> (r: u32)
    ensures
        n == 0 ==> r == 0,
        n >= 1 ==> r == ilog2(n as int),
{
    if n == 0 {
        return 0;
    }
    let mut m: u64 = n;
    let mut r: u32 = 0;
    while m >= 2
        invariant
            1 <= m <= n,
            ilog2(n as int) == r + ilog2(m as int),
            r <= 64,
        decreases m,
    {
        m = m / 2;
        r = r + 1;
        proof {
            lemma_ilog2_le_63(n);
        }
    }
    r
}

/// A 64-bit value has base-2 logarithm at most 63.
proof fn lemma_ilog2_le_63(n: u64)
    requires
        n >= 1,
    ensures
        ilog2(n as int) <= 63,
{
    lemma_ilog2_bounds(n as int);
    let e = ilog2(n as int);
    if e > 63 {
        if e > 64 {
            lemma_pow2_strictly_increases(64, e);
        }
        lemma2_to64();
    }
}

} // verus!
