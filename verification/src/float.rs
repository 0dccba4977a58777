//! Doubles by their bits.
//!
//! A sample's value is kept as the 64 bits of an IEEE 754 double. What the
//! crate computes with doubles - the double nearest to a count, and the
//! conversion of a timestamp in fractional seconds to milliseconds - is
//! integer arithmetic on the parts of those bits.

use vstd::arithmetic::power2::*;
use vstd::prelude::*;

verus! {

/// The biased exponent of a double.
pub open spec fn biased_exponent(bits: u64) -> nat {
    (bits as nat / pow2(52)) % 2048
}

/// The significand of a double, as an integer.
pub open spec fn significand(bits: u64) -> nat {
    if biased_exponent(bits) == 0 {
        bits as nat % pow2(52)
    } else {
        bits as nat % pow2(52) + pow2(52)
    }
}

/// The power of two that the significand of a finite double is multiplied by.
pub open spec fn exponent(bits: u64) -> int {
    if biased_exponent(bits) == 0 {
        -1074
    } else {
        biased_exponent(bits) - 1075
    }
}

/// Whether the double's sign bit is set.
pub open spec fn is_negative(bits: u64) -> bool {
    bits >= 0x8000_0000_0000_0000
}

/// Whether the double is neither infinite nor a NaN.
pub open spec fn is_finite(bits: u64) -> bool {
    biased_exponent(bits) != 2047
}

/// The number of binary digits of `n`, none for zero.
pub open spec fn bit_length(n: nat) -> nat
    decreases n,
{
    if n == 0 {
        0
    } else {
        1 + bit_length(n / 2)
    }
}

/// The number of low binary digits that `n` has beyond a double's 53.
pub open spec fn excess_bits(n: nat) -> nat {
    if bit_length(n) <= 53 {
        0
    } else {
        (bit_length(n) - 53) as nat
    }
}

/// `n` divided by `2^d`, rounded to the nearest integer, ties to the even one.
pub open spec fn round_half_even(n: nat, d: nat) -> nat {
    let unit = pow2(d);
    let q = n / unit;
    let r = n % unit;
    if 2 * r > unit || (2 * r == unit && q % 2 == 1) {
        q + 1
    } else {
        q
    }
}

/// `n` divided by `2^d`, rounded to the nearest integer, ties upwards.
pub open spec fn round_half_up(n: nat, d: nat) -> nat {
    (n + pow2(d) / 2) / pow2(d)
}

/// The bits of the double nearest to the count `n`.
pub open spec fn double_of(n: u64) -> nat {
    let len = bit_length(n as nat);
    if n == 0 {
        0
    } else if len <= 53 {
        (((1021 + len) as nat) * pow2(52) + n as nat * pow2((53 - len) as nat)) as nat
    } else {
        (((1021 + len) as nat) * pow2(52) + round_half_even(n as nat, excess_bits(n as nat))) as nat
    }
}

/// The magnitude, in milliseconds, of a finite double that counts seconds: the
/// significand times 1000, rounded to a double's precision, then to the
/// nearest integer with ties away from zero.
pub open spec fn millis_magnitude(bits: u64) -> nat {
    let product = significand(bits) * 1000;
    let d = excess_bits(product);
    let rounded = round_half_even(product, d);
    let e = exponent(bits) + d;
    if e >= 0 {
        rounded * pow2(e as nat)
    } else {
        round_half_up(rounded, (-e) as nat)
    }
}

/// The milliseconds of a double that counts seconds: none where the double is
/// not finite or the result lies outside the doubles' image of `i64`, whose
/// upper end `2^63` is cut to the largest `i64`.
pub open spec fn millis_of_seconds(bits: u64) -> Option<int> {
    let magnitude = millis_magnitude(bits);
    if !is_finite(bits) || magnitude > 0x8000_0000_0000_0000 {
        None
    } else if is_negative(bits) {
        Some(-(magnitude as int))
    } else if magnitude > i64::MAX {
        Some(i64::MAX as int)
    } else {
        Some(magnitude as int)
    }
}

/// A number lies between the powers of two that its length names.
pub proof fn lemma_bit_length(n: nat)
    ensures
        n < pow2(bit_length(n)),
        n > 0 ==> bit_length(n) > 0 && pow2((bit_length(n) - 1) as nat) <= n,
    decreases n,
{
    if n == 0 {
        lemma2_to64();
    } else {
        lemma_bit_length(n / 2);
        lemma_pow2_unfold(bit_length(n));
        if n / 2 == 0 {
            lemma2_to64();
        } else {
            lemma_pow2_unfold(bit_length(n / 2));
        }
    }
}

/// A number below `2^k` has at most `k` binary digits.
proof fn lemma_bit_length_bound(n: nat, k: nat)
    requires
        n < pow2(k),
    ensures
        bit_length(n) <= k,
{
    lemma_bit_length(n);
    if bit_length(n) > k {
        if bit_length(n) - 1 > k {
            lemma_pow2_strictly_increases(k, (bit_length(n) - 1) as nat);
        }
    }
}

/// `2^k`.
pub fn power_of_two(k: u32) -> (r: u64)
    requires
        k < 64,
    ensures
        r == pow2(k as nat),
{
    let mut r: u64 = 1;
    let mut i: u32 = 0;
    proof {
        lemma2_to64();
        lemma2_to64_rest();
    }
    while i < k
        invariant
            i <= k < 64,
            r == pow2(i as nat),
        decreases k - i,
    {
        proof {
            lemma_pow2_unfold((i + 1) as nat);
            lemma2_to64_rest();
            if i < 62 {
                lemma_pow2_strictly_increases((i + 1) as nat, 63);
            }
        }
        r = r * 2;
        i += 1;
    }
    r
}

/// The number of binary digits of `n`.
pub fn bit_length_of(n: u64) -> (r: u32)
    ensures
        r == bit_length(n as nat),
        r <= 64,
{
    let mut rest: u64 = n;
    let mut r: u32 = 0;
    proof {
        lemma2_to64();
        lemma_bit_length_bound(n as nat, 64);
    }
    while rest > 0
        invariant
            r + bit_length(rest as nat) == bit_length(n as nat),
            bit_length(n as nat) <= 64,
        decreases rest,
    {
        rest = rest / 2;
        r += 1;
    }
    r
}

/// `n / 2^d`, rounded half to even.
pub fn rounded_half_even(n: u64, d: u32) -> (r: u64)
    requires
        d < 64,
    ensures
        r == round_half_even(n as nat, d as nat),
{
    let unit: u64 = power_of_two(d);
    proof {
        lemma_pow2_pos(d as nat);
        lemma2_to64();
    }
    let q: u64 = n / unit;
    let r: u64 = n % unit;
    let rest: u64 = unit - r;
    if r > rest || (r == rest && q % 2 == 1) {
        proof {
            if q == u64::MAX {
                assert(unit == 1 || n / unit <= n / 2) by (nonlinear_arith)
                    requires
                        unit >= 1,
                ;
                if d > 0 {
                    lemma_pow2_strictly_increases(0, d as nat);
                }
            }
        }
        q + 1
    } else {
        q
    }
}

/// The bits of the double nearest to a count: what `as` gives for a `u64`.
pub fn count_bits(n: u64) -> (r: u64)
    ensures
        r == double_of(n),
{
    if n == 0 {
        return 0;
    }
    let len: u32 = bit_length_of(n);
    let unit: u64 = power_of_two(52);
    proof {
        lemma2_to64();
        lemma2_to64_rest();
        lemma_bit_length(n as nat);
    }
    let base: u64 = (1021 + len) as u64 * unit;
    if len <= 53 {
        let scale: u64 = power_of_two(53 - len);
        proof {
            lemma_pow2_adds(len as nat, (53 - len) as nat);
            assert(n * scale <= pow2(len as nat) * pow2((53 - len) as nat)) by (nonlinear_arith)
                requires
                    n < pow2(len as nat),
                    scale == pow2((53 - len) as nat),
            ;
        }
        base + n * scale
    } else {
        let d: u32 = len - 53;
        let q: u64 = rounded_half_even(n, d);
        proof {
            lemma_quotient_bound(n as nat, 53, d as nat);
        }
        base + q
    }
}

/// A number of `k + d` digits, divided by `2^d`, is at most `2^k` after rounding.
proof fn lemma_quotient_bound(n: nat, k: nat, d: nat)
    requires
        n < pow2(k + d),
    ensures
        n / pow2(d) < pow2(k),
        round_half_even(n, d) <= pow2(k),
{
    lemma_pow2_adds(k, d);
    lemma_pow2_pos(d);
    let u = pow2(d);
    assert(n / u < pow2(k)) by (nonlinear_arith)
        requires
            n < pow2(k) * u,
            u > 0,
    ;
}

/// The milliseconds of a double that counts seconds.
pub fn seconds_to_millis(bits: u64) -> (r: Option<i64>)
    ensures
        match r {
            Some(ms) => millis_of_seconds(bits) == Some(ms as int),
            None => millis_of_seconds(bits) is None,
        },
{
    let unit: u64 = power_of_two(52);
    proof {
        lemma2_to64();
        lemma2_to64_rest();
    }
    let biased: u64 = (bits / unit) % 2048;
    if biased == 2047 {
        return None;
    }
    let fraction: u64 = bits % unit;
    let (sig, exp): (u64, i32) = if biased == 0 {
        (fraction, -1074)
    } else {
        (fraction + unit, biased as i32 - 1075)
    };
    assert(sig == significand(bits));
    assert(exp == exponent(bits));
    let product: u64 = sig * 1000;
    let len: u32 = bit_length_of(product);
    proof {
        lemma_bit_length(product as nat);
        lemma_bit_length_bound(product as nat, 63);
    }
    let d: u32 = if len <= 53 {
        0
    } else {
        len - 53
    };
    let rounded: u64 = rounded_half_even(product, d);
    proof {
        if len < 53 {
            lemma_pow2_strictly_increases(len as nat, 53);
        }
        assert(d + 53 >= len);
        assert(product < pow2((53 + d) as nat)) by {
            if (53 + d) > len {
                lemma_pow2_strictly_increases(len as nat, (53 + d) as nat);
            }
        }
        lemma_quotient_bound(product as nat, 53, d as nat);
    }
    let e: i32 = exp + d as i32;
    let magnitude: u64 = if e >= 0 {
        match scaled_up(rounded, e as u32) {
            Some(m) => m,
            None => {
                return None;
            },
        }
    } else {
        scaled_down(rounded, (-e) as u32)
    };
    assert(magnitude == millis_magnitude(bits));
    if magnitude > 0x8000_0000_0000_0000 {
        None
    } else if bits >= 0x8000_0000_0000_0000 {
        if magnitude == 0x8000_0000_0000_0000 {
            Some(i64::MIN)
        } else {
            Some(-(magnitude as i64))
        }
    } else if magnitude > 0x7fff_ffff_ffff_ffff {
        Some(i64::MAX)
    } else {
        Some(magnitude as i64)
    }
}

/// `n * 2^e`, where it is at most `2^63`.
fn scaled_up(n: u64, e: u32) -> (r: Option<u64>)
    ensures
        match r {
            Some(m) => m == n * pow2(e as nat) && m <= 0x8000_0000_0000_0000,
            None => n * pow2(e as nat) > 0x8000_0000_0000_0000,
        },
{
    let mut m: u64 = n;
    let mut i: u32 = 0;
    proof {
        lemma2_to64();
        lemma_pow2_pos(e as nat);
    }
    if m > 0x8000_0000_0000_0000 {
        assert(n * pow2(e as nat) >= n) by (nonlinear_arith)
            requires
                pow2(e as nat) >= 1,
        ;
        return None;
    }
    while i < e
        invariant
            i <= e,
            m == n * pow2(i as nat),
            m <= 0x8000_0000_0000_0000,
        decreases e - i,
    {
        proof {
            let p = pow2(i as nat);
            lemma_pow2_unfold((i + 1) as nat);
            assert(n * (2 * p) == 2 * (n * p)) by (nonlinear_arith);
        }
        if m > 0x4000_0000_0000_0000 {
            proof {
                let p = pow2((i + 1) as nat);
                let q = pow2(e as nat);
                if i + 1 < e {
                    lemma_pow2_strictly_increases((i + 1) as nat, e as nat);
                }
                assert(n * p <= n * q) by (nonlinear_arith)
                    requires
                        p <= q,
                ;
            }
            return None;
        }
        m = m * 2;
        i += 1;
    }
    Some(m)
}

/// `n / 2^k`, rounded with ties upwards.
fn scaled_down(n: u64, k: u32) -> (r: u64)
    requires
        n <= pow2(53),
        k > 0,
    ensures
        r == round_half_up(n as nat, k as nat),
        r <= n,
{
    proof {
        lemma2_to64();
        lemma2_to64_rest();
        lemma_pow2_unfold(k as nat);
    }
    if k > 63 {
        proof {
            lemma_pow2_strictly_increases(53, (k - 1) as nat);
            let u = pow2(k as nat) as int;
            let h = pow2((k - 1) as nat) as int;
            assert((n + u / 2) / u == 0) by (nonlinear_arith)
                requires
                    u == 2 * h,
                    n < h,
                    h > 0,
            ;
        }
        return 0;
    }
    let unit: u64 = power_of_two(k);
    proof {
        if k < 63 {
            lemma_pow2_strictly_increases(k as nat, 63);
        }
        lemma_pow2_strictly_increases(0, k as nat);
        let u = unit as int;
        let h = pow2((k - 1) as nat);
        lemma_pow2_pos((k - 1) as nat);
        assert((n + u / 2) / u <= n) by (nonlinear_arith)
            requires
                n >= 0,
                u == 2 * h,
                h >= 1,
        ;
    }
    (n + unit / 2) / unit
}

/// The double of a count below `2^53` is exact: its significand, scaled by its
/// exponent, is the count.
pub proof fn lemma_small_count_is_exact(n: u64)
    requires
        0 < n < pow2(53),
    ensures
        exponent(double_of(n) as u64) <= 0,
        is_finite(double_of(n) as u64),
        !is_negative(double_of(n) as u64),
        significand(double_of(n) as u64) == n * pow2(
            (-exponent(double_of(n) as u64)) as nat,
        ),
{
    let len = bit_length(n as nat);
    lemma2_to64();
    lemma2_to64_rest();
    lemma_bit_length(n as nat);
    lemma_bit_length_bound(n as nat, 53);
    let scale = pow2((53 - len) as nat);
    lemma_pow2_adds(len, (53 - len) as nat);
    lemma_pow2_adds((len - 1) as nat, (53 - len) as nat);
    assert(n * scale < pow2(len) * scale) by (nonlinear_arith)
        requires
            n < pow2(len),
            scale > 0,
    ;
    assert(n * scale >= pow2((len - 1) as nat) * scale) by (nonlinear_arith)
        requires
            n >= pow2((len - 1) as nat),
            scale > 0,
    ;
    let bits = double_of(n);
    let u = 0x10_0000_0000_0000int;
    assert(bits == (1022 + len) * u + (n * scale - u));
    assert(bits as int / u == 1022 + len && bits as int % u == n * scale - u)
        by (nonlinear_arith)
        requires
            bits == (1022 + len) * u + (n * scale - u),
            0 <= n * scale - u < u,
            u == 0x10_0000_0000_0000,
    ;
    assert(bits < 0x8000_0000_0000_0000);
}

} // verus!
