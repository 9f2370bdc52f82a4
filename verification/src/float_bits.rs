//! Widening the bit pattern of an IEEE-754 binary32 to a binary64.
use vstd::prelude::*;
use vstd::arithmetic::power2::{lemma2_to64, lemma_pow2_adds, lemma_pow2_pos, lemma_pow2_unfold, pow2};
use vstd::bits::lemma_u64_shl_is_mul;

verus! {

/// The position of the highest set bit of `m` (0 for 0 and 1).
pub open spec fn msb(m: nat) -> nat
    decreases m,
{
    if m < 2 {
        0
    } else {
        1 + msb(m / 2)
    }
}

/// A number between `2^p` and `2^(p+1)` has its highest bit at `p`.
pub proof fn lemma_msb(m: nat, p: nat)
    requires
        pow2(p) <= m < pow2(p + 1),
    ensures
        msb(m) == p,
    decreases p,
{
    lemma_pow2_unfold(p + 1);
    if p == 0 {
        lemma2_to64();
    } else {
        lemma_pow2_unfold(p);
        lemma_msb(m / 2, (p - 1) as nat);
    }
}

/// The binary64 pattern of the number whose binary32 pattern is `x`.
/// Normal numbers keep sign and mantissa and have the exponent rebiased;
/// subnormal ones are normalised at their highest set bit; infinities stay
/// infinities; a NaN keeps its payload and is made quiet.
pub open spec fn f32_to_f64_bits(x: u32) -> u64 {
    let sign = (x >> 31u32) as u64;
    let e = ((x >> 23u32) & 0xffu32) as u64;
    let m = (x & 0x7f_ffffu32) as u64;
    if e == 0xff {
        if m == 0 {
            (sign << 63u64) | (0x7ffu64 << 52u64)
        } else {
            (sign << 63u64) | (0x7ffu64 << 52u64) | (1u64 << 51u64) | (m << 29u64)
        }
    } else if e == 0 {
        if m == 0 {
            sign << 63u64
        } else {
            let p = msb(m as nat);
            (sign << 63u64) | (((p + 874) as u64) << 52u64) | (((m - pow2(p)) as u64) << ((52 - p) as u64))
        }
    } else {
        (sign << 63u64) | (((e + 896) as u64) << 52u64) | (m << 29u64)
    }
}

/// The biased exponent field of a binary64 pattern.
pub open spec fn f64_exponent(r: u64) -> u64 {
    (r >> 52u64) & 0x7ffu64
}

/// The fraction field of a binary64 pattern.
pub open spec fn f64_fraction(r: u64) -> u64 {
    r & 0xf_ffff_ffff_ffffu64
}

/// The biased exponent field of a binary32 pattern.
pub open spec fn f32_exponent(x: u32) -> u32 {
    (x >> 23u32) & 0xffu32
}

/// The fraction field of a binary32 pattern.
pub open spec fn f32_fraction(x: u32) -> u32 {
    x & 0x7f_ffffu32
}

/// A positive number below `2^23` has its highest set bit at `msb`, and that
/// bit is at most bit 22.
proof fn lemma_msb_bounds(m: nat)
    requires
        0 < m < pow2(23),
    ensures
        msb(m) <= 22,
        pow2(msb(m)) <= m < pow2(msb(m) + 1),
    decreases m,
{
    lemma2_to64();
    if m >= 2 {
        lemma_pow2_unfold(23);
        lemma_msb_bounds(m / 2);
        let q = msb(m / 2);
        lemma_pow2_unfold(q + 1);
        lemma_pow2_unfold(q + 2);
        assert(msb(m) == q + 1);
    }
}

/// Widening keeps the number.  The sign bit is kept.  A normal number keeps
/// its fraction, shifted into the wider field, and its unbiased exponent
/// (the bias grows from 127 to 1023); zero stays zero, an infinity an infinity
/// and a NaN a NaN.  A subnormal number `m * 2^-149` becomes a normal one
/// `(2^52 + F) * 2^(E - 1075)` of the same value, which, both sides taken
/// times `2^1127`, is the equation stated.
pub proof fn lemma_widening_keeps_the_number(x: u32)
    ensures
        f32_to_f64_bits(x) >> 63u64 == (x >> 31u32) as u64,
        0 < f32_exponent(x) < 0xff ==> f64_exponent(f32_to_f64_bits(x)) == f32_exponent(x) + 896
            && f64_fraction(f32_to_f64_bits(x)) == f32_fraction(x) * 0x2000_0000,
        f32_exponent(x) == 0 && f32_fraction(x) == 0 ==> f64_exponent(f32_to_f64_bits(x)) == 0
            && f64_fraction(f32_to_f64_bits(x)) == 0,
        f32_exponent(x) == 0xff ==> f64_exponent(f32_to_f64_bits(x)) == 0x7ff && (f64_fraction(
            f32_to_f64_bits(x),
        ) == 0 <==> f32_fraction(x) == 0),
        f32_exponent(x) == 0 && f32_fraction(x) != 0 ==> {
            let r = f32_to_f64_bits(x);
            &&& 0 < f64_exponent(r) < 0x7ff
            &&& (pow2(52) + f64_fraction(r)) * pow2((f64_exponent(r) - 874) as nat) == f32_fraction(x)
                * pow2(52)
        },
{
    let r = f32_to_f64_bits(x);
    let sign = (x >> 31u32) as u64;
    let e = ((x >> 23u32) & 0xffu32) as u64;
    let m = (x & 0x7f_ffffu32) as u64;
    assert(sign <= 1 && e <= 0xff && m <= 0x7f_ffff && e == f32_exponent(x) && m == f32_fraction(x))
        by (bit_vector)
        requires
            sign == (x >> 31u32) as u64,
            e == ((x >> 23u32) & 0xffu32) as u64,
            m == (x & 0x7f_ffffu32) as u64,
    ;
    if e == 0xff {
        if m == 0 {
            assert(r == (sign << 63u64) | (0x7ffu64 << 52u64));
            assert(r >> 63u64 == sign && f64_exponent(r) == 0x7ff && f64_fraction(r) == 0) by (bit_vector)
                requires
                    r == (sign << 63u64) | (0x7ffu64 << 52u64),
                    sign <= 1,
            ;
        } else {
            assert(r == (sign << 63u64) | (0x7ffu64 << 52u64) | (1u64 << 51u64) | (m << 29u64));
            assert(r >> 63u64 == sign && f64_exponent(r) == 0x7ff && f64_fraction(r) != 0) by (bit_vector)
                requires
                    r == (sign << 63u64) | (0x7ffu64 << 52u64) | (1u64 << 51u64) | (m << 29u64),
                    sign <= 1,
                    m <= 0x7f_ffff,
            ;
        }
    } else if e == 0 {
        if m == 0 {
            assert(r == sign << 63u64);
            assert(r >> 63u64 == sign && f64_exponent(r) == 0 && f64_fraction(r) == 0) by (bit_vector)
                requires
                    r == sign << 63u64,
                    sign <= 1,
            ;
        } else {
            lemma2_to64();
            lemma_msb_bounds(m as nat);
            let p = msb(m as nat);
            let q = (m - pow2(p)) as u64;
            let sh = (52 - p) as u64;
            let ex = (p + 874) as u64;
            lemma_pow2_unfold(p + 1);
            assert(q < pow2(p));
            assert(sh < 64 && (sh as nat) == (52 - p) as nat);
            lemma_pow2_adds(p, (52 - p) as nat);
            lemma_pow2_pos(p);
            lemma_pow2_pos((52 - p) as nat);
            assert(q * pow2(sh as nat) < pow2(52)) by (nonlinear_arith)
                requires
                    q < pow2(p),
                    pow2(p) * pow2(sh as nat) == pow2(52),
                    pow2(sh as nat) > 0,
            ;
            assert(pow2(52) == 0x10_0000_0000_0000) by {
                lemma2_to64();
                lemma_pow2_adds(26, 26);
            }
            assert(q * pow2(sh as nat) <= u64::MAX);
            lemma_u64_shl_is_mul(q, sh);
            let frac = q << sh;
            assert(frac < 0x10_0000_0000_0000);
            assert(r == (sign << 63u64) | (ex << 52u64) | frac);
            assert(r >> 63u64 == sign && f64_exponent(r) == ex && f64_fraction(r) == frac) by (bit_vector)
                requires
                    r == (sign << 63u64) | (ex << 52u64) | frac,
                    sign <= 1,
                    ex < 0x7ff,
                    frac < 0x10_0000_0000_0000,
            ;
            assert((f64_exponent(r) - 874) as nat == p);
            assert((pow2(52) + q * pow2(sh as nat)) * pow2(p) == (pow2(p) + q) * pow2(52)) by (nonlinear_arith)
                requires
                    pow2(p) * pow2(sh as nat) == pow2(52),
            ;
        }
    } else {
        let ex = (e + 896) as u64;
        assert(r == (sign << 63u64) | (ex << 52u64) | (m << 29u64));
        assert(r >> 63u64 == sign && f64_exponent(r) == ex && f64_fraction(r) == m * 0x2000_0000) by (bit_vector)
            requires
                r == (sign << 63u64) | (ex << 52u64) | (m << 29u64),
                ex == e + 896,
                sign <= 1,
                0 < e < 0xff,
                m <= 0x7f_ffff,
        ;
    }
}

/// Widens the binary32 pattern `x` to the binary64 pattern of the same number.
pub fn f32_bits_widened(x: u32) -> (r: u64)
    ensures
        r == f32_to_f64_bits(x),
{
    let sign = (x >> 31u32) as u64;
    let e = ((x >> 23u32) & 0xffu32) as u64;
    let m = (x & 0x7f_ffffu32) as u64;
    if e == 0xff {
        if m == 0 {
            (sign << 63u64) | (0x7ffu64 << 52u64)
        } else {
            (sign << 63u64) | (0x7ffu64 << 52u64) | (1u64 << 51u64) | (m << 29u64)
        }
    } else if e == 0 {
        if m == 0 {
            sign << 63u64
        } else {
            assert(m <= 0x7f_ffff) by (bit_vector)
                requires
                    m == (x & 0x7f_ffffu32) as u64,
            ;
            proof {
                lemma2_to64();
            }
            let mut p: u64 = 22;
            let mut t: u64 = 0x40_0000;
            while m < t
                invariant
                    0 < m,
                    p <= 22,
                    t == pow2(p as nat),
                    m < pow2((p + 1) as nat),
                decreases p,
            {
                proof {
                    lemma2_to64();
                    assert(p > 0);
                    lemma_pow2_unfold(p as nat);
                }
                t = t / 2;
                p = p - 1;
            }
            proof {
                lemma_msb(m as nat, p as nat);
            }
            (sign << 63u64) | ((p + 874) << 52u64) | ((m - t) << (52 - p))
        }
    } else {
        (sign << 63u64) | ((e + 896) << 52u64) | (m << 29u64)
    }
}

} // verus!
