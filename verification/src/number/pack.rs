//! From an integer significand with an exponent to the magnitude bits of the
//! nearest single-precision number.
use crate::number::rounding::{
    fits_at, lemma_nearest_at, lemma_pow2_24, lemma_round_even_scale, nearest, round_even,
    round_from, EXPONENT_STEP, INFINITY_BITS, SIGNIFICAND_END,
};
use vstd::arithmetic::power2::{
    lemma2_to64, lemma2_to64_rest, lemma_pow2_adds, lemma_pow2_pos,
    lemma_pow2_strictly_increases, lemma_pow2_unfold, pow2,
};
use vstd::bits::{lemma_u64_shl_is_mul, lemma_u64_shr_is_div};
use vstd::prelude::*;

verus! {

/// Exponents are stored with this much added, so that they are never negative.
pub const OFFSET: u32 = 256;

/// One past the largest significand that `pack` takes, 2^62.
pub const WIDE_END: u64 = 0x4000_0000_0000_0000;

/// 2^62 in both notations.
pub proof fn lemma_wide_end()
    ensures
        pow2(62) == WIDE_END,
{
    lemma2_to64_rest();
}

/// `2^j * 2^i` below a power of two stays below the sum of the exponents.
pub proof fn lemma_pow2_le(i: nat, j: nat)
    requires
        i <= j,
    ensures
        0 < pow2(i) <= pow2(j),
{
    lemma_pow2_pos(i);
    if i < j {
        lemma_pow2_strictly_increases(i, j);
    }
}

/// `v * 2^s`, where that fits.
pub(crate) fn shift_up(v: u64, s: u32) -> (r: u64)
    requires
        s < 64,
        v * pow2(s as nat) <= u64::MAX,
    ensures
        r == v * pow2(s as nat),
{
    proof {
        lemma_u64_shl_is_mul(v, s as u64);
    }
    v << (s as u64)
}

/// `v / 2^s`, rounded down.
pub(crate) fn shift_down(v: u64, s: u32) -> (r: u64)
    requires
        s < 64,
    ensures
        r == v as nat / pow2(s as nat),
{
    proof {
        lemma_u64_shr_is_div(v, s as u64);
    }
    v >> (s as u64)
}

/// One step of the search in `bit_length`: `h` more bits are known to be below.
proof fn lemma_bit_step(v0: nat, v: nat, n: nat, h: nat)
    requires
        v * pow2(n) <= v0 < (v + 1) * pow2(n),
    ensures
        pow2(h) > 0,
        (v / pow2(h)) * pow2(n + h) <= v0 < (v / pow2(h) + 1) * pow2(n + h),
{
    lemma_pow2_pos(h);
    lemma_pow2_pos(n);
    lemma_pow2_adds(n, h);
    let p = pow2(n);
    let w = pow2(h);
    let q = v / w;
    let r = v % w;
    vstd::arithmetic::div_mod::lemma_fundamental_div_mod(v as int, w as int);
    assert(q * (p * w) <= v * p) by (nonlinear_arith)
        requires
            v == w * q + r,
            r >= 0,
    ;
    assert((v + 1) * p <= (q + 1) * (p * w)) by (nonlinear_arith)
        requires
            v == w * q + r,
            r + 1 <= w,
    ;
}

/// Number of binary digits of a positive integer.
pub(crate) fn bit_length(sig: u64) -> (n: u32)
    requires
        sig > 0,
    ensures
        1 <= n <= 64,
        pow2((n - 1) as nat) <= sig < pow2(n as nat),
{
    let mut v: u64 = sig;
    let mut n: u32 = 0;
    proof {
        lemma2_to64();
        assert(v * 1 == v);
    }
    if v >= 0x1_0000_0000 {
        proof {
            lemma_bit_step(sig as nat, v as nat, n as nat, 32);
        }
        v = v / 0x1_0000_0000;
        n = n + 32;
    }
    if v >= 0x1_0000 {
        proof {
            lemma_bit_step(sig as nat, v as nat, n as nat, 16);
        }
        v = v / 0x1_0000;
        n = n + 16;
    }
    if v >= 0x100 {
        proof {
            lemma_bit_step(sig as nat, v as nat, n as nat, 8);
        }
        v = v / 0x100;
        n = n + 8;
    }
    if v >= 0x10 {
        proof {
            lemma_bit_step(sig as nat, v as nat, n as nat, 4);
        }
        v = v / 0x10;
        n = n + 4;
    }
    if v >= 4 {
        proof {
            lemma_bit_step(sig as nat, v as nat, n as nat, 2);
        }
        v = v / 4;
        n = n + 2;
    }
    if v >= 2 {
        proof {
            lemma_bit_step(sig as nat, v as nat, n as nat, 1);
        }
        v = v / 2;
        n = n + 1;
    }
    proof {
        let p = pow2(n as nat);
        assert(v == 1);
        assert(1 * p == p && 2 * p == p + p) by (nonlinear_arith);
        lemma_pow2_unfold((n + 1) as nat);
    }
    n + 1
}

/// The integer nearest to `sig / 2^s`; of two equally near, the even one.
pub(crate) fn round_shift(sig: u64, s: u32) -> (m: u64)
    requires
        sig < WIDE_END,
        0 < s,
    ensures
        m == round_even(sig as nat, pow2(s as nat)),
{
    proof {
        lemma_pow2_pos(s as nat);
        lemma_wide_end();
    }
    if s >= 63 {
        proof {
            lemma_pow2_unfold(s as nat);
            lemma_pow2_le(62, (s - 1) as nat);
            assert(2 * sig < pow2(s as nat));
            vstd::arithmetic::div_mod::lemma_fundamental_div_mod_converse(
                sig as int,
                pow2(s as nat) as int,
                0,
                sig as int,
            );
        }
        0
    } else {
        proof {
            lemma_pow2_le(s as nat, 62);
            assert(1 * pow2(s as nat) == pow2(s as nat));
        }
        let q: u64 = shift_down(sig, s);
        let ghost p = pow2(s as nat);
        proof {
            vstd::arithmetic::div_mod::lemma_fundamental_div_mod(sig as int, p as int);
            assert(q * p == p * q) by (nonlinear_arith);
        }
        let low: u64 = sig - shift_up(q, s);
        let whole: u64 = shift_up(1, s);
        assert(low == sig as nat % p);
        if 2 * low < whole || (2 * low == whole && q % 2 == 0) {
            q
        } else {
            q + 1
        }
    }
}

/// The exponent chosen in `pack` fits.
proof fn lemma_pack_fits(sig: nat, k: nat, len: nat, e: nat)
    requires
        len >= 1,
        pow2((len - 1) as nat) <= sig < pow2(len),
        e == (if len + k > 24 + OFFSET {
            (len + k - 24 - OFFSET) as nat
        } else {
            0
        }),
    ensures
        fits_at(sig * pow2(k), pow2(OFFSET as nat), e),
{
    lemma_pow2_pos(k);
    lemma_pow2_adds(len, k);
    lemma_pow2_adds(OFFSET as nat, (24 + e) as nat);
    lemma_pow2_le(len + k, OFFSET as nat + 24 + e);
    let p = pow2(k);
    assert(sig * p < pow2(len) * p) by (nonlinear_arith)
        requires
            sig < pow2(len),
            p > 0,
    ;
    if e > 0 {
        lemma_pow2_adds((len - 1) as nat, k);
        lemma_pow2_adds(OFFSET as nat, (23 + e) as nat);
        let l = pow2((len - 1) as nat);
        assert(l * p <= sig * p) by (nonlinear_arith)
            requires
                l <= sig,
        ;
    }
}

/// Magnitude bits of the number nearest to `sig * 2^(k - OFFSET)` units.
pub(crate) fn pack(sig: u64, k: u32) -> (b: u32)
    requires
        0 < sig < WIDE_END,
        k <= 800,
    ensures
        b == nearest(sig as nat * pow2(k as nat), pow2(OFFSET as nat)),
{
    let len: u32 = bit_length(sig);
    let e: u32 = if len + k > 24 + OFFSET {
        len + k - 24 - OFFSET
    } else {
        0
    };
    let ghost n = sig as nat * pow2(k as nat);
    let ghost d = pow2(OFFSET as nat);
    proof {
        lemma_wide_end();
        lemma_pow2_24();
        lemma_pow2_pos(OFFSET as nat);
        lemma_pow2_pos(k as nat);
        lemma_pack_fits(sig as nat, k as nat, len as nat, e as nat);
        lemma_nearest_at(n, d, e as nat);
        lemma_pow2_adds(OFFSET as nat, e as nat);
        if len > 62 {
            lemma_pow2_le(62, (len - 1) as nat);
        }
    }
    let m: u64;
    if k >= OFFSET + e {
        let s: u32 = k - OFFSET - e;
        proof {
            lemma_pow2_adds(s as nat, (OFFSET + e) as nat);
            let c = pow2((OFFSET + e) as nat);
            let x = sig as nat * pow2(s as nat);
            lemma_pow2_pos((OFFSET + e) as nat);
            lemma_pow2_pos(s as nat);
            assert(sig as nat * (pow2(s as nat) * c) == x * c) by (nonlinear_arith)
                requires
                    x == sig as nat * pow2(s as nat),
            ;
            lemma_round_even_scale(x, 1, c);
            assert(round_even(x, 1) == x);
            lemma_pow2_adds(len as nat, s as nat);
            lemma_pow2_le((len + s) as nat, 24);
            assert(x < SIGNIFICAND_END) by (nonlinear_arith)
                requires
                    x == sig as nat * pow2(s as nat),
                    sig < pow2(len as nat),
                    pow2(len as nat) * pow2(s as nat) <= SIGNIFICAND_END,
                    pow2(s as nat) > 0,
            ;
        }
        m = shift_up(sig, s);
    } else {
        let s: u32 = OFFSET + e - k;
        proof {
            lemma_pow2_adds(s as nat, k as nat);
            lemma_pow2_pos(s as nat);
            lemma_round_even_scale(sig as nat, pow2(s as nat), pow2(k as nat));
        }
        m = round_shift(sig, s);
        proof {
            // the quotient is below 2^24, so the rounded one is at most 2^24
            let w = pow2((OFFSET + e) as nat);
            lemma_pow2_pos((OFFSET + e) as nat);
            lemma_pow2_adds(OFFSET as nat, (24 + e) as nat);
            lemma_pow2_adds((OFFSET + e) as nat, 24);
            assert(n < w * SIGNIFICAND_END as nat);
            vstd::arithmetic::div_mod::lemma_fundamental_div_mod(n as int, w as int);
            let q = n / w;
            assert(q < SIGNIFICAND_END) by (nonlinear_arith)
                requires
                    w * q <= n,
                    n < w * SIGNIFICAND_END as nat,
                    w > 0,
            ;
        }
    }
    assert(m == round_even(n, d * pow2(e as nat)));
    assert(m <= SIGNIFICAND_END);
    let b: u64 = m + (e as u64) * EXPONENT_STEP;
    assert(b == round_from(n, d, 0));
    if b < INFINITY_BITS as u64 {
        b as u32
    } else {
        INFINITY_BITS
    }
}

} // verus!
