//! Arithmetic on finite numbers taken apart into significand and exponent.
use crate::number::pack::{
    bit_length, lemma_pow2_le, lemma_wide_end, pack, shift_up, OFFSET, WIDE_END,
};
use crate::number::rounding::{
    in_cell, lemma_nearest_scale, lemma_pow2_24, lemma_same_cell, lemma_same_quotient, nearest,
    EXPONENT_STEP, INFINITY_BITS, SIGNIFICAND_END,
};
use crate::number::single::{
    floor_root, is_floor_root, nearest_root, nearest_signed, signed, units, Single, SIGN_BIT,
    UNIT_SHIFT,
};
use vstd::arithmetic::power2::{
    lemma2_to64, lemma2_to64_rest, lemma_pow2_adds, lemma_pow2_pos, lemma_pow2_unfold, pow2,
};
use vstd::prelude::*;

verus! {

/// A finite magnitude as a significand below 2^24 and an exponent.
pub(crate) fn split(mag: u32) -> (r: (u64, u32))
    requires
        mag < INFINITY_BITS,
    ensures
        units(mag) == r.0 * pow2(r.1 as nat),
        r.0 < SIGNIFICAND_END,
        r.1 <= 253,
        r.1 > 0 ==> r.0 >= EXPONENT_STEP,
        mag >= EXPONENT_STEP ==> r.0 >= EXPONENT_STEP,
        (mag == 0) == (r.0 == 0),
        (mag == 0) == (units(mag) == 0),
{
    proof {
        reveal(units);
        lemma_pow2_24();
    }
    if (mag as u64) < EXPONENT_STEP {
        assert(mag * 1 == mag);
        (mag as u64, 0)
    } else {
        let f: u64 = mag as u64 % EXPONENT_STEP;
        let e: u32 = (mag as u64 / EXPONENT_STEP) as u32;
        proof {
            lemma_pow2_pos((e - 1) as nat);
            let s = (f + EXPONENT_STEP) as nat;
            let p = pow2((e - 1) as nat);
            assert(s * p > 0) by (nonlinear_arith)
                requires
                    s > 0,
                    p > 0,
            ;
        }
        (f + EXPONENT_STEP, e - 1)
    }
}

/// `signed`, computed.
pub(crate) fn with_sign(negative: bool, mag: u32) -> (r: Single)
    requires
        mag <= INFINITY_BITS,
    ensures
        r == signed(negative, mag),
{
    if negative {
        Single { bits: SIGN_BIT + mag }
    } else {
        Single { bits: mag }
    }
}

/// `pack` for a whole number of units.
pub(crate) fn pack_whole(sig: u64, k: u32) -> (b: u32)
    requires
        0 < sig < WIDE_END,
        k <= 400,
    ensures
        b == nearest(sig as nat * pow2(k as nat), 1),
{
    proof {
        let c = pow2(OFFSET as nat);
        lemma_pow2_pos(OFFSET as nat);
        lemma_pow2_adds(k as nat, OFFSET as nat);
        lemma_nearest_scale(sig as nat * pow2(k as nat), 1, c);
        assert((sig as nat * pow2(k as nat)) * c == sig as nat * (pow2(k as nat) * c))
            by (nonlinear_arith);
        assert(1 * c == c);
    }
    pack(sig, k + OFFSET)
}

/// Where one number is so much smaller that it only tips the rounding of the
/// other: `mb * 2^kb` is less than the cell width `2^(ka - 8)`.
proof fn lemma_tipped(ma: nat, ka: nat, mb: nat, kb: nat, away: bool)
    requires
        EXPONENT_STEP <= ma < SIGNIFICAND_END,
        0 < mb < SIGNIFICAND_END,
        ka > kb + 36,
    ensures
        ({
            let va = ma * pow2(ka);
            let vb = mb * pow2(kb);
            &&& 0 < vb < va
            &&& away ==> nearest(va + vb, 1) == nearest(
                (512 * ma + 1) as nat * pow2((ka - 9) as nat),
                1,
            )
            &&& !away ==> nearest((va - vb) as nat, 1) == nearest(
                (512 * ma - 1) as nat * pow2((ka - 9) as nat),
                1,
            )
        }),
{
    lemma_pow2_24();
    lemma2_to64();
    let g = (ka - 8) as nat;
    let w = pow2(g);
    let x = pow2((ka - 9) as nat);
    let va = ma * pow2(ka);
    let vb = mb * pow2(kb);
    lemma_pow2_adds(8, g);
    lemma_pow2_unfold(g);
    lemma_pow2_pos(kb);
    lemma_pow2_pos((ka - 9) as nat);
    lemma_pow2_adds(24, kb);
    lemma_pow2_le(24 + kb, g);
    let pk = pow2(kb);
    assert(vb < w) by (nonlinear_arith)
        requires
            vb == mb * pk,
            mb < SIGNIFICAND_END,
            SIGNIFICAND_END as nat * pk <= w,
            pk > 0,
    ;
    assert(vb > 0) by (nonlinear_arith)
        requires
            vb == mb * pk,
            mb > 0,
            pk > 0,
    ;
    let c = 256 * ma;
    assert(va == c * w) by (nonlinear_arith)
        requires
            va == ma * pow2(ka),
            c == 256 * ma,
            pow2(ka) == 256 * w,
    ;
    assert((c + 1) * w == c * w + w) by (nonlinear_arith);
    assert(c * w >= w) by (nonlinear_arith)
        requires
            c >= 1,
    ;
    assert(w == 2 * x);
    if away {
        let n2 = (512 * ma + 1) as nat * x;
        assert(n2 == c * w + x) by (nonlinear_arith)
            requires
                n2 == (512 * ma + 1) * x,
                c == 256 * ma,
                w == 2 * x,
        ;
        assert(in_cell(va + vb, 1, c, g, 0)) by {
            assert((c * w) * 1 == c * w && ((c + 1) * w) * 1 == (c + 1) * w && (va + vb) * 1 == va
                + vb);
        }
        assert(in_cell(n2, 1, c, g, 0)) by {
            assert((c * w) * 1 == c * w && ((c + 1) * w) * 1 == (c + 1) * w && n2 * 1 == n2);
        }
        lemma_same_cell(va + vb, 1, n2, 1, c, g, 0);
    } else {
        let c1 = (c - 1) as nat;
        let n1 = (va - vb) as nat;
        let n2 = (512 * ma - 1) as nat * x;
        assert(c1 * w == c * w - w) by (nonlinear_arith)
            requires
                c1 == c - 1,
        ;
        assert(n2 == c * w - x) by (nonlinear_arith)
            requires
                n2 == (512 * ma - 1) * x,
                c == 256 * ma,
                w == 2 * x,
        ;
        assert((c1 + 1) * w == c * w);
        assert(in_cell(n1, 1, c1, g, 0)) by {
            assert((c1 * w) * 1 == c1 * w && ((c1 + 1) * w) * 1 == (c1 + 1) * w && n1 * 1 == n1);
        }
        assert(in_cell(n2, 1, c1, g, 0)) by {
            assert((c1 * w) * 1 == c1 * w && ((c1 + 1) * w) * 1 == (c1 + 1) * w && n2 * 1 == n2);
        }
        lemma_same_cell(n1, 1, n2, 1, c1, g, 0);
    }
}

/// Sum of two finite numbers given by sign, significand and exponent, the first
/// with the larger exponent.
pub(crate) fn add_split(na: bool, ma: u64, ka: u32, nb: bool, mb: u64, kb: u32) -> (r: Single)
    requires
        kb <= ka <= 253,
        ma < SIGNIFICAND_END,
        mb < SIGNIFICAND_END,
        ka > 0 ==> ma >= EXPONENT_STEP,
    ensures
        ({
            let va = if na {
                -(ma * pow2(ka as nat))
            } else {
                ma * pow2(ka as nat)
            };
            let vb = if nb {
                -(mb * pow2(kb as nat))
            } else {
                mb * pow2(kb as nat)
            };
            r == if va + vb == 0 {
                signed(va <= 0 && na && nb, 0)
            } else {
                nearest_signed(va + vb)
            }
        }),
{
    let gap: u32 = ka - kb;
    proof {
        lemma_wide_end();
        lemma_pow2_24();
        lemma_pow2_pos(ka as nat);
        lemma_pow2_pos(kb as nat);
        lemma_pow2_adds(gap as nat, kb as nat);
    }
    let ghost pa = pow2(ka as nat);
    let ghost pb = pow2(kb as nat);
    let ghost pg = pow2(gap as nat);
    if gap <= 36 {
        proof {
            lemma_pow2_le(gap as nat, 36);
            lemma2_to64_rest();
            assert(ma * pg <= 0x100_0000 * 0x10_0000_0000) by (nonlinear_arith)
                requires
                    ma < 0x100_0000,
                    0 < pg <= 0x10_0000_0000,
            ;
        }
        let x: u64 = shift_up(ma, gap);
        let y: u64 = mb;
        proof {
            assert(ma * (pg * pb) == x * pb) by (nonlinear_arith)
                requires
                    x == ma * pg,
            ;
            assert((x + y) * pb == x * pb + y * pb) by (nonlinear_arith);
            assert((x - y) * pb == x * pb - y * pb) by (nonlinear_arith);
            assert((y - x) * pb == y * pb - x * pb) by (nonlinear_arith);
            assert(x > y ==> (x - y) * pb > 0) by (nonlinear_arith)
                requires
                    pb > 0,
            ;
            assert(y > x ==> (y - x) * pb > 0) by (nonlinear_arith)
                requires
                    pb > 0,
            ;
            assert(x + y > 0 ==> (x + y) * pb > 0) by (nonlinear_arith)
                requires
                    pb > 0,
            ;
        }
        let s: u64;
        let neg: bool;
        if na == nb {
            s = x + y;
            neg = na;
        } else if x >= y {
            s = x - y;
            neg = na;
        } else {
            s = y - x;
            neg = nb;
        }
        if s == 0 {
            assert(0 * pb == 0);
            with_sign(na && nb, 0)
        } else {
            let mag: u32 = pack_whole(s, kb);
            with_sign(neg, mag)
        }
    } else if mb == 0 {
        assert(0 * pb == 0);
        assert(ma * pa > 0) by (nonlinear_arith)
            requires
                ma > 0,
                pa > 0,
        ;
        let mag: u32 = pack_whole(ma, ka);
        with_sign(na, mag)
    } else {
        proof {
            lemma_tipped(ma as nat, ka as nat, mb as nat, kb as nat, na == nb);
        }
        let sig: u64 = if na == nb {
            512 * ma + 1
        } else {
            512 * ma - 1
        };
        let mag: u32 = pack_whole(sig, ka - 9);
        with_sign(na, mag)
    }
}

/// Magnitude bits of the product of two finite positive numbers.
pub(crate) fn mul_split(ma: u64, ka: u32, mb: u64, kb: u32) -> (b: u32)
    requires
        0 < ma < SIGNIFICAND_END,
        0 < mb < SIGNIFICAND_END,
        ka <= 253,
        kb <= 253,
    ensures
        b == nearest(
            (ma * pow2(ka as nat)) as nat * (mb * pow2(kb as nat)) as nat,
            pow2(UNIT_SHIFT as nat),
        ),
{
    assert(0 < ma * mb < WIDE_END) by (nonlinear_arith)
        requires
            0 < ma < 0x100_0000,
            0 < mb < 0x100_0000,
    ;
    let sig: u64 = ma * mb;
    proof {
        let c = pow2(107);
        let one = pow2(UNIT_SHIFT as nat);
        let pa = pow2(ka as nat);
        let pb = pow2(kb as nat);
        lemma_pow2_pos(107);
        lemma_pow2_pos(UNIT_SHIFT as nat);
        lemma_pow2_adds(UNIT_SHIFT as nat, 107);
        lemma_pow2_adds(ka as nat, kb as nat);
        lemma_pow2_adds((ka + kb) as nat, 107);
        let n = (ma * pa) as nat * (mb * pb) as nat;
        lemma_nearest_scale(n, one, c);
        assert(n * c == sig as nat * ((pa * pb) * c)) by (nonlinear_arith)
            requires
                n == (ma * pa) * (mb * pb),
                sig == ma * mb,
        ;
    }
    pack(sig, ka + kb + 107)
}

/// The exact quotient and the integer quotient `q` of the widened significands lie
/// in one cell, or are equal.
proof fn lemma_div_cell(
    ma: nat,
    ka: nat,
    mb: nat,
    kb: nat,
    t: nat,
    x: nat,
    q: nat,
    g: nat,
)
    requires
        ma > 0,
        mb > 0,
        t <= 24,
        x == (ma * pow2(t)) * pow2(27),
        g + kb + t + 27 == ka + UNIT_SHIFT + OFFSET,
        g > 0,
        q >= SIGNIFICAND_END,
        q * mb <= x < (q + 1) * mb,
    ensures
        mb * pow2(kb) > 0,
        x == q * mb ==> nearest(
            (ma * pow2(ka)) * pow2(UNIT_SHIFT as nat),
            mb * pow2(kb),
        ) == nearest((2 * q) * pow2((g - 1) as nat), pow2(OFFSET as nat)),
        x != q * mb ==> nearest(
            (ma * pow2(ka)) * pow2(UNIT_SHIFT as nat),
            mb * pow2(kb),
        ) == nearest((2 * q + 1) * pow2((g - 1) as nat), pow2(OFFSET as nat)),
{
    let pa = pow2(ka);
    let pb = pow2(kb);
    let pt = pow2(t);
    let p27 = pow2(27);
    let one = pow2(UNIT_SHIFT as nat);
    let o = pow2(OFFSET as nat);
    let w = pow2(g);
    let h = pow2((g - 1) as nat);
    lemma_pow2_pos(ka);
    lemma_pow2_pos(kb);
    lemma_pow2_pos(t);
    lemma_pow2_pos(27);
    lemma_pow2_pos(UNIT_SHIFT as nat);
    lemma_pow2_pos(OFFSET as nat);
    lemma_pow2_pos((g - 1) as nat);
    lemma_pow2_unfold(g);
    // both sides of the exponent balance
    let z = pow2(ka + UNIT_SHIFT as nat + OFFSET as nat);
    lemma_pow2_pos(ka + UNIT_SHIFT as nat + OFFSET as nat);
    lemma_pow2_adds(ka, UNIT_SHIFT as nat);
    lemma_pow2_adds(ka + UNIT_SHIFT as nat, OFFSET as nat);
    lemma_pow2_adds(g, kb);
    lemma_pow2_adds(g + kb, t);
    lemma_pow2_adds(g + kb + t, 27);
    let s = pt * p27;
    assert(s > 0) by (nonlinear_arith)
        requires
            pt > 0,
            p27 > 0,
            s == pt * p27,
    ;
    assert((w * pb) * s == z) by (nonlinear_arith)
        requires
            ((w * pb) * pt) * p27 == z,
            s == pt * p27,
    ;
    assert((pa * one) * o == z);
    let n = (ma * pa) * one;
    let d = mb * pb;
    assert(d > 0) by (nonlinear_arith)
        requires
            mb > 0,
            pb > 0,
            d == mb * pb,
    ;
    assert((n * o) * s == x * z) by (nonlinear_arith)
        requires
            n == (ma * pa) * one,
            (pa * one) * o == z,
            s == pt * p27,
            x == (ma * pt) * p27,
    ;
    assert(((q * w) * d) * s == (q * mb) * z) by (nonlinear_arith)
        requires
            d == mb * pb,
            (w * pb) * s == z,
    ;
    assert((((q + 1) * w) * d) * s == ((q + 1) * mb) * z) by (nonlinear_arith)
        requires
            d == mb * pb,
            (w * pb) * s == z,
    ;
    if x == q * mb {
        let n2 = (2 * q) * h;
        assert(n2 == q * w) by (nonlinear_arith)
            requires
                n2 == (2 * q) * h,
                w == 2 * h,
        ;
        assert(n * o == (q * w) * d) by (nonlinear_arith)
            requires
                (n * o) * s == ((q * w) * d) * s,
                s > 0,
        ;
        lemma_same_quotient(n, d, n2, o);
    } else {
        let n2 = (2 * q + 1) * h;
        assert(n2 == q * w + h && (q + 1) * w == q * w + 2 * h) by (nonlinear_arith)
            requires
                n2 == (2 * q + 1) * h,
                w == 2 * h,
        ;
        assert((q * w) * d < n * o) by (nonlinear_arith)
            requires
                (n * o) * s == x * z,
                ((q * w) * d) * s == (q * mb) * z,
                q * mb < x,
                z > 0,
                s > 0,
        ;
        assert(n * o < ((q + 1) * w) * d) by (nonlinear_arith)
            requires
                (n * o) * s == x * z,
                (((q + 1) * w) * d) * s == ((q + 1) * mb) * z,
                x < (q + 1) * mb,
                z > 0,
                s > 0,
        ;
        assert((q * w) * o < n2 * o < ((q + 1) * w) * o) by (nonlinear_arith)
            requires
                q * w < n2 < (q + 1) * w,
                o > 0,
        ;
        lemma_same_cell(n, d, n2, o, q, g, OFFSET as nat);
    }
}

/// Magnitude bits of the quotient of two finite positive numbers.
pub(crate) fn div_split(ma: u64, ka: u32, mb: u64, kb: u32) -> (b: u32)
    requires
        0 < ma < SIGNIFICAND_END,
        0 < mb < SIGNIFICAND_END,
        ka <= 253,
        kb <= 253,
    ensures
        b == nearest(
            (ma * pow2(ka as nat)) as nat * pow2(UNIT_SHIFT as nat),
            (mb * pow2(kb as nat)) as nat,
        ),
{
    let len: u32 = bit_length(ma);
    proof {
        lemma_pow2_24();
        lemma2_to64();
        lemma2_to64_rest();
        if len > 24 {
            lemma_pow2_le(24, (len - 1) as nat);
        }
    }
    let t: u32 = 24 - len;
    proof {
        lemma_pow2_adds(len as nat, t as nat);
        lemma_pow2_adds((len - 1) as nat, t as nat);
        lemma_pow2_pos(t as nat);
        let pt = pow2(t as nat);
        assert(0x80_0000 <= ma * pt < 0x100_0000) by (nonlinear_arith)
            requires
                pow2((len - 1) as nat) * pt == 0x80_0000,
                pow2(len as nat) * pt == 0x100_0000,
                pow2((len - 1) as nat) <= ma < pow2(len as nat),
                pt > 0,
        ;
    }
    let m: u64 = shift_up(ma, t);
    let x: u64 = shift_up(m, 27);
    let q: u64 = x / mb;
    let g: u32 = ka + UNIT_SHIFT + OFFSET - kb - t - 27;
    proof {
        vstd::arithmetic::div_mod::lemma_fundamental_div_mod(x as int, mb as int);
        let r = x % mb;
        assert(q * mb <= x < (q + 1) * mb) by (nonlinear_arith)
            requires
                x == mb * q + r,
                0 <= r < mb,
        ;
        assert(q >= SIGNIFICAND_END) by (nonlinear_arith)
            requires
                x < (q + 1) * mb,
                mb < 0x100_0000,
                x >= 0x80_0000 * 0x800_0000,
        ;
        assert(q <= x) by (nonlinear_arith)
            requires
                q * mb <= x,
                mb >= 1,
        ;
        lemma_div_cell(
            ma as nat,
            ka as nat,
            mb as nat,
            kb as nat,
            t as nat,
            x as nat,
            q as nat,
            g as nat,
        );
    }
    let sig: u64 = if q * mb == x {
        2 * q
    } else {
        2 * q + 1
    };
    pack(sig, g - 1)
}

/// Two integers with the same square neighbourhood are equal.
proof fn lemma_floor_root_unique(n: nat, s: nat, t: nat)
    requires
        is_floor_root(n, s),
        is_floor_root(n, t),
    ensures
        s == t,
{
    if s < t {
        assert((s + 1) * (s + 1) <= t * t) by (nonlinear_arith)
            requires
                s + 1 <= t,
        ;
    } else if t < s {
        assert((t + 1) * (t + 1) <= s * s) by (nonlinear_arith)
            requires
                t + 1 <= s,
        ;
    }
}

/// Every natural number has a floor root.
pub proof fn lemma_floor_root(n: nat)
    ensures
        is_floor_root(n, floor_root(n)),
    decreases n,
{
    if n == 0 {
        assert(is_floor_root(n, 0)) by (nonlinear_arith)
            requires
                n == 0,
        ;
    } else {
        lemma_floor_root((n - 1) as nat);
        let s = floor_root((n - 1) as nat);
        if n < (s + 1) * (s + 1) {
            assert(is_floor_root(n, s));
        } else {
            let t = s + 1;
            assert((t + 1) * (t + 1) > t * t) by (nonlinear_arith);
            assert(is_floor_root(n, t));
        }
    }
}

/// Floor root of an integer below 2^56.
fn int_root(x: u64) -> (s: u64)
    requires
        x < 0x100_0000_0000_0000,
    ensures
        s * s <= x < (s + 1) * (s + 1),
        s < 0x1000_0000,
{
    let mut s: u64 = 0;
    let mut bit: u64 = 0x1000_0000;
    proof {
        assert(0x1000_0000 * 0x1000_0000 == 0x100_0000_0000_0000int) by (nonlinear_arith);
    }
    while bit > 1
        invariant
            1 <= bit <= 0x1000_0000,
            x < 0x100_0000_0000_0000,
            s * s <= x < (s + bit) * (s + bit),
            s + bit <= 0x1000_0000,
            bit == 1 || bit % 2 == 0,
            bit == 0x1000_0000 || bit == 0x800_0000 || bit == 0x400_0000 || bit == 0x200_0000 || bit
                == 0x100_0000 || bit == 0x80_0000 || bit == 0x40_0000 || bit == 0x20_0000 || bit
                == 0x10_0000 || bit == 0x8_0000 || bit == 0x4_0000 || bit == 0x2_0000 || bit
                == 0x1_0000 || bit == 0x8000 || bit == 0x4000 || bit == 0x2000 || bit == 0x1000
                || bit == 0x800 || bit == 0x400 || bit == 0x200 || bit == 0x100 || bit == 0x80
                || bit == 0x40 || bit == 0x20 || bit == 0x10 || bit == 8 || bit == 4 || bit == 2
                || bit == 1,
        decreases bit,
    {
        bit = bit / 2;
        let c: u64 = s + bit;
        assert(c * c <= 0x1000_0000 * 0x1000_0000) by (nonlinear_arith)
            requires
                0 <= c <= 0x1000_0000,
        ;
        if c * c <= x {
            s = c;
        }
    }
    s
}

/// The floor root of a widened significand `x` tells how the root of
/// `m * 2^(k + 149)` is rounded.
proof fn lemma_root_cell(n: nat, x: nat, s: nat, h: nat)
    requires
        n == x * pow2(2 * h),
        s * s <= x < (s + 1) * (s + 1),
        s >= SIGNIFICAND_END,
        h > 0,
    ensures
        s * s == x ==> nearest_root(n) == nearest((2 * s) * pow2((h - 1) as nat), 1),
        s * s != x ==> nearest_root(n) == nearest((2 * s + 1) * pow2((h - 1) as nat), 1),
{
    lemma_floor_root(n);
    let f = floor_root(n);
    let w = pow2(h);
    let v = pow2((h - 1) as nat);
    lemma_pow2_24();
    lemma_pow2_pos((h - 1) as nat);
    lemma_pow2_unfold(h);
    lemma_pow2_adds(h, h);
    let sw = s * w;
    let tw = (s + 1) * w;
    assert(sw * sw == (s * s) * (w * w)) by (nonlinear_arith)
        requires
            sw == s * w,
    ;
    assert(tw * tw == ((s + 1) * (s + 1)) * (w * w)) by (nonlinear_arith)
        requires
            tw == (s + 1) * w,
    ;
    assert(w * w > 0) by (nonlinear_arith)
        requires
            w > 0,
    ;
    if s * s == x {
        assert((sw + 1) * (sw + 1) > sw * sw) by (nonlinear_arith);
        lemma_floor_root_unique(n, f, sw);
        assert((2 * s) * v == sw) by (nonlinear_arith)
            requires
                sw == s * w,
                w == 2 * v,
        ;
    } else {
        assert(sw * sw < n) by (nonlinear_arith)
            requires
                sw * sw == (s * s) * (w * w),
                n == x * (w * w),
                s * s < x,
                w * w > 0,
        ;
        assert(n < tw * tw) by (nonlinear_arith)
            requires
                tw * tw == ((s + 1) * (s + 1)) * (w * w),
                n == x * (w * w),
                x < (s + 1) * (s + 1),
                w * w > 0,
        ;
        // sw <= f, f + 1 <= tw, and f == sw only where f is no exact root
        assert(sw <= f) by (nonlinear_arith)
            requires
                sw * sw < n,
                n < (f + 1) * (f + 1),
        ;
        assert(f + 1 <= tw) by (nonlinear_arith)
            requires
                n < tw * tw,
                f * f <= n,
        ;
        let n2 = (2 * s + 1) * v;
        assert(n2 == sw + v && tw == sw + 2 * v) by (nonlinear_arith)
            requires
                n2 == (2 * s + 1) * v,
                sw == s * w,
                tw == (s + 1) * w,
                w == 2 * v,
        ;
        assert(in_cell(n2, 1, s, h, 0)) by {
            assert(sw * 1 == sw && tw * 1 == tw && n2 * 1 == n2);
        }
        if f * f == n {
            assert(in_cell(f, 1, s, h, 0)) by {
                assert(sw * 1 == sw && tw * 1 == tw && f * 1 == f);
                assert(sw != f);
            }
            lemma_same_cell(f, 1, n2, 1, s, h, 0);
        } else {
            assert(in_cell(2 * f + 1, 2, s, h, 0)) by {
                assert((2 * f + 1) * 1 == 2 * f + 1);
            }
            lemma_same_cell(2 * f + 1, 2, n2, 1, s, h, 0);
        }
    }
}

/// Magnitude bits of the root of a finite positive number.
pub(crate) fn sqrt_split(m0: u64, k0: u32) -> (b: u32)
    requires
        0 < m0 < SIGNIFICAND_END,
        k0 <= 253,
    ensures
        b == nearest_root((m0 * pow2(k0 as nat)) as nat * pow2(UNIT_SHIFT as nat)),
{
    let len: u32 = bit_length(m0);
    proof {
        lemma_pow2_24();
        lemma2_to64();
        lemma2_to64_rest();
        if len > 24 {
            lemma_pow2_le(24, (len - 1) as nat);
        }
    }
    // widen to 24 significant bits, one more where the exponent would be odd
    let t0: u32 = 24 - len;
    let odd: bool = (k0 + UNIT_SHIFT - t0) % 2 == 1;
    let t: u32 = if odd {
        t0 + 1
    } else {
        t0
    };
    let p: u32 = k0 + UNIT_SHIFT - t;
    proof {
        lemma_pow2_adds(len as nat, t0 as nat);
        lemma_pow2_adds((len - 1) as nat, t0 as nat);
        lemma_pow2_unfold((t0 + 1) as nat);
        lemma_pow2_pos(t0 as nat);
        let pt = pow2(t0 as nat);
        assert(0x80_0000 <= m0 * pt < 0x100_0000) by (nonlinear_arith)
            requires
                pow2((len - 1) as nat) * pt == 0x80_0000,
                pow2(len as nat) * pt == 0x100_0000,
                pow2((len - 1) as nat) <= m0 < pow2(len as nat),
                pt > 0,
        ;
        assert(m0 * (2 * pt) == 2 * (m0 * pt)) by (nonlinear_arith);
    }
    let m: u64 = shift_up(m0, t);
    let x: u64 = shift_up(m, 30);
    let s: u64 = int_root(x);
    let h: u32 = (p - 30) / 2;
    proof {
        assert(s >= SIGNIFICAND_END) by (nonlinear_arith)
            requires
                x < (s + 1) * (s + 1),
                x >= 0x80_0000 * 0x4000_0000,
        ;
        let n = (m0 * pow2(k0 as nat)) as nat * pow2(UNIT_SHIFT as nat);
        let pt = pow2(t as nat);
        let ph = pow2((2 * h) as nat);
        let p30 = pow2(30);
        lemma_pow2_pos(t as nat);
        lemma_pow2_adds(k0 as nat, UNIT_SHIFT as nat);
        lemma_pow2_adds(t as nat, 30);
        lemma_pow2_adds((t + 30) as nat, (2 * h) as nat);
        assert(n == x as nat * ph) by (nonlinear_arith)
            requires
                n == (m0 * pow2(k0 as nat)) * pow2(UNIT_SHIFT as nat),
                pow2(k0 as nat) * pow2(UNIT_SHIFT as nat) == (pt * p30) * ph,
                x == (m0 * pt) * p30,
        ;
        lemma_root_cell(n, x as nat, s as nat, h as nat);
    }
    let sig: u64 = if s * s == x {
        2 * s
    } else {
        2 * s + 1
    };
    pack_whole(sig, h - 1)
}

} // verus!
