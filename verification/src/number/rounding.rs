//! Rounding of exact positive quotients to the significand width of a
//! single-precision number.
//!
//! Magnitudes are counted in units of 2^-149, the distance between the two
//! smallest single-precision numbers. A magnitude `n / d` of such units becomes a
//! bit pattern without its sign bit.
use vstd::arithmetic::power2::{
    lemma_pow2_adds, lemma_pow2_pos, lemma_pow2_strictly_increases, lemma_pow2_unfold, pow2,
};
use vstd::prelude::*;

verus! {

/// Bit pattern of positive infinity.
pub const INFINITY_BITS: u32 = 0x7f80_0000;

/// One past the largest significand, 2^24.
pub const SIGNIFICAND_END: u64 = 0x100_0000;

/// Weight of the exponent field, 2^23.
pub const EXPONENT_STEP: u64 = 0x80_0000;

/// The integer nearest to `n / d`; of two equally near, the even one.
pub open spec fn round_even(n: nat, d: nat) -> nat {
    let q = n / d;
    let r = n % d;
    if 2 * r < d || (2 * r == d && q % 2 == 0) {
        q
    } else {
        q + 1
    }
}

/// Magnitude bits of `n / d * 2^e` units, where every exponent below `e` is known
/// to be too small: the exponent grows until the significand has 24 bits.
pub open spec fn round_from(n: nat, d: nat, e: nat) -> nat
    decreases n - d,
{
    if d == 0 {
        0
    } else if n < d * SIGNIFICAND_END as nat {
        round_even(n, d) + e * EXPONENT_STEP as nat
    } else {
        round_from(n, 2 * d, e + 1)
    }
}

/// Magnitude bits of the single-precision number nearest to `n / d` units.
pub open spec fn nearest(n: nat, d: nat) -> u32 {
    let b = round_from(n, d, 0);
    if b < INFINITY_BITS {
        b as u32
    } else {
        INFINITY_BITS
    }
}

/// `e` is the exponent at which the magnitude `n / d` has its 24-bit significand.
pub open spec fn fits_at(n: nat, d: nat, e: nat) -> bool {
    &&& n < d * pow2(24 + e)
    &&& e > 0 ==> d * pow2((23 + e) as nat) <= n
}

pub proof fn lemma_pow2_24()
    ensures
        pow2(23) == EXPONENT_STEP,
        pow2(24) == SIGNIFICAND_END,
        pow2(0) == 1,
        pow2(1) == 2,
{
    vstd::arithmetic::power2::lemma2_to64();
}

/// Rounding sees only the quotient.
pub proof fn lemma_round_even_scale(n: nat, d: nat, c: nat)
    requires
        d > 0,
        c > 0,
    ensures
        round_even(n * c, d * c) == round_even(n, d),
        n * c / (d * c) == n / d,
{
    let q = n / d;
    let r = n % d;
    vstd::arithmetic::div_mod::lemma_fundamental_div_mod(n as int, d as int);
    assert(n * c == q * (d * c) + r * c) by (nonlinear_arith)
        requires
            n == d * q + r,
    ;
    assert(0 <= r * c < d * c) by (nonlinear_arith)
        requires
            0 <= r < d,
            c > 0,
    ;
    vstd::arithmetic::div_mod::lemma_fundamental_div_mod_converse(
        (n * c) as int,
        (d * c) as int,
        q as int,
        (r * c) as int,
    );
    assert(2 * r < d <==> 2 * (r * c) < d * c) by (nonlinear_arith)
        requires
            c > 0,
    ;
    assert(2 * r == d <==> 2 * (r * c) == d * c) by (nonlinear_arith)
        requires
            c > 0,
    ;
}

/// The exponent found by `round_from` is the only one that fits.
pub proof fn lemma_round_from_at(n: nat, d: nat, e0: nat, e: nat)
    requires
        d > 0,
        n < d * pow2(24 + e),
        e > 0 ==> d * pow2((23 + e) as nat) <= n,
    ensures
        round_from(n, d, e0) == round_even(n, d * pow2(e)) + (e0 + e) * EXPONENT_STEP as nat,
    decreases e,
{
    lemma_pow2_24();
    if e == 0 {
        assert(d * 1 == d) by (nonlinear_arith);
    } else {
        lemma_pow2_unfold((23 + e) as nat);
        lemma_pow2_unfold((24 + e) as nat);
        lemma_pow2_unfold(e);
        let p = pow2((e - 1) as nat);
        assert(d * (2 * p) == (2 * d) * p) by (nonlinear_arith);
        let p23 = pow2((22 + e) as nat);
        let p24 = pow2((23 + e) as nat);
        assert(d * (2 * p23) == (2 * d) * p23) by (nonlinear_arith);
        assert(d * (2 * p24) == (2 * d) * p24) by (nonlinear_arith);
        if e > 1 {
            lemma_pow2_strictly_increases(24, (23 + e) as nat);
        }
        assert(d * SIGNIFICAND_END as nat <= n) by (nonlinear_arith)
            requires
                d * p24 <= n,
                SIGNIFICAND_END as nat <= p24,
        ;
        lemma_round_from_at(n, 2 * d, e0 + 1, (e - 1) as nat);
    }
}

/// Some exponent fits.
pub proof fn lemma_fitting_exponent(n: nat, d: nat) -> (e: nat)
    requires
        d > 0,
    ensures
        fits_at(n, d, e),
    decreases n - d,
{
    lemma_pow2_24();
    if n < d * SIGNIFICAND_END as nat {
        0
    } else {
        assert(2 * d <= n) by (nonlinear_arith)
            requires
                d * SIGNIFICAND_END as nat <= n,
        ;
        let f = lemma_fitting_exponent(n, 2 * d);
        lemma_pow2_unfold((24 + f) as nat);
        lemma_pow2_unfold((25 + f) as nat);
        let p = pow2((24 + f) as nat);
        assert(d * (2 * p) == (2 * d) * p) by (nonlinear_arith);
        if f > 0 {
            let q = pow2((23 + f) as nat);
            assert(d * (2 * q) == (2 * d) * q) by (nonlinear_arith);
        }
        f + 1
    }
}

/// `nearest` in closed form, once the exponent is known.
pub proof fn lemma_nearest_at(n: nat, d: nat, e: nat)
    requires
        d > 0,
        fits_at(n, d, e),
    ensures
        round_from(n, d, 0) == round_even(n, d * pow2(e)) + e * EXPONENT_STEP as nat,
{
    lemma_round_from_at(n, d, 0, e);
}

/// `nearest` depends on the quotient alone.
pub proof fn lemma_nearest_scale(n: nat, d: nat, c: nat)
    requires
        d > 0,
        c > 0,
    ensures
        nearest(n * c, d * c) == nearest(n, d),
        round_from(n * c, d * c, 0) == round_from(n, d, 0),
{
    let e = lemma_fitting_exponent(n, d);
    lemma_nearest_at(n, d, e);
    let p = pow2(24 + e);
    let q = pow2((23 + e) as nat);
    assert(d * c > 0) by (nonlinear_arith)
        requires
            d > 0,
            c > 0,
    ;
    assert(n < d * p ==> n * c < (d * c) * p) by (nonlinear_arith)
        requires
            c > 0,
    ;
    assert(d * q <= n ==> (d * c) * q <= n * c) by (nonlinear_arith)
        requires
            c > 0,
    ;
    lemma_nearest_at(n * c, d * c, e);
    lemma_pow2_pos(e);
    let w = pow2(e);
    assert((d * c) * w == (d * w) * c) by (nonlinear_arith);
    assert(d * w > 0) by (nonlinear_arith)
        requires
            d > 0,
            w > 0,
    ;
    lemma_round_even_scale(n, d * w, c);
}

/// A quotient strictly between two neighbouring halves rounds to the integer that
/// ends the half-open half.
pub proof fn lemma_round_even_between(n: nat, d: nat, t: nat)
    requires
        d > 0,
        t * d < 2 * n < (t + 1) * d,
    ensures
        round_even(n, d) == (t + 1) / 2,
{
    let h = t / 2;
    let s = t % 2;
    let r = n - h * d;
    assert(t * d == 2 * (h * d) + s * d) by (nonlinear_arith)
        requires
            t == 2 * h + s,
    ;
    assert((t + 1) * d == t * d + d) by (nonlinear_arith);
    if s == 0 {
        assert(s * d == 0) by (nonlinear_arith)
            requires
                s == 0,
        ;
        assert(0 < 2 * r < d);
    } else {
        assert(s * d == d) by (nonlinear_arith)
            requires
                s == 1,
        ;
        assert(d < 2 * r < 2 * d);
    }
    assert(n == d * h + r) by (nonlinear_arith)
        requires
            r == n - h * d,
    ;
    vstd::arithmetic::div_mod::lemma_fundamental_div_mod_converse(
        n as int,
        d as int,
        h as int,
        r as int,
    );
}

/// `c` cells of width 2^g / 2^o lie below the magnitude, and `c + 1` do not.
pub open spec fn in_cell(n: nat, d: nat, c: nat, g: nat, o: nat) -> bool {
    (c * pow2(g)) * d < n * pow2(o) < ((c + 1) * pow2(g)) * d
}

/// The exponent and the half steps that a cell of at least 2^24 leaves open are
/// the same for each magnitude in it.
proof fn lemma_cell_exponent(n1: nat, d1: nat, n2: nat, d2: nat, c: nat, g: nat, o: nat, e: nat)
    requires
        d1 > 0,
        d2 > 0,
        c >= SIGNIFICAND_END,
        in_cell(n1, d1, c, g, o),
        in_cell(n2, d2, c, g, o),
        fits_at(n1, d1, e),
    ensures
        e + o > g,
        fits_at(n2, d2, e),
{
    lemma_pow2_24();
    let w = pow2(g);
    let u = pow2(o);
    lemma_pow2_pos(g);
    lemma_pow2_pos(o);
    lemma_pow2_adds(24 + e, o);
    let top = pow2(24 + e + o);
    let p24 = pow2(24 + e);
    // c * w * d1 < n1 * u < d1 * p24 * u == d1 * top
    assert(n1 * u < d1 * top) by (nonlinear_arith)
        requires
            n1 < d1 * p24,
            p24 * u == top,
            u > 0,
    ;
    assert(c * w < top) by (nonlinear_arith)
        requires
            (c * w) * d1 < d1 * top,
            d1 > 0,
    ;
    if 24 + e + o <= 24 + g {
        lemma_pow2_adds(24, g);
        if 24 + e + o < 24 + g {
            lemma_pow2_strictly_increases(24 + e + o, 24 + g);
        }
        assert(c * w >= SIGNIFICAND_END as nat * w) by (nonlinear_arith)
            requires
                c >= SIGNIFICAND_END,
        ;
        assert(false);
    }
    // the upper bound is a multiple of the cell width
    let a = pow2((24 + e + o - g) as nat);
    lemma_pow2_adds((24 + e + o - g) as nat, g);
    assert(c + 1 <= a) by (nonlinear_arith)
        requires
            c * w < a * w,
            w > 0,
    ;
    assert(n2 * u < d2 * top) by (nonlinear_arith)
        requires
            n2 * u < ((c + 1) * w) * d2,
            c + 1 <= a,
            a * w == top,
    ;
    assert(n2 < d2 * p24) by (nonlinear_arith)
        requires
            n2 * u < d2 * top,
            p24 * u == top,
            u > 0,
    ;
    if e > 0 {
        let p23 = pow2((23 + e) as nat);
        let bottom = pow2((23 + e + o) as nat);
        lemma_pow2_adds((23 + e) as nat, o);
        let b = pow2((23 + e + o - g) as nat);
        lemma_pow2_adds((23 + e + o - g) as nat, g);
        assert(d1 * bottom <= n1 * u) by (nonlinear_arith)
            requires
                d1 * p23 <= n1,
                p23 * u == bottom,
        ;
        assert(b * w < (c + 1) * w) by (nonlinear_arith)
            requires
                d1 * (b * w) < ((c + 1) * w) * d1,
                d1 > 0,
        ;
        assert(b <= c) by (nonlinear_arith)
            requires
                b * w < (c + 1) * w,
                w > 0,
        ;
        assert(d2 * bottom <= n2 * u) by (nonlinear_arith)
            requires
                (c * w) * d2 < n2 * u,
                b <= c,
                b * w == bottom,
        ;
        assert(d2 * p23 <= n2) by (nonlinear_arith)
            requires
                d2 * bottom <= n2 * u,
                p23 * u == bottom,
                u > 0,
        ;
    }
}

/// In such a cell the rounded significand is fixed too.
proof fn lemma_cell_significand(n: nat, d: nat, c: nat, g: nat, o: nat, e: nat)
    requires
        d > 0,
        in_cell(n, d, c, g, o),
        e + o > g,
    ensures
        round_even(n, d * pow2(e)) == (c / pow2((e + o - 1 - g) as nat) + 1) / 2,
{
    let w = pow2(g);
    let u = pow2(o);
    let v = pow2(e);
    let j = (e + o - 1 - g) as nat;
    let f = pow2(j);
    lemma_pow2_pos(g);
    lemma_pow2_pos(o);
    lemma_pow2_pos(e);
    lemma_pow2_pos(j);
    lemma_pow2_adds(e, o);
    lemma_pow2_unfold(e + o);
    lemma_pow2_adds(j, g);
    assert(v * u == 2 * (f * w));
    let t = c / f;
    let rem = c % f;
    vstd::arithmetic::div_mod::lemma_fundamental_div_mod(c as int, f as int);
    assert(t * f <= c < (t + 1) * f) by (nonlinear_arith)
        requires
            c == f * t + rem,
            0 <= rem < f,
    ;
    let dv = d * v;
    assert(dv > 0) by (nonlinear_arith)
        requires
            d > 0,
            v > 0,
            dv == d * v,
    ;
    assert(t * dv < 2 * n) by (nonlinear_arith)
        requires
            (c * w) * d < n * u,
            t * f <= c,
            v * u == 2 * (f * w),
            dv == d * v,
            u > 0,
    {
        // multiply by u: t * d * v * u == 2 * t * f * w * d <= 2 * c * w * d < 2 * n * u
        assert((t * dv) * u == (t * d) * (v * u));
        assert((t * d) * (2 * (f * w)) == 2 * (((t * f) * w) * d));
        assert(((t * f) * w) * d <= (c * w) * d);
        assert((t * dv) * u < (2 * n) * u);
    }
    assert(2 * n < (t + 1) * dv) by (nonlinear_arith)
        requires
            n * u < ((c + 1) * w) * d,
            c < (t + 1) * f,
            v * u == 2 * (f * w),
            dv == d * v,
            u > 0,
    {
        assert(((t + 1) * dv) * u == ((t + 1) * d) * (v * u));
        assert(((t + 1) * d) * (2 * (f * w)) == 2 * ((((t + 1) * f) * w) * d));
        assert(((c + 1) * w) * d <= (((t + 1) * f) * w) * d);
        assert((2 * n) * u < ((t + 1) * dv) * u);
    }
    lemma_round_even_between(n, dv, t);
}

/// Two magnitudes in one cell of at least 2^24 round to the same number: what
/// lies below the cell's width does not matter, only that it is not zero.
pub proof fn lemma_same_cell(n1: nat, d1: nat, n2: nat, d2: nat, c: nat, g: nat, o: nat)
    requires
        d1 > 0,
        d2 > 0,
        c >= SIGNIFICAND_END,
        in_cell(n1, d1, c, g, o),
        in_cell(n2, d2, c, g, o),
    ensures
        nearest(n1, d1) == nearest(n2, d2),
{
    let e = lemma_fitting_exponent(n1, d1);
    lemma_cell_exponent(n1, d1, n2, d2, c, g, o, e);
    lemma_cell_significand(n1, d1, c, g, o, e);
    lemma_cell_significand(n2, d2, c, g, o, e);
    lemma_nearest_at(n1, d1, e);
    lemma_nearest_at(n2, d2, e);
}

/// Equal quotients round alike.
pub proof fn lemma_same_quotient(n1: nat, d1: nat, n2: nat, d2: nat)
    requires
        d1 > 0,
        d2 > 0,
        n1 * d2 == n2 * d1,
    ensures
        nearest(n1, d1) == nearest(n2, d2),
{
    lemma_nearest_scale(n1, d1, d2);
    lemma_nearest_scale(n2, d2, d1);
    assert(d1 * d2 == d2 * d1) by (nonlinear_arith);
}

/// Zero rounds to zero.
pub proof fn lemma_nearest_zero(d: nat)
    requires
        d > 0,
    ensures
        nearest(0, d) == 0,
{
    assert(0 < d * SIGNIFICAND_END as nat);
    vstd::arithmetic::div_mod::lemma_fundamental_div_mod_converse(0, d as int, 0, 0);
}

} // verus!
