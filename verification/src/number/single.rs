//! Single-precision numbers by their bit patterns, with the arithmetic of
//! IEEE 754: each operation gives the number nearest to the exact result.
use crate::number::arith::{
    add_split, div_split, mul_split, pack_whole, split, sqrt_split, with_sign,
};
use crate::number::pack::{lemma_pow2_le, shift_down, shift_up};
use crate::number::rounding::{
    lemma_nearest_zero, lemma_pow2_24, nearest, EXPONENT_STEP, INFINITY_BITS,
};
use vstd::arithmetic::power2::{
    lemma2_to64, lemma2_to64_rest, lemma_pow2_adds, lemma_pow2_pos, pow2,
};
use vstd::prelude::*;

verus! {

/// The bit that holds the sign.
pub const SIGN_BIT: u32 = 0x8000_0000;

/// Bits of the one "not a number" that the operations return.
pub const NAN_BITS: u32 = 0x7fc0_0000;

/// A unit is 2^-149, so 1 is 2^149 units.
pub const UNIT_SHIFT: u32 = 149;

/// A single-precision number.
#[derive(Clone, Copy, Debug, PartialEq, Eq, Structural)]
pub struct Single {
    pub bits: u32,
}

/// The number with the given bits.
#[verifier::allow_in_spec]
pub fn num(bits: u32) -> Single
    returns
        (Single { bits }),
{
    Single { bits }
}

/// Size of a finite magnitude, in units of 2^-149.
#[verifier::opaque]
pub open spec fn units(mag: u32) -> nat {
    if mag < EXPONENT_STEP {
        mag as nat
    } else {
        (mag as nat % EXPONENT_STEP as nat + EXPONENT_STEP as nat) * pow2(
            (mag as nat / EXPONENT_STEP as nat - 1) as nat,
        )
    }
}

/// The number with the given sign and magnitude bits.
pub open spec fn signed(negative: bool, mag: u32) -> Single {
    Single {
        bits: if negative {
            (SIGN_BIT + mag) as u32
        } else {
            mag
        },
    }
}

pub open spec fn not_a_number() -> Single {
    Single { bits: NAN_BITS }
}

impl Single {
    pub open spec fn negative(self) -> bool {
        self.bits >= SIGN_BIT
    }

    /// The bits without the sign.
    pub open spec fn magnitude(self) -> u32 {
        self.bits % SIGN_BIT
    }

    pub open spec fn is_nan(self) -> bool {
        self.magnitude() > INFINITY_BITS
    }

    pub open spec fn is_infinite(self) -> bool {
        self.magnitude() == INFINITY_BITS
    }

    pub open spec fn is_finite(self) -> bool {
        self.magnitude() < INFINITY_BITS
    }

    pub open spec fn is_zero(self) -> bool {
        self.magnitude() == 0
    }

    /// Size of a finite number, in units of 2^-149.
    pub open spec fn size(self) -> nat {
        units(self.magnitude())
    }

    /// Value of a finite number, in units of 2^-149.
    pub open spec fn value(self) -> int {
        if self.negative() {
            -(self.size() as int)
        } else {
            self.size() as int
        }
    }

    /// Place in the order of all numbers that are not NaN; the two zeros share it.
    pub open spec fn rank(self) -> int {
        if self.negative() {
            -(self.magnitude() as int)
        } else {
            self.magnitude() as int
        }
    }
}

pub open spec fn negated(a: Single) -> Single {
    signed(!a.negative(), a.magnitude())
}

/// The number nearest to an exact value `v` of whole units that is not zero.
pub open spec fn nearest_signed(v: int) -> Single {
    signed(
        v < 0,
        nearest(
            (if v < 0 {
                -v
            } else {
                v
            }) as nat,
            1,
        ),
    )
}

/// `a + b`.
#[verifier::opaque]
pub open spec fn sum(a: Single, b: Single) -> Single {
    if a.is_nan() || b.is_nan() || (a.is_infinite() && b.is_infinite() && a != b) {
        not_a_number()
    } else if a.is_infinite() {
        a
    } else if b.is_infinite() {
        b
    } else if a.value() + b.value() == 0 {
        signed(a.negative() && b.negative(), 0)
    } else {
        nearest_signed(a.value() + b.value())
    }
}

/// `a - b`.
pub open spec fn difference(a: Single, b: Single) -> Single {
    sum(a, negated(b))
}

/// `a * b`.
#[verifier::opaque]
pub open spec fn product(a: Single, b: Single) -> Single {
    if a.is_nan() || b.is_nan() || (a.is_infinite() && b.is_zero()) || (a.is_zero()
        && b.is_infinite()) {
        not_a_number()
    } else {
        signed(
            a.negative() != b.negative(),
            if a.is_infinite() || b.is_infinite() {
                INFINITY_BITS
            } else {
                nearest(a.size() * b.size(), pow2(UNIT_SHIFT as nat))
            },
        )
    }
}

/// `a / b`.
#[verifier::opaque]
pub open spec fn quotient(a: Single, b: Single) -> Single {
    if a.is_nan() || b.is_nan() || (a.is_infinite() && b.is_infinite()) || (a.is_zero()
        && b.is_zero()) {
        not_a_number()
    } else {
        signed(
            a.negative() != b.negative(),
            if a.is_infinite() || b.is_zero() {
                INFINITY_BITS
            } else if b.is_infinite() {
                0
            } else {
                nearest(a.size() * pow2(UNIT_SHIFT as nat), b.size())
            },
        )
    }
}

/// `s` is the largest integer whose square is at most `n`.
pub open spec fn is_floor_root(n: nat, s: nat) -> bool {
    s * s <= n < (s + 1) * (s + 1)
}

/// The largest integer whose square is at most `n`.
pub open spec fn floor_root(n: nat) -> nat {
    choose|s: nat| is_floor_root(n, s)
}

/// Magnitude bits of the number nearest to the square root of `n` units of one
/// unit each, for `n` of at least 2^149.
///
/// A root that is no integer lies strictly between `s` and `s + 1`. So large a
/// root is rounded in steps that are whole numbers, and so are the points at
/// which the rounding changes: `s + 1/2` is rounded like the root.
pub open spec fn nearest_root(n: nat) -> u32 {
    let s = floor_root(n);
    if s * s == n {
        nearest(s, 1)
    } else {
        nearest(2 * s + 1, 2)
    }
}

/// The square root of `a`.
#[verifier::opaque]
pub open spec fn root(a: Single) -> Single {
    if a.is_nan() || (a.negative() && !a.is_zero()) {
        not_a_number()
    } else if a.is_zero() || a.is_infinite() {
        a
    } else {
        signed(false, nearest_root(a.size() * pow2(UNIT_SHIFT as nat)))
    }
}

/// `a < b`.
pub open spec fn less(a: Single, b: Single) -> bool {
    !a.is_nan() && !b.is_nan() && a.rank() < b.rank()
}

/// `a <= b`.
pub open spec fn at_most(a: Single, b: Single) -> bool {
    !a.is_nan() && !b.is_nan() && a.rank() <= b.rank()
}

/// The larger of two numbers; a NaN gives way to the other.
pub open spec fn larger(a: Single, b: Single) -> Single {
    if a.is_nan() || less(a, b) {
        b
    } else {
        a
    }
}

/// The smaller of two numbers; a NaN gives way to the other.
pub open spec fn smaller(a: Single, b: Single) -> Single {
    if a.is_nan() || less(b, a) {
        b
    } else {
        a
    }
}

/// `a` brought into the range from `lo` to `hi`; a NaN stays.
pub open spec fn limited(a: Single, lo: Single, hi: Single) -> Single {
    if less(a, lo) {
        lo
    } else if less(hi, a) {
        hi
    } else {
        a
    }
}

pub open spec fn absolute(a: Single) -> Single {
    signed(false, a.magnitude())
}

/// A whole number brought to the nearest single-precision number.
#[verifier::opaque]
pub open spec fn of_whole(v: nat) -> Single {
    signed(false, nearest(v * pow2(UNIT_SHIFT as nat), 1))
}

/// The conversion to an unsigned integer type with the largest value `max`:
/// towards zero, held at both ends of the type, 0 for a NaN.
#[verifier::opaque]
pub open spec fn truncated(a: Single, max: nat) -> nat {
    if a.is_nan() || a.negative() {
        0
    } else if a.is_infinite() || a.size() / pow2(UNIT_SHIFT as nat) > max {
        max
    } else {
        a.size() / pow2(UNIT_SHIFT as nat)
    }
}

/// The same for the next whole number upwards.
#[verifier::opaque]
pub open spec fn raised(a: Single, max: nat) -> nat {
    let one = pow2(UNIT_SHIFT as nat);
    if a.is_nan() || a.negative() {
        0
    } else if a.is_infinite() || (a.size() + one - 1) as nat / one > max {
        max
    } else {
        (a.size() + one - 1) as nat / one
    }
}

/// The quotient rounded up.
proof fn lemma_divide_up(n: nat, d: nat)
    requires
        d > 0,
    ensures
        (n + d - 1) as nat / d == n / d + (if n % d != 0 {
            1nat
        } else {
            0
        }),
{
    let q = n / d;
    let r = n % d;
    vstd::arithmetic::div_mod::lemma_fundamental_div_mod(n as int, d as int);
    assert(n == q * d + r) by (nonlinear_arith)
        requires
            n == d * q + r,
    ;
    assert((q + 1) * d == q * d + d) by (nonlinear_arith);
    if r != 0 {
        vstd::arithmetic::div_mod::lemma_fundamental_div_mod_converse(
            n + d - 1,
            d as int,
            (q + 1) as int,
            r - 1,
        );
    } else {
        vstd::arithmetic::div_mod::lemma_fundamental_div_mod_converse(
            n + d - 1,
            d as int,
            q as int,
            d - 1,
        );
    }
}

impl Single {
    fn sign(self) -> (r: bool)
        ensures
            r == self.negative(),
    {
        self.bits >= SIGN_BIT
    }

    fn mag(self) -> (r: u32)
        ensures
            r == self.magnitude(),
    {
        self.bits % SIGN_BIT
    }

    pub fn neg(self) -> (r: Single)
        ensures
            r == negated(self),
    {
        if self.bits >= SIGN_BIT {
            Single { bits: self.bits - SIGN_BIT }
        } else {
            Single { bits: self.bits + SIGN_BIT }
        }
    }

    /// `self + other`.
    pub fn plus(self, other: Single) -> (r: Single)
        ensures
            r == sum(self, other),
    {
        proof {
            reveal(sum);
        }
        let a: u32 = self.mag();
        let b: u32 = other.mag();
        if a > INFINITY_BITS || b > INFINITY_BITS {
            return Single { bits: NAN_BITS };
        }
        if a == INFINITY_BITS {
            if b == INFINITY_BITS && self.bits != other.bits {
                return Single { bits: NAN_BITS };
            }
            return self;
        }
        if b == INFINITY_BITS {
            return other;
        }
        let (ma, ka) = split(a);
        let (mb, kb) = split(b);
        if ka >= kb {
            add_split(self.sign(), ma, ka, other.sign(), mb, kb)
        } else {
            add_split(other.sign(), mb, kb, self.sign(), ma, ka)
        }
    }

    /// `self - other`.
    pub fn minus(self, other: Single) -> (r: Single)
        ensures
            r == difference(self, other),
    {
        self.plus(other.neg())
    }

    /// `self * other`.
    pub fn times(self, other: Single) -> (r: Single)
        ensures
            r == product(self, other),
    {
        proof {
            reveal(product);
        }
        let a: u32 = self.mag();
        let b: u32 = other.mag();
        let neg: bool = self.sign() != other.sign();
        if a > INFINITY_BITS || b > INFINITY_BITS || (a == INFINITY_BITS && b == 0) || (a == 0 && b
            == INFINITY_BITS) {
            return Single { bits: NAN_BITS };
        }
        if a == INFINITY_BITS || b == INFINITY_BITS {
            return with_sign(neg, INFINITY_BITS);
        }
        let (ma, ka) = split(a);
        let (mb, kb) = split(b);
        if ma == 0 || mb == 0 {
            proof {
                lemma_pow2_pos(UNIT_SHIFT as nat);
                lemma_nearest_zero(pow2(UNIT_SHIFT as nat));
                assert(self.size() * other.size() == 0) by (nonlinear_arith)
                    requires
                        self.size() == 0 || other.size() == 0,
                ;
            }
            return with_sign(neg, 0);
        }
        let mag: u32 = mul_split(ma, ka, mb, kb);
        with_sign(neg, mag)
    }

    /// `self / other`.
    pub fn over(self, other: Single) -> (r: Single)
        ensures
            r == quotient(self, other),
    {
        proof {
            reveal(quotient);
        }
        let a: u32 = self.mag();
        let b: u32 = other.mag();
        let neg: bool = self.sign() != other.sign();
        if a > INFINITY_BITS || b > INFINITY_BITS || (a == INFINITY_BITS && b == INFINITY_BITS) || (
        a == 0 && b == 0) {
            return Single { bits: NAN_BITS };
        }
        if a == INFINITY_BITS || b == 0 {
            return with_sign(neg, INFINITY_BITS);
        }
        if b == INFINITY_BITS {
            return with_sign(neg, 0);
        }
        let (ma, ka) = split(a);
        let (mb, kb) = split(b);
        if ma == 0 {
            proof {
                lemma_nearest_zero(other.size());
                assert(0 * pow2(UNIT_SHIFT as nat) == 0);
            }
            return with_sign(neg, 0);
        }
        let mag: u32 = div_split(ma, ka, mb, kb);
        with_sign(neg, mag)
    }

    /// The square root.
    pub fn sqrt(self) -> (r: Single)
        ensures
            r == root(self),
    {
        proof {
            reveal(root);
        }
        let a: u32 = self.mag();
        if a > INFINITY_BITS || (self.sign() && a != 0) {
            return Single { bits: NAN_BITS };
        }
        if a == 0 || a == INFINITY_BITS {
            return self;
        }
        let (m, k) = split(a);
        let mag: u32 = sqrt_split(m, k);
        with_sign(false, mag)
    }

    /// `self < other`.
    pub fn lt(self, other: Single) -> (r: bool)
        ensures
            r == less(self, other),
    {
        let a: u32 = self.mag();
        let b: u32 = other.mag();
        if a > INFINITY_BITS || b > INFINITY_BITS {
            false
        } else if self.sign() {
            if other.sign() {
                a > b
            } else {
                a > 0 || b > 0
            }
        } else {
            !other.sign() && a < b
        }
    }

    /// `self <= other`.
    pub fn le(self, other: Single) -> (r: bool)
        ensures
            r == at_most(self, other),
    {
        let a: u32 = self.mag();
        let b: u32 = other.mag();
        a <= INFINITY_BITS && b <= INFINITY_BITS && !other.lt(self)
    }

    pub fn max(self, other: Single) -> (r: Single)
        ensures
            r == larger(self, other),
    {
        if self.mag() > INFINITY_BITS || self.lt(other) {
            other
        } else {
            self
        }
    }

    pub fn min(self, other: Single) -> (r: Single)
        ensures
            r == smaller(self, other),
    {
        if self.mag() > INFINITY_BITS || other.lt(self) {
            other
        } else {
            self
        }
    }

    /// `self` brought into the range from `lo` to `hi`.
    pub fn clamp(self, lo: Single, hi: Single) -> (r: Single)
        requires
            at_most(lo, hi),
        ensures
            r == limited(self, lo, hi),
    {
        if self.lt(lo) {
            lo
        } else if hi.lt(self) {
            hi
        } else {
            self
        }
    }

    pub fn abs(self) -> (r: Single)
        ensures
            r == absolute(self),
    {
        Single { bits: self.bits % SIGN_BIT }
    }

    pub fn from_u32(v: u32) -> (r: Single)
        ensures
            r == of_whole(v as nat),
    {
        proof {
            reveal(of_whole);
        }
        if v == 0 {
            proof {
                lemma_nearest_zero(1);
                assert(0 * pow2(UNIT_SHIFT as nat) == 0);
            }
            Single { bits: 0 }
        } else {
            let mag: u32 = pack_whole(v as u64, UNIT_SHIFT);
            with_sign(false, mag)
        }
    }

    /// A signed sample value; each one is exact.
    pub fn from_i16(v: i16) -> (r: Single)
        ensures
            r == if v < 0 {
                negated(of_whole(-v as nat))
            } else {
                of_whole(v as nat)
            },
    {
        if v < 0 {
            let w: u32 = (-(v as i32)) as u32;
            Single::from_u32(w).neg()
        } else {
            Single::from_u32(v as u32)
        }
    }

    /// The conversion to `u8`.
    pub fn to_u8(self) -> (r: u8)
        ensures
            r == truncated(self, u8::MAX as nat),
    {
        proof {
            reveal(truncated);
        }
        let v: u64 = self.whole_part().0;
        if v > 255 {
            255
        } else {
            v as u8
        }
    }

    /// The conversion to `usize`.
    pub fn to_usize(self) -> (r: usize)
        ensures
            r == truncated(self, usize::MAX as nat),
    {
        proof {
            reveal(truncated);
        }
        let v: u64 = self.whole_part().0;
        if v > usize::MAX as u64 {
            usize::MAX
        } else {
            v as usize
        }
    }

    /// The conversion of the next whole number upwards to `usize`.
    pub fn ceil_to_usize(self) -> (r: usize)
        ensures
            r == raised(self, usize::MAX as nat),
    {
        proof {
            reveal(raised);
        }
        let (v, more) = self.whole_part();
        proof {
            lemma_pow2_pos(UNIT_SHIFT as nat);
            lemma_divide_up(self.size(), pow2(UNIT_SHIFT as nat));
        }
        if v >= usize::MAX as u64 {
            usize::MAX
        } else if more {
            v as usize + 1
        } else {
            v as usize
        }
    }

    /// The whole part, held at the largest 64-bit integer, and whether a fraction
    /// is left; nothing of a NaN or a negative number.
    fn whole_part(self) -> (r: (u64, bool))
        ensures
            self.is_nan() || self.negative() ==> r == (0u64, false),
            self.is_infinite() && !self.negative() ==> r == (u64::MAX, false),
            self.is_finite() && !self.negative() ==> {
                let one = pow2(UNIT_SHIFT as nat);
                let q = self.size() / one;
                &&& r.0 == if q > u64::MAX {
                    u64::MAX as nat
                } else {
                    q
                }
                &&& r.1 == (self.size() % one != 0)
            },
    {
        let a: u32 = self.mag();
        if a > INFINITY_BITS || self.sign() {
            return (0, false);
        }
        if a == INFINITY_BITS {
            return (u64::MAX, false);
        }
        let (m, k) = split(a);
        let ghost one = pow2(UNIT_SHIFT as nat);
        proof {
            lemma_pow2_pos(UNIT_SHIFT as nat);
            lemma_pow2_pos(k as nat);
        }
        if k >= UNIT_SHIFT {
            let s: u32 = k - UNIT_SHIFT;
            proof {
                lemma_pow2_adds(s as nat, UNIT_SHIFT as nat);
                lemma_pow2_pos(s as nat);
                let x = m as nat * pow2(s as nat);
                assert(m as nat * (pow2(s as nat) * one) == x * one + 0) by (nonlinear_arith)
                    requires
                        x == m as nat * pow2(s as nat),
                ;
                vstd::arithmetic::div_mod::lemma_fundamental_div_mod_converse(
                    self.size() as int,
                    one as int,
                    x as int,
                    0,
                );
            }
            if s > 40 {
                proof {
                    lemma_pow2_24();
                    lemma_pow2_le(41, s as nat);
                    lemma2_to64();
                    lemma2_to64_rest();
                    assert(m as nat * pow2(s as nat) >= 0x80_0000 * 0x200_0000_0000)
                        by (nonlinear_arith)
                        requires
                            m >= 0x80_0000,
                            pow2(s as nat) >= 0x200_0000_0000,
                    ;
                }
                (u64::MAX, false)
            } else {
                proof {
                    lemma_pow2_le(s as nat, 40);
                    lemma2_to64_rest();
                    assert(m as nat * pow2(s as nat) <= 0xff_ffff * 0x100_0000_0000)
                        by (nonlinear_arith)
                        requires
                            m <= 0xff_ffff,
                            pow2(s as nat) <= 0x100_0000_0000,
                    ;
                }
                (shift_up(m, s), false)
            }
        } else {
            let s: u32 = UNIT_SHIFT - k;
            let ghost c = pow2(k as nat);
            let ghost p = pow2(s as nat);
            proof {
                lemma_pow2_adds(s as nat, k as nat);
                lemma_pow2_pos(s as nat);
                vstd::arithmetic::div_mod::lemma_fundamental_div_mod(m as int, p as int);
                let q = m as nat / p;
                let r = m as nat % p;
                assert(self.size() == q * one + r * c) by (nonlinear_arith)
                    requires
                        self.size() == m as nat * c,
                        m == p * q + r,
                        one == p * c,
                ;
                assert(0 <= r * c < one && (r * c == 0) == (r == 0)) by (nonlinear_arith)
                    requires
                        0 <= r < p,
                        c > 0,
                        one == p * c,
                ;
                vstd::arithmetic::div_mod::lemma_fundamental_div_mod_converse(
                    self.size() as int,
                    one as int,
                    q as int,
                    (r * c) as int,
                );
            }
            if s >= 64 {
                proof {
                    lemma_pow2_24();
                    lemma_pow2_le(24, s as nat);
                    vstd::arithmetic::div_mod::lemma_fundamental_div_mod_converse(
                        m as int,
                        p as int,
                        0,
                        m as int,
                    );
                }
                (0, m != 0)
            } else {
                let q: u64 = shift_down(m, s);
                proof {
                    assert(q * p == p * q) by (nonlinear_arith);
                }
                (q, shift_up(q, s) != m)
            }
        }
    }
}

} // verus!
