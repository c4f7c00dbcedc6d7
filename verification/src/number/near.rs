//! How near the results of the arithmetic are to the exact ones.
use crate::bands::lemma_largest_units;
use crate::number::arith::lemma_floor_root;
use crate::number::constants::{HALF, MINUS_ONE, ONE, TWO};
use crate::number::laws::{
    apart, law_rounded_is_nearest, law_short_numbers_are_exact, law_sum_error,
};
use crate::number::order::{
    law_order_is_that_of_values, lemma_nearest_error, lemma_relative_error, lemma_units_order,
    lemma_zero_units,
};
use crate::number::pack::lemma_pow2_le;
use crate::number::rounding::{lemma_pow2_24, nearest, INFINITY_BITS};
use crate::number::single::{
    absolute, at_most, floor_root, larger, less, limited, nearest_root, negated, num, of_whole,
    product, quotient, raised, root, signed, smaller, sum, truncated, units, Single, UNIT_SHIFT,
};
use vstd::arithmetic::power2::{lemma_pow2_adds, lemma_pow2_pos, pow2};
use vstd::prelude::*;

verus! {

/// 1, in units.
pub open spec fn one() -> int {
    pow2(UNIT_SHIFT as nat) as int
}

/// Size of an integer.
pub open spec fn size(a: int) -> int {
    apart(a, 0)
}

/// No finite number is nearer to the exact sum than the sum.
pub proof fn law_sum_is_nearest(a: Single, b: Single, c: Single)
    requires
        a.is_finite(),
        b.is_finite(),
        c.is_finite(),
        sum(a, b).is_finite(),
    ensures
        apart(sum(a, b).value(), a.value() + b.value()) <= apart(
            c.value(),
            a.value() + b.value(),
        ),
{
    let v = a.value() + b.value();
    lemma_zero_units();
    reveal(sum);
    if v != 0 {
        let n = size(v) as nat;
        law_rounded_is_nearest(n, 1, c.magnitude());
        assert(c.size() * 1 == c.size());
    }
}

/// A sum is off by at most one part in 2^24.
pub proof fn law_sum_is_near(a: Single, b: Single)
    requires
        a.is_finite(),
        b.is_finite(),
        sum(a, b).is_finite(),
    ensures
        0x100_0000 * apart(sum(a, b).value(), a.value() + b.value()) <= size(a.value() + b.value())
            + 0x80_0000,
{
    let v = a.value() + b.value();
    lemma_zero_units();
    reveal(sum);
    if v != 0 {
        lemma_relative_error(size(v) as nat, 1);
    }
}

/// A product is off by at most one part in 2^24, or by half a unit.
pub proof fn law_product_is_near(a: Single, b: Single)
    requires
        a.is_finite(),
        b.is_finite(),
        product(a, b).is_finite(),
    ensures
        0x100_0000 * apart(product(a, b).value() * one(), a.value() * b.value()) <= size(
            a.value() * b.value(),
        ) + 0x80_0000 * one(),
{
    let n = a.size() * b.size();
    let p = product(a, b);
    lemma_zero_units();
    lemma_pow2_pos(UNIT_SHIFT as nat);
    reveal(product);
    lemma_relative_error(n, one() as nat);
    let m = p.size() * one() as nat;
    assert(a.value() * b.value() == (if a.negative() != b.negative() {
        -n
    } else {
        n as int
    }) && n >= 0) by (nonlinear_arith)
        requires
            n == a.size() * b.size(),
            a.value() == (if a.negative() {
                -a.size()
            } else {
                a.size() as int
            }),
            b.value() == (if b.negative() {
                -b.size()
            } else {
                b.size() as int
            }),
    ;
    assert(p.value() * one() == (if p.negative() {
        -m
    } else {
        m as int
    }) && m >= 0) by (nonlinear_arith)
        requires
            m == p.size() * one() as nat,
            one() > 0,
            p.value() == (if p.negative() {
                -p.size()
            } else {
                p.size() as int
            }),
    ;
}

/// A quotient is off by at most one part in 2^24, or by half a unit.
pub proof fn law_quotient_is_near(a: Single, b: Single)
    requires
        a.is_finite(),
        b.is_finite(),
        b.value() != 0,
        quotient(a, b).is_finite(),
    ensures
        0x100_0000 * apart(quotient(a, b).value() * b.value(), a.value() * one()) <= size(
            a.value() * one(),
        ) + 0x80_0000 * size(b.value()),
{
    let n = a.size() * one() as nat;
    let q = quotient(a, b);
    lemma_zero_units();
    lemma_pow2_pos(UNIT_SHIFT as nat);
    reveal(quotient);
    lemma_relative_error(n, b.size());
    let m = q.size() * b.size();
    assert(a.value() * one() == (if a.negative() {
        -n
    } else {
        n as int
    }) && n >= 0) by (nonlinear_arith)
        requires
            n == a.size() * one() as nat,
            one() > 0,
            a.value() == (if a.negative() {
                -a.size()
            } else {
                a.size() as int
            }),
    ;
    assert(q.value() * b.value() == (if q.negative() != b.negative() {
        -m
    } else {
        m as int
    }) && m >= 0) by (nonlinear_arith)
        requires
            m == q.size() * b.size(),
            q.value() == (if q.negative() {
                -q.size()
            } else {
                q.size() as int
            }),
            b.value() == (if b.negative() {
                -b.size()
            } else {
                b.size() as int
            }),
    ;
}

/// No finite number is nearer to the exact value `v` than `c`.
pub open spec fn is_nearest_to(c: Single, v: int) -> bool {
    &&& c.is_finite()
    &&& forall|d: Single| #[trigger]
        d.is_finite() ==> apart(c.value(), v) <= apart(d.value(), v)
}

/// A sum below 2^75 is the number nearest to the exact sum.
pub proof fn law_sum_is_the_nearest(a: Single, b: Single)
    requires
        a.is_finite(),
        b.is_finite(),
        size(a.value() + b.value()) < pow2(224),
    ensures
        is_nearest_to(sum(a, b), a.value() + b.value()),
{
    law_sum_error(a, b, 200);
    assert forall|d: Single| #[trigger] d.is_finite() implies apart(
        sum(a, b).value(),
        a.value() + b.value(),
    ) <= apart(d.value(), a.value() + b.value()) by {
        law_sum_is_nearest(a, b, d);
    }
}

/// Which of two numbers is larger, which is smaller, and a number held between two, by
/// their values.
pub proof fn law_order_of_values(a: Single, b: Single)
    requires
        a.is_finite(),
        b.is_finite(),
    ensures
        less(a, b) == (a.value() < b.value()),
        at_most(a, b) == (a.value() <= b.value()),
        larger(a, b) == (if a.value() < b.value() {
            b
        } else {
            a
        }),
        smaller(a, b) == (if b.value() < a.value() {
            b
        } else {
            a
        }),
{
    law_order_is_that_of_values(a, b);
    law_order_is_that_of_values(b, a);
}

/// A number held between two others stays where it is if it is between them, and goes to
/// the nearer one if it is not.
pub proof fn law_held_between(a: Single, lo: Single, hi: Single)
    requires
        a.is_finite(),
        lo.is_finite(),
        hi.is_finite(),
        lo.value() <= hi.value(),
    ensures
        lo.value() <= a.value() <= hi.value() ==> limited(a, lo, hi) == a,
        a.value() < lo.value() ==> limited(a, lo, hi) == lo,
        hi.value() < a.value() ==> limited(a, lo, hi) == hi,
{
    law_order_is_that_of_values(a, lo);
    law_order_is_that_of_values(hi, a);
}

/// Two integers that are near each other are so when both are multiplied.
pub proof fn lemma_times(x: int, y: int, m: int, k: int, e: int, big: int)
    requires
        k >= 0,
        k * apart(x, y) <= e,
        size(m) <= big,
    ensures
        k * apart(x * m, y * m) <= e * big,
        k * apart(m * x, m * y) <= e * big,
{
    let d = x - y;
    assert(k * apart(x * m, y * m) <= e * big && m * x == x * m && m * y == y * m)
        by (nonlinear_arith)
        requires
            d == x - y,
            k >= 0,
            k * size(d) <= e,
            size(m) <= big,
    {
        assert(x * m - y * m == d * m);
        assert(size(d * m) == size(d) * size(m));
        assert(k * (size(d) * size(m)) == (k * size(d)) * size(m));
        assert((k * size(d)) * size(m) <= e * size(m));
        assert(e * size(m) <= e * big);
    }
}

/// Two integers whose multiples are near each other are so themselves.
pub proof fn lemma_divided(x: int, y: int, m: int, k: int, e: int)
    requires
        k >= 0,
        m > 0,
        k * apart(x * m, y * m) <= e * m,
    ensures
        k * apart(x, y) <= e,
{
    let d = x - y;
    assert(k * size(d) <= e) by (nonlinear_arith)
        requires
            d == x - y,
            k * apart(x * m, y * m) <= e * m,
            k >= 0,
            m > 0,
    {
        assert(x * m - y * m == d * m);
        assert(size(d * m) == size(d) * m);
        assert((k * size(d)) * m <= e * m);
    }
}

/// The same, of a distance that is stated in two parts.
pub proof fn lemma_divided_in_parts(x: int, y: int, m: int, k: int, a: int, b: int)
    requires
        k >= 0,
        m > 0,
        k * apart(x * m, y * m) <= a * m + b * m,
    ensures
        k * apart(x, y) <= a + b,
{
    assert(a * m + b * m == (a + b) * m) by (nonlinear_arith);
    lemma_divided(x, y, m, k, a + b);
}

/// Size of a product.
pub proof fn lemma_size_times(x: int, y: int, a: int, b: int)
    requires
        size(x) <= a,
        size(y) <= b,
    ensures
        size(x * y) <= a * b,
{
    assert(size(x * y) <= a * b) by (nonlinear_arith)
        requires
            size(x) <= a,
            size(y) <= b,
    {
        assert(size(x * y) == size(x) * size(y));
        assert(size(x) * size(y) <= a * size(y));
        assert(a * size(y) <= a * b);
    }
}

/// 1 in units is large.
pub proof fn lemma_one_is_large()
    ensures
        0x1_0000_0000_0000 <= one(),
        num(ONE).value() == one(),
        num(ONE).is_finite(),
        num(MINUS_ONE).value() == -one(),
        num(MINUS_ONE).is_finite(),
        num(HALF).is_finite(),
        2 * num(HALF).value() == one(),
        num(TWO).is_finite(),
        num(TWO).value() == 2 * one(),
        num(0).is_finite(),
        num(0).value() == 0,
        pow2(150) == 2 * one(),
{
    reveal(units);
    lemma_zero_units();
    lemma_pow2_24();
    vstd::arithmetic::power2::lemma2_to64();
    vstd::arithmetic::power2::lemma2_to64_rest();
    lemma_pow2_adds(48, 101);
    lemma_pow2_pos(101);
    lemma_pow2_adds(23, 125);
    lemma_pow2_adds(23, 126);
    lemma_pow2_adds(23, 127);
    lemma_pow2_adds(1, 148);
    lemma_pow2_adds(1, UNIT_SHIFT as nat);
    assert(0x1_0000_0000_0000 * pow2(101) >= 0x1_0000_0000_0000);
}

/// A product of a number below 2^75 and one of at most 2^47 in size is finite.
pub proof fn lemma_product_is_finite(a: Single, b: Single)
    requires
        a.is_finite(),
        b.is_finite(),
        size(a.value() * b.value()) < one() * pow2(224),
    ensures
        product(a, b).is_finite(),
{
    let n = a.size() * b.size();
    assert(n == size(a.value() * b.value())) by (nonlinear_arith)
        requires
            n == a.size() * b.size(),
            a.value() == (if a.negative() {
                -a.size()
            } else {
                a.size() as int
            }),
            b.value() == (if b.negative() {
                -b.size()
            } else {
                b.size() as int
            }),
    ;
    lemma_pow2_pos(UNIT_SHIFT as nat);
    lemma_nearest_error(n, one() as nat, 200);
    reveal(product);
}

/// A quotient below 2^75 is finite.
pub proof fn lemma_quotient_is_finite(a: Single, b: Single)
    requires
        a.is_finite(),
        b.is_finite(),
        b.value() != 0,
        size(a.value()) * one() < size(b.value()) * pow2(224),
    ensures
        quotient(a, b).is_finite(),
{
    lemma_zero_units();
    lemma_pow2_pos(UNIT_SHIFT as nat);
    lemma_nearest_error(a.size() * one() as nat, b.size(), 200);
    reveal(quotient);
}

/// The square of a root is off by at most one part in 2^21.
pub proof fn law_root_is_near(a: Single)
    requires
        a.is_finite(),
        0 <= a.value(),
    ensures
        root(a).is_finite(),
        0 <= root(a).value(),
        0x20_0000 * apart(root(a).value() * root(a).value(), a.value() * one()) <= a.value()
            * one(),
{
    let o = one();
    lemma_zero_units();
    lemma_one_is_large();
    lemma_pow2_pos(UNIT_SHIFT as nat);
    if a.is_zero() {
        reveal(root);
        assert(root(a).value() == 0 && a.value() == 0);
        assert(0 * o == 0 && 0int * 0 == 0);
    } else {
        lemma_units_order(0, a.magnitude());
        let n = a.size() * pow2(UNIT_SHIFT as nat);
        lemma_floor_root(n);
        let s = floor_root(n);
        assert(n >= o) by (nonlinear_arith)
            requires
                n == a.size() * pow2(UNIT_SHIFT as nat),
                a.size() >= 1,
                o == pow2(UNIT_SHIFT as nat),
                o > 0,
        ;
        lemma_pow2_adds(60, 89);
        lemma_pow2_pos(89);
        vstd::arithmetic::power2::lemma2_to64_rest();
        assert(s >= 0x1000_0000) by (nonlinear_arith)
            requires
                n < (s + 1) * (s + 1),
                n >= 0x1000_0000_0000_000,
        {
            if s < 0x1000_0000 {
                assert((s + 1) * (s + 1) <= 0x1000_0000 * 0x1000_0000);
            }
        }
        lemma_finite_root(a, n, s);
        let m = nearest_root(n);
        let u = units(m);
        if s * s == n {
            lemma_relative_error(s, 1);
        } else {
            lemma_relative_error(2 * s + 1, 2);
        }
        assert(0x80_0000 * apart(u as int, s as int) <= s);
        assert(0x20_0000 * apart((u * u) as int, n as int) <= n) by (nonlinear_arith)
            requires
                s * s <= n < (s + 1) * (s + 1),
                0x80_0000 * apart(u as int, s as int) <= s,
                s >= 0x1000_0000,
        {
            let d = u - s;
            assert(u * u - s * s == d * (2 * s + d));
            assert(size(d * (2 * s + d)) <= size(d) * (3 * s));
            assert(0x80_0000 * (size(d) * (3 * s)) <= s * (3 * s));
            assert(0x80_0000 * (2 * s) <= s * s) by {
                assert(0x1000_0000 * s <= s * s);
            }
        }
        assert(root(a) == signed(false, m)) by {
            reveal(root);
        }
        assert((root(a).value() * root(a).value()) == u * u);
        assert(a.value() * o == n);
    }
}

/// A root of a finite number is finite.
proof fn lemma_finite_root(a: Single, n: nat, s: nat)
    requires
        a.is_finite(),
        n == a.size() * pow2(UNIT_SHIFT as nat),
        s * s <= n,
    ensures
        nearest(s, 1) < INFINITY_BITS,
        nearest(2 * s + 1, 2) < INFINITY_BITS,
{
    lemma_largest_units(a.magnitude());
    lemma_pow2_pos(UNIT_SHIFT as nat);
    lemma_pow2_adds(277, UNIT_SHIFT as nat);
    lemma_pow2_adds(214, 214);
    lemma_pow2_le(426, 428);
    let big = pow2(214);
    assert(n < big * big) by (nonlinear_arith)
        requires
            n == a.size() * pow2(UNIT_SHIFT as nat),
            a.size() < pow2(277),
            pow2(277) * pow2(UNIT_SHIFT as nat) == pow2(426),
            pow2(426) <= big * big,
            pow2(UNIT_SHIFT as nat) > 0,
    ;
    assert(s < big) by (nonlinear_arith)
        requires
            s * s <= n,
            n < big * big,
    ;
    lemma_pow2_adds(1, 214);
    vstd::arithmetic::power2::lemma2_to64();
    assert(1 * pow2(24 + 191) == pow2(215) && 2 * pow2(24 + 191) == 2 * pow2(215));
    lemma_nearest_error(s, 1, 191);
    lemma_nearest_error(2 * s + 1, 2, 191);
}

/// The whole part of a number is the largest whole number that is not above it.
pub proof fn law_truncated_is_the_whole_part(a: Single, max: nat)
    requires
        a.is_finite(),
        0 <= a.value() < (max + 1) * one(),
    ensures
        truncated(a, max) * one() <= a.value() < (truncated(a, max) + 1) * one(),
        truncated(a, max) <= max,
{
    let o = one();
    lemma_pow2_pos(UNIT_SHIFT as nat);
    lemma_zero_units();
    lemma_units_order(0, a.magnitude());
    let n = a.value();
    vstd::arithmetic::div_mod::lemma_fundamental_div_mod(n, o);
    let q = n / o;
    assert(0 <= q <= max && q * o <= n < (q + 1) * o) by (nonlinear_arith)
        requires
            n == o * q + n % o,
            0 <= n % o < o,
            0 <= n < (max + 1) * o,
            o > 0,
    ;
    reveal(truncated);
}

/// The next whole number upwards is the smallest whole number that is not below it.
pub proof fn law_raised_is_the_next_whole(a: Single, max: nat)
    requires
        a.is_finite(),
        0 <= a.value() <= max * one(),
    ensures
        (raised(a, max) - 1) * one() < a.value() <= raised(a, max) * one(),
        raised(a, max) <= max,
{
    let o = one();
    lemma_pow2_pos(UNIT_SHIFT as nat);
    lemma_zero_units();
    lemma_units_order(0, a.magnitude());
    let n = a.value();
    let m = n + o - 1;
    vstd::arithmetic::div_mod::lemma_fundamental_div_mod(m, o);
    let q = m / o;
    assert(0 <= q <= max && (q - 1) * o < n <= q * o) by (nonlinear_arith)
        requires
            m == o * q + m % o,
            m == n + o - 1,
            0 <= m % o < o,
            0 <= n <= max * o,
            o > 0,
    ;
    reveal(raised);
}

/// A sign turned round turns the value round, and a size is the value without its sign.
pub proof fn law_signs(a: Single)
    requires
        a.is_finite(),
    ensures
        negated(a).is_finite(),
        negated(a).value() == -a.value(),
        absolute(a).is_finite(),
        absolute(a).value() == size(a.value()),
{
    lemma_zero_units();
}

/// A whole number becomes the number nearest to it: itself up to 2^24.
pub proof fn law_whole_numbers(n: nat)
    requires
        n <= u32::MAX,
    ensures
        is_nearest_to(of_whole(n), n * one()),
        n <= 0x100_0000 ==> of_whole(n).value() == n * one(),
{
    let o = one();
    let v = n * pow2(UNIT_SHIFT as nat);
    lemma_zero_units();
    lemma_one_is_large();
    lemma_pow2_24();
    vstd::arithmetic::power2::lemma2_to64();
    lemma_pow2_adds(32, UNIT_SHIFT as nat);
    lemma_pow2_le(181, 224);
    assert(v < 1 * pow2(24 + 200)) by (nonlinear_arith)
        requires
            v == n * pow2(UNIT_SHIFT as nat),
            n < pow2(32),
            pow2(32) * pow2(UNIT_SHIFT as nat) == pow2(181),
            pow2(181) <= pow2(224),
            pow2(UNIT_SHIFT as nat) > 0,
    ;
    lemma_nearest_error(v, 1, 200);
    reveal(of_whole);
    let w = of_whole(n);
    assert forall|d: Single| #[trigger] d.is_finite() implies apart(w.value(), n * o) <= apart(
        d.value(),
        n * o,
    ) by {
        law_rounded_is_nearest(v, 1, d.magnitude());
        assert(d.size() * 1 == d.size() && w.size() * 1 == w.size());
    }
    if n <= 0x100_0000 {
        law_short_numbers_are_exact(n, UNIT_SHIFT as nat);
    }
}

/// What is below the range of whole numbers becomes 0, and what is above it the largest.
pub proof fn law_whole_part_is_held(a: Single, max: nat)
    requires
        a.is_finite(),
    ensures
        a.value() <= 0 ==> truncated(a, max) == 0 && raised(a, max) == 0,
        max * one() <= a.value() ==> truncated(a, max) == max && raised(a, max) == max,
{
    let o = one();
    lemma_one_is_large();
    lemma_zero_units();
    reveal(truncated);
    reveal(raised);
    let n = a.size() as int;
    vstd::arithmetic::div_mod::lemma_fundamental_div_mod(n, o);
    vstd::arithmetic::div_mod::lemma_fundamental_div_mod(n + o - 1, o);
    let q = n / o;
    let u = (n + o - 1) / o;
    assert(max * o <= n ==> q >= max && u >= max) by (nonlinear_arith)
        requires
            n == o * q + n % o,
            0 <= n % o < o,
            n + o - 1 == o * u + (n + o - 1) % o,
            0 <= (n + o - 1) % o < o,
            o > 0,
    ;
    assert(n == 0 ==> q == 0 && u == 0) by (nonlinear_arith)
        requires
            n == o * q + n % o,
            0 <= n % o < o,
            n + o - 1 == o * u + (n + o - 1) % o,
            0 <= (n + o - 1) % o < o,
            o > 0,
    ;
}

} // verus!
