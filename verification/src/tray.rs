//! The icon of the program: a ring in four colours round a white dot.
use crate::number::constants::{EIGHT, FOUR, HALF, TWO};
use crate::number::laws::{law_exact_quotient, law_short_numbers_are_exact};
use crate::number::order::{lemma_units_order, lemma_zero_units};
use crate::number::rounding::{lemma_pow2_24, nearest, SIGNIFICAND_END};
use crate::number::single::{
    at_most, difference, larger, less, num, of_whole, product, quotient, root, signed, sum, units,
    Single,
};
use vstd::arithmetic::power2::{lemma_pow2_adds, lemma_pow2_pos, pow2};
use vstd::prelude::*;

verus! {

/// 0.46, the outer radius of the ring in icon widths.
pub const OUTER_SHARE: u32 = 0x3eeb_851f;

/// 0.18, the thickness of the ring in icon widths.
pub const RING_SHARE: u32 = 0x3e38_51ec;

/// 0.55, the radius of the dot in inner radii.
pub const DOT_SHARE: u32 = 0x3f0c_cccd;

/// Largest side whose bytes can be counted in 32 bits.
pub const MAX_SIDE: u32 = 32767;

/// The radii that divide an icon: of its ring, outside and inside, and of its dot.
pub struct Radii {
    pub outer: Single,
    pub inner: Single,
    pub dot: Single,
}

/// The radii for a ring of the given outer radius and thickness.
pub open spec fn ring_radii(outer: Single, ring: Single) -> Radii {
    let inner = difference(outer, ring);
    Radii { outer, inner, dot: product(inner, num(DOT_SHARE)) }
}

/// The radii of the icon in the tray, from its side.
pub open spec fn tray_radii(size: nat) -> Radii {
    let side = of_whole(size);
    ring_radii(product(side, num(OUTER_SHARE)), product(side, num(RING_SHARE)))
}

/// The radii of the icon of the program's file: small ones are drawn coarser.
pub open spec fn file_radii(size: nat) -> Radii {
    let side = of_whole(size);
    ring_radii(
        larger(product(side, num(OUTER_SHARE)), num(EIGHT)),
        larger(product(side, num(RING_SHARE)), num(FOUR)),
    )
}

/// Distance of the centre of an icon from its edges.
pub open spec fn center(size: nat) -> Single {
    quotient(of_whole(size), num(TWO))
}

/// Offset of the middle of pixel `i` from the centre of the icon.
pub open spec fn offset(size: nat, i: nat) -> Single {
    difference(sum(of_whole(i), num(HALF)), center(size))
}

/// Distance of the middle of a pixel from the centre of the icon.
pub open spec fn distance(size: nat, x: nat, y: nat) -> Single {
    let dx = offset(size, x);
    let dy = offset(size, y);
    root(sum(product(dx, dx), product(dy, dy)))
}

/// The four bytes of a quarter of the ring.
pub open spec fn ring_color(left: bool, upper: bool) -> Seq<u8> {
    if left && upper {
        seq![80u8, 170, 255, 255]
    } else if upper {
        seq![255u8, 110, 50, 255]
    } else if left {
        seq![80u8, 240, 130, 255]
    } else {
        seq![255u8, 230, 90, 255]
    }
}

pub open spec fn white() -> Seq<u8> {
    seq![255u8, 255, 255, 255]
}

pub open spec fn dark() -> Seq<u8> {
    seq![18u8, 18, 22, 255]
}

pub open spec fn clear() -> Seq<u8> {
    seq![0u8, 0, 0, 0]
}

/// The four bytes of one pixel: nothing outside the outer circle, the ring up to
/// the inner circle, a white dot in the middle and dark ground between.
#[verifier::opaque]
pub open spec fn pixel(r: Radii, size: nat, x: nat, y: nat) -> Seq<u8> {
    let d = distance(size, x, y);
    if !at_most(d, r.outer) {
        clear()
    } else if at_most(r.inner, d) {
        ring_color(less(offset(size, x), num(0)), less(offset(size, y), num(0)))
    } else if at_most(d, r.dot) {
        white()
    } else {
        dark()
    }
}

/// The bytes of the first `n` pixels, row by row.
pub open spec fn pixels(r: Radii, size: nat, n: nat) -> Seq<u8>
    decreases n,
{
    if n == 0 {
        Seq::empty()
    } else {
        pixels(r, size, (n - 1) as nat) + pixel(
            r,
            size,
            ((n - 1) as nat % size) as nat,
            ((n - 1) as nat / size) as nat,
        )
    }
}

fn radii_of_ring(outer: Single, ring: Single) -> (r: Radii)
    ensures
        r == ring_radii(outer, ring),
{
    let inner: Single = outer.minus(ring);
    Radii { outer, inner, dot: inner.times(num(DOT_SHARE)) }
}

fn push_pixel(img: &mut Vec<u8>, r: u8, g: u8, b: u8, a: u8)
    ensures
        final(img)@ == old(img)@ + seq![r, g, b, a],
{
    img.push(r);
    img.push(g);
    img.push(b);
    img.push(a);
    assert(img@ =~= old(img)@ + seq![r, g, b, a]);
}

/// One pixel of the icon, appended.
fn draw_pixel(
    img: &mut Vec<u8>,
    r: &Radii,
    size: Ghost<nat>,
    x: Ghost<nat>,
    y: Ghost<nat>,
    dx: Single,
    dy: Single,
)
    requires
        dx == offset(size@, x@),
        dy == offset(size@, y@),
    ensures
        final(img)@ == old(img)@ + pixel(*r, size@, x@, y@),
{
    reveal(pixel);
    let dist: Single = dx.times(dx).plus(dy.times(dy)).sqrt();
    if !dist.le(r.outer) {
        push_pixel(img, 0, 0, 0, 0);
    } else if r.inner.le(dist) {
        let left: bool = dx.lt(num(0));
        let upper: bool = dy.lt(num(0));
        if left && upper {
            push_pixel(img, 80, 170, 255, 255);
        } else if upper {
            push_pixel(img, 255, 110, 50, 255);
        } else if left {
            push_pixel(img, 80, 240, 130, 255);
        } else {
            push_pixel(img, 255, 230, 90, 255);
        }
    } else if dist.le(r.dot) {
        push_pixel(img, 255, 255, 255, 255);
    } else {
        push_pixel(img, 18, 18, 22, 255);
    }
}

/// An icon with the given radii, row by row.
fn draw_icon(size: u32, r: &Radii) -> (img: Vec<u8>)
    ensures
        img@ == pixels(*r, size as nat, size as nat * size as nat),
{
    let mut img: Vec<u8> = Vec::new();
    let middle: Single = Single::from_u32(size).over(num(TWO));
    let mut y: u32 = 0;
    while y < size
        invariant
            y <= size,
            middle == center(size as nat),
            img@ == pixels(*r, size as nat, y as nat * size as nat),
        decreases size - y,
    {
        let dy: Single = Single::from_u32(y).plus(num(HALF)).minus(middle);
        let mut x: u32 = 0;
        while x < size
            invariant
                x <= size,
                y < size,
                middle == center(size as nat),
                dy == offset(size as nat, y as nat),
                img@ == pixels(*r, size as nat, y as nat * size as nat + x as nat),
            decreases size - x,
        {
            let dx: Single = Single::from_u32(x).plus(num(HALF)).minus(middle);
            draw_pixel(
                &mut img,
                r,
                Ghost(size as nat),
                Ghost(x as nat),
                Ghost(y as nat),
                dx,
                dy,
            );
            proof {
                vstd::arithmetic::div_mod::lemma_fundamental_div_mod_converse(
                    y as int * size as int + x as int,
                    size as int,
                    y as int,
                    x as int,
                );
            }
            x = x + 1;
        }
        assert((y + 1) as nat * size as nat == y as nat * size as nat + size as nat)
            by (nonlinear_arith);
        y = y + 1;
    }
    img
}

/// The icon in the tray, of the given side: its bytes, four to a pixel, its width and
/// its height.
pub fn make_tray_rgba(size: u32) -> (icon: (Vec<u8>, u32, u32))
    requires
        size <= MAX_SIDE,
    ensures
        icon.0@ == pixels(tray_radii(size as nat), size as nat, size as nat * size as nat),
        icon.1 == size,
        icon.2 == size,
{
    let side: Single = Single::from_u32(size);
    let r: Radii = radii_of_ring(side.times(num(OUTER_SHARE)), side.times(num(RING_SHARE)));
    (draw_icon(size, &r), size, size)
}

/// The icon of the program's file, of the given side: its bytes, four to a pixel.
pub fn generate_rgba(size: u32) -> (img: Vec<u8>)
    requires
        size <= MAX_SIDE,
    ensures
        img@ == pixels(file_radii(size as nat), size as nat, size as nat * size as nat),
{
    let side: Single = Single::from_u32(size);
    let r: Radii = radii_of_ring(
        side.times(num(OUTER_SHARE)).max(num(EIGHT)),
        side.times(num(RING_SHARE)).max(num(FOUR)),
    );
    draw_icon(size, &r)
}

/// The bytes of the pixel with number `k`.
pub open spec fn bytes_at(bytes: Seq<u8>, k: nat) -> Seq<u8> {
    bytes.subrange(4 * k as int, 4 * k as int + 4)
}

/// A pixel has four bytes.
proof fn lemma_pixel_len(r: Radii, size: nat, x: nat, y: nat)
    ensures
        pixel(r, size, x, y).len() == 4,
{
    reveal(pixel);
}

/// The first bytes are those of the first pixels.
proof fn lemma_pixels(r: Radii, size: nat, n: nat, k: nat)
    requires
        k < n,
    ensures
        pixels(r, size, n).len() == 4 * n,
        bytes_at(pixels(r, size, n), k) == pixel(r, size, (k % size) as nat, (k / size) as nat),
    decreases n,
{
    let prev = (n - 1) as nat;
    let last = pixel(r, size, (prev % size) as nat, (prev / size) as nat);
    lemma_pixel_len(r, size, (prev % size) as nat, (prev / size) as nat);
    assert(pixels(r, size, 0).len() == 0);
    if k < prev {
        lemma_pixels(r, size, prev, k);
        assert(bytes_at(pixels(r, size, n), k) =~= bytes_at(pixels(r, size, prev), k));
    } else {
        if prev > 0 {
            lemma_pixels(r, size, prev, 0);
        }
        assert(bytes_at(pixels(r, size, n), k) =~= last);
    }
}

/// The icon is a square of four bytes to a pixel, row by row.
pub proof fn law_icon_is_row_by_row(r: Radii, size: nat, x: nat, y: nat)
    requires
        x < size,
        y < size,
    ensures
        pixels(r, size, size * size).len() == 4 * (size * size),
        bytes_at(pixels(r, size, size * size), y * size + x) == pixel(r, size, x, y),
{
    let k = y * size + x;
    assert(k < size * size) by (nonlinear_arith)
        requires
            x < size,
            y + 1 <= size,
            k == y * size + x,
    ;
    vstd::arithmetic::div_mod::lemma_fundamental_div_mod_converse(
        k as int,
        size as int,
        y as int,
        x as int,
    );
    lemma_pixels(r, size, size * size, k);
}

/// Every pixel is either opaque or not there at all.
pub proof fn law_pixel_is_opaque_or_clear(r: Radii, size: nat, x: nat, y: nat)
    ensures
        pixel(r, size, x, y)[3] == 255 || pixel(r, size, x, y) == clear(),
{
    reveal(pixel);
}

/// Half of a whole number is stated exactly.
proof fn lemma_half(k: nat, a: Single)
    requires
        k <= SIGNIFICAND_END,
        a == signed(false, nearest(k * pow2(148), 1)),
    ensures
        a.is_finite(),
        a.value() == k * pow2(148),
        !a.negative(),
{
    law_short_numbers_are_exact(k, 148);
}

/// The middle of pixel `i` is `i + 1/2` to the right of the edge, and the centre of
/// the icon half its side.
pub proof fn lemma_offset(size: nat, i: nat)
    requires
        i < size <= MAX_SIDE,
    ensures
        offset(size, i).is_finite(),
        offset(size, i).value() == (2 * i + 1 - size) * pow2(148),
{
    let h = pow2(148);
    lemma_pow2_pos(148);
    lemma_pow2_adds(1, 148);
    lemma_pow2_24();
    let one = pow2(149);
    assert(i * one == (2 * i) * h && size * one == (2 * size) * h) by (nonlinear_arith)
        requires
            one == 2 * h,
    ;
    assert(of_whole(i) == signed(false, nearest((2 * i) * h, 1)) && of_whole(size) == signed(
        false,
        nearest((2 * size) * h, 1),
    )) by {
        reveal(of_whole);
    }
    lemma_half(2 * i, of_whole(i));
    lemma_half(2 * size, of_whole(size));
    assert(num(HALF).value() == h && num(TWO).size() == 2 * one) by {
        reveal(units);
        lemma_pow2_adds(23, 125);
        lemma_pow2_adds(23, 127);
        lemma_pow2_adds(1, 149);
    }
    let middle = sum(of_whole(i), num(HALF));
    assert((2 * i) * h + h == (2 * i + 1) * h) by (nonlinear_arith);
    assert((2 * i + 1) * h > 0) by (nonlinear_arith)
        requires
            h > 0,
    ;
    assert(middle == signed(false, nearest(((2 * i + 1) as nat) * h, 1))) by {
        reveal(sum);
    }
    lemma_half((2 * i + 1) as nat, middle);
    let exact = signed(false, nearest(size * h, 1));
    lemma_half(size, exact);
    assert(((2 * size) * h) * one == (size * h) * (2 * one)) by (nonlinear_arith);
    law_exact_quotient(of_whole(size), num(TWO), exact);
    let v = (2 * i + 1) * h - size * h;
    assert(v == (2 * i + 1 - size) * h) by (nonlinear_arith)
        requires
            v == (2 * i + 1) * h - size * h,
    ;
    let k = (if v < 0 {
        size - 2 * i - 1
    } else {
        2 * i + 1 - size
    }) as nat;
    assert(v < 0 ==> -v == k * h) by (nonlinear_arith)
        requires
            v == (2 * i + 1 - size) * h,
            v < 0 ==> k == size - 2 * i - 1,
    ;
    assert(v < 0 ==> 2 * i + 1 < size) by (nonlinear_arith)
        requires
            v == (2 * i + 1 - size) * h,
            h > 0,
    ;
    assert(v >= 0 ==> 2 * i + 1 >= size) by (nonlinear_arith)
        requires
            v == (2 * i + 1 - size) * h,
            h > 0,
    ;
    law_short_numbers_are_exact(k, 148);
    lemma_zero_units();
    reveal(sum);
}

/// The icon's circles are round: a pixel and its mirror image are equally far from
/// the centre.
pub proof fn law_icon_is_symmetric(size: nat, x: nat, y: nat)
    requires
        x < size <= MAX_SIDE,
        y < size,
    ensures
        distance(size, (size - 1 - x) as nat, y) == distance(size, x, y),
        distance(size, x, (size - 1 - y) as nat) == distance(size, x, y),
{
    lemma_mirrored(size, x);
    lemma_mirrored(size, y);
}

/// An offset and its mirror image have the same square.
proof fn lemma_mirrored(size: nat, i: nat)
    requires
        i < size <= MAX_SIDE,
    ensures
        ({
            let a = offset(size, i);
            let b = offset(size, (size - 1 - i) as nat);
            product(b, b) == product(a, a)
        }),
{
    let j = (size - 1 - i) as nat;
    let a = offset(size, i);
    let b = offset(size, j);
    lemma_offset(size, i);
    lemma_offset(size, j);
    let h = pow2(148);
    assert((2 * j + 1 - size) * h == -((2 * i + 1 - size) * h)) by (nonlinear_arith)
        requires
            j == size - 1 - i,
    ;
    assert(a.size() == b.size());
    lemma_units_order(a.magnitude(), b.magnitude());
    reveal(product);
}

} // verus!
