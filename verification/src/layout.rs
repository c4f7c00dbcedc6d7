//! Where things are on the strip: its edges, one track per visible band, and the
//! ball on each track.
use crate::levels::BANDS;
use crate::number::constants::{
    EIGHT, EIGHTEEN, FOUR, HALF, MINUS_ONE, ONE, SIXTEEN, TWELVE, TWO,
};
use crate::number::laws::{law_product_commutes, law_product_monotone};
use crate::number::order::{law_order_is_that_of_values, lemma_nearest_exact};
use crate::number::rounding::{lemma_nearest_scale, lemma_pow2_24};
use crate::number::single::{
    at_most, difference, larger, limited, num, of_whole, product, quotient, root, smaller, sum,
    truncated, units, Single,
};
use crate::settings::Placement;
use vstd::arithmetic::power2::{lemma_pow2_adds, lemma_pow2_pos, pow2};
use vstd::prelude::*;

verus! {

/// 3
pub const THREE: u32 = 0x4040_0000;

/// 36, the largest height of a track.
pub const MAX_TRACK: u32 = 0x4210_0000;

/// 80, the smallest length of a track.
pub const MIN_TRACK_LENGTH: u32 = 0x42a0_0000;

/// 0.45, the largest radius of a ball in heights of its track.
pub const BALL_SHARE: u32 = 0x3ee6_6666;

/// 0.001, the least by which energies are divided.
pub const MIN_SCALE: u32 = 0x3a83_126f;

/// 0.02, the share of the loudest energy below which no ball is drawn.
pub const FAINT: u32 = 0x3ca3_d70a;

/// 3.5, the radius of the ball of a silent band.
pub const SMALLEST_BALL: u32 = 0x4060_0000;

/// 6, by which the ball of the loudest band is larger.
pub const BALL_GROWTH: u32 = 0x40c0_0000;

/// 180, the alpha of the ball of a silent band.
pub const FAINTEST_BALL: u32 = 0x4334_0000;

/// 75, by which the alpha of the ball of the loudest band is larger.
pub const ALPHA_GROWTH: u32 = 0x4296_0000;

/// 255, the alpha of what is opaque.
pub const FULL_ALPHA: u32 = 0x437f_0000;

/// The edges of a rectangle.
#[derive(Clone, Copy, Debug, PartialEq, Eq, Structural)]
pub struct Edges {
    pub left: Single,
    pub top: Single,
    pub right: Single,
    pub bottom: Single,
}

/// The edges of a rectangle from a corner and a size.
pub open spec fn edges(x: Single, y: Single, width: Single, height: Single) -> Edges {
    Edges { left: x, top: y, right: sum(x, width), bottom: sum(y, height) }
}

pub fn edges_of(x: Single, y: Single, width: Single, height: Single) -> (e: Edges)
    ensures
        e == edges(x, y, width, height),
{
    Edges { left: x, top: y, right: x.plus(width), bottom: y.plus(height) }
}

/// How many of the first `b` bands are shown.
pub open spec fn shown_before(show: Seq<bool>, b: nat) -> nat
    decreases b,
{
    if b == 0 {
        0
    } else {
        shown_before(show, (b - 1) as nat) + if show[b - 1] {
            1nat
        } else {
            0
        }
    }
}

/// The tracks of a strip: their common height, length and left end, the top of the
/// first one, and the largest radius of a ball.
#[derive(Clone, Copy, Debug, PartialEq, Eq, Structural)]
pub struct Tracks {
    pub height: Single,
    pub length: Single,
    pub left: Single,
    pub top: Single,
    pub max_radius: Single,
}

/// The tracks of a strip that shows `shown` bands. Room is made for one track even
/// where no band is shown.
pub open spec fn tracks(p: Placement, shown: nat) -> Tracks {
    let count = if shown < 1 {
        1
    } else {
        shown
    };
    let inner = larger(
        difference(difference(p.height, num(TWELVE)), num(TWELVE)),
        num(SIXTEEN),
    );
    let gaps = product(of_whole((count - 1) as nat), num(FOUR));
    let height = limited(
        quotient(difference(inner, gaps), of_whole(count)),
        num(EIGHT),
        num(MAX_TRACK),
    );
    Tracks {
        height,
        length: larger(
            difference(p.width, product(num(EIGHTEEN), num(TWO))),
            num(MIN_TRACK_LENGTH),
        ),
        left: sum(p.x, num(EIGHTEEN)),
        top: sum(p.y, num(TWELVE)),
        max_radius: larger(
            smaller(
                product(height, num(BALL_SHARE)),
                difference(num(EIGHTEEN), num(TWO)),
            ),
            num(TWO),
        ),
    }
}

/// How many bands are shown.
pub fn count_shown(show: &[bool; 4]) -> (n: u32)
    ensures
        n == shown_before(show@, BANDS as nat),
        n <= BANDS,
{
    let mut n: u32 = 0;
    let mut b: usize = 0;
    while b < BANDS
        invariant
            b <= BANDS,
            n == shown_before(show@, b as nat),
            n <= b,
        decreases BANDS - b,
    {
        if show[b] {
            n = n + 1;
        }
        b = b + 1;
    }
    n
}

pub fn lay_tracks(p: Placement, show: &[bool; 4]) -> (t: Tracks)
    ensures
        t == tracks(p, shown_before(show@, BANDS as nat)),
{
    let shown: u32 = count_shown(show);
    let count: u32 = if shown < 1 {
        1
    } else {
        shown
    };
    let inner: Single = p.height.minus(num(TWELVE)).minus(num(TWELVE)).max(num(SIXTEEN));
    let gaps: Single = Single::from_u32(count - 1).times(num(FOUR));
    let height: Single = inner.minus(gaps).over(Single::from_u32(count)).clamp(
        num(EIGHT),
        num(MAX_TRACK),
    );
    Tracks {
        height,
        length: p.width.minus(num(EIGHTEEN).times(num(TWO))).max(num(MIN_TRACK_LENGTH)),
        left: p.x.plus(num(EIGHTEEN)),
        top: p.y.plus(num(TWELVE)),
        max_radius: height.times(num(BALL_SHARE)).min(num(EIGHTEEN).minus(num(TWO))).max(
            num(TWO),
        ),
    }
}

/// Top of track `k`, counted from 0.
pub open spec fn track_top(t: Tracks, k: nat) -> Single
    decreases k,
{
    if k == 0 {
        t.top
    } else {
        sum(track_top(t, (k - 1) as nat), sum(t.height, num(FOUR)))
    }
}

/// Height at which the line of track `k` runs.
pub open spec fn track_line(t: Tracks, k: nat) -> Single {
    sum(track_top(t, k), product(t.height, num(HALF)))
}

/// An energy as a share of the scale, from 0 to 1.
pub open spec fn share(energy: Single, scale: Single) -> Single {
    limited(quotient(energy, larger(scale, num(MIN_SCALE))), num(0), num(ONE))
}

pub fn energy_share(energy: Single, scale: Single) -> (r: Single)
    ensures
        r == share(energy, scale),
{
    energy.over(scale.max(num(MIN_SCALE))).clamp(num(0), num(ONE))
}

/// Radius of the ball of a band with the given share.
pub open spec fn ball_radius(share: Single, ball_size: Single, max_radius: Single) -> Single {
    smaller(
        product(
            sum(num(SMALLEST_BALL), product(num(BALL_GROWTH), root(share))),
            ball_size,
        ),
        max_radius,
    )
}

pub fn radius_of_ball(share: Single, ball_size: Single, max_radius: Single) -> (r: Single)
    ensures
        r == ball_radius(share, ball_size, max_radius),
{
    num(SMALLEST_BALL).plus(num(BALL_GROWTH).times(share.sqrt())).times(ball_size).min(max_radius)
}

/// The leftmost and the rightmost middle of a ball of radius `r` on the strip.
pub open spec fn ball_range(strip: Edges, r: Single) -> (Single, Single) {
    (
        sum(sum(strip.left, r), num(TWO)),
        difference(difference(strip.right, r), num(TWO)),
    )
}

/// The leftmost and the rightmost middle of a ball of radius `r` on the strip.
pub fn range_of_ball(strip: Edges, r: Single) -> (range: (Single, Single))
    ensures
        range == ball_range(strip, r),
{
    (strip.left.plus(r).plus(num(TWO)), strip.right.minus(r).minus(num(TWO)))
}

/// Where the middle of a ball would be on its track, from -1 for its left end to 1
/// for its right end.
pub open spec fn aim(t: Tracks, direction: Single) -> Single {
    sum(
        t.left,
        product(
            t.length,
            sum(num(HALF), product(num(HALF), limited(direction, num(MINUS_ONE), num(ONE)))),
        ),
    )
}

/// Where the middle of a ball is, kept on the strip.
pub open spec fn ball_x(strip: Edges, t: Tracks, direction: Single, r: Single) -> Single {
    limited(aim(t, direction), ball_range(strip, r).0, ball_range(strip, r).1)
}

pub fn x_of_ball(strip: Edges, t: Tracks, direction: Single, r: Single) -> (x: Single)
    requires
        at_most(ball_range(strip, r).0, ball_range(strip, r).1),
    ensures
        x == ball_x(strip, t, direction, r),
{
    let (lo, hi) = range_of_ball(strip, r);
    let d: Single = direction.clamp(num(MINUS_ONE), num(ONE));
    t.left.plus(t.length.times(num(HALF).plus(num(HALF).times(d)))).clamp(lo, hi)
}

/// Alpha of the ball of a band with the given share.
pub open spec fn ball_alpha(share: Single, opacity: Single) -> u8 {
    truncated(
        limited(
            product(sum(num(FAINTEST_BALL), product(num(ALPHA_GROWTH), share)), opacity),
            num(0),
            num(FULL_ALPHA),
        ),
        u8::MAX as nat,
    ) as u8
}

pub fn alpha_of_ball(share: Single, opacity: Single) -> (a: u8)
    ensures
        a == ball_alpha(share, opacity),
{
    num(FAINTEST_BALL).plus(num(ALPHA_GROWTH).times(share)).times(opacity).clamp(
        num(0),
        num(FULL_ALPHA),
    ).to_u8()
}

/// A share that is a number lies between 0 and 1.
pub proof fn law_share_within_one(energy: Single, scale: Single)
    requires
        !share(energy, scale).is_nan(),
    ensures
        at_most(num(0), share(energy, scale)),
        at_most(share(energy, scale), num(ONE)),
{
}

/// How far `x` is on the way from `e0` to `e1`, from 0 to 1.
pub open spec fn step_part(e0: Single, e1: Single, x: Single) -> Single {
    limited(quotient(difference(x, e0), difference(e1, e0)), num(0), num(ONE))
}

/// A smooth step from 0 at `e0` to 1 at `e1`.
pub open spec fn smooth_step(e0: Single, e1: Single, x: Single) -> Single {
    let t = step_part(e0, e1, x);
    product(product(t, t), difference(num(THREE), product(num(TWO), t)))
}

pub fn smoothstep(e0: Single, e1: Single, x: Single) -> (r: Single)
    ensures
        r == smooth_step(e0, e1, x),
{
    let t: Single = x.minus(e0).over(e1.minus(e0)).clamp(num(0), num(ONE));
    t.times(t).times(num(THREE).minus(num(TWO).times(t)))
}

/// No ball is larger than its track: balls on neighbouring tracks never touch.
pub proof fn law_ball_within_track(p: Placement, shown: nat)
    requires
        !tracks(p, shown).height.is_nan(),
    ensures
        at_most(tracks(p, shown).max_radius, product(tracks(p, shown).height, num(HALF))),
{
    let h = tracks(p, shown).height;
    assert(at_most(num(EIGHT), h) && at_most(h, num(MAX_TRACK)));
    law_order_is_that_of_values(num(EIGHT), h);
    law_order_is_that_of_values(num(BALL_SHARE), num(HALF));
    law_product_monotone(h, num(BALL_SHARE), num(HALF));
    law_product_monotone(num(HALF), num(EIGHT), h);
    law_product_commutes(num(HALF), h);
    assert(product(num(HALF), num(EIGHT)) == num(FOUR)) by {
        lemma_pow2_24();
        lemma_pow2_adds(23, 125);
        lemma_pow2_adds(23, 129);
        lemma_pow2_adds(23, 128);
        assert(num(HALF).size() == pow2(148) && num(EIGHT).size() == pow2(152) && num(
            FOUR,
        ).size() == pow2(151)) by {
            reveal(units);
        }
        lemma_pow2_adds(148, 152);
        lemma_pow2_adds(151, 149);
        lemma_pow2_pos(149);
        lemma_nearest_exact(FOUR);
        lemma_nearest_scale(pow2(151), 1, pow2(149));
        assert(1 * pow2(149) == pow2(149));
        reveal(product);
    }
}

} // verus!
