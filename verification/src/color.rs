//! Colours of the bands, with their alpha.
use vstd::prelude::*;

verus! {

/// A colour whose channels are already multiplied by its alpha.
#[derive(Clone, Copy, Debug, PartialEq, Eq, Structural)]
pub struct Rgba {
    pub r: u8,
    pub g: u8,
    pub b: u8,
    pub a: u8,
}

/// An opaque colour.
#[verifier::allow_in_spec]
pub fn opaque(r: u8, g: u8, b: u8) -> Rgba
    returns
        (Rgba { r, g, b, a: 255 }),
{
    Rgba { r, g, b, a: 255 }
}

/// Colour of a band: blue for ROAR, green for STEPS, orange for SHOTS, yellow for
/// CLINK.
pub open spec fn color_of_band(i: nat) -> Rgba {
    if i == 0 {
        opaque(80, 170, 255)
    } else if i == 1 {
        opaque(80, 240, 130)
    } else if i == 2 {
        opaque(255, 110, 50)
    } else {
        opaque(255, 230, 90)
    }
}

pub fn band_color(i: usize) -> (c: Rgba)
    ensures
        c == color_of_band(i as nat),
{
    match i {
        0 => opaque(80, 170, 255),
        1 => opaque(80, 240, 130),
        2 => opaque(255, 110, 50),
        _ => opaque(255, 230, 90),
    }
}

/// `channel * a / 255`, rounded down.
pub open spec fn scaled_channel(channel: u8, a: u8) -> u8 {
    (channel as int * a as int / 255) as u8
}

fn scale_channel(channel: u8, a: u8) -> (r: u8)
    ensures
        r == scaled_channel(channel, a),
{
    assert(0 <= channel as int * a as int <= 255 * 255) by (nonlinear_arith)
        requires
            0 <= channel <= 255,
            0 <= a <= 255,
    ;
    ((channel as u32 * a as u32) / 255) as u8
}

/// The colour `c` seen through the alpha `a`; the alpha of `c` itself plays no part.
pub open spec fn faded(c: Rgba, a: u8) -> Rgba {
    Rgba {
        r: scaled_channel(c.r, a),
        g: scaled_channel(c.g, a),
        b: scaled_channel(c.b, a),
        a,
    }
}

pub fn with_alpha(c: Rgba, a: u8) -> (r: Rgba)
    ensures
        r == faded(c, a),
{
    Rgba { r: scale_channel(c.r, a), g: scale_channel(c.g, a), b: scale_channel(c.b, a), a }
}

proof fn lemma_scaled_channel(channel: u8, a: u8)
    ensures
        scaled_channel(channel, a) <= a,
        scaled_channel(channel, a) <= channel,
        a == 255 ==> scaled_channel(channel, a) == channel,
        a == 0 ==> scaled_channel(channel, a) == 0,
{
    let p = channel as int * a as int;
    assert(0 <= p && p <= 255 * a && p <= 255 * channel) by (nonlinear_arith)
        requires
            p == channel as int * a as int,
            0 <= channel <= 255,
            0 <= a <= 255,
    ;
}

/// A faded colour is a premultiplied one: no channel exceeds the alpha.
pub proof fn law_faded_is_premultiplied(c: Rgba, a: u8)
    ensures
        faded(c, a).r <= a,
        faded(c, a).g <= a,
        faded(c, a).b <= a,
{
    lemma_scaled_channel(c.r, a);
    lemma_scaled_channel(c.g, a);
    lemma_scaled_channel(c.b, a);
}

/// Full alpha leaves an opaque colour as it is, and no alpha leaves nothing of it.
pub proof fn law_faded_ends(c: Rgba)
    requires
        c.a == 255,
    ensures
        faded(c, 255) == c,
        faded(c, 0) == (Rgba { r: 0, g: 0, b: 0, a: 0 }),
{
    lemma_scaled_channel(c.r, 255);
    lemma_scaled_channel(c.g, 255);
    lemma_scaled_channel(c.b, 255);
    lemma_scaled_channel(c.r, 0);
    lemma_scaled_channel(c.g, 0);
    lemma_scaled_channel(c.b, 0);
}

/// Each channel of a faded colour is its part of the alpha in 255, rounded down.
pub proof fn law_faded_is_the_part(c: Rgba, a: u8)
    ensures
        ({
            let f = faded(c, a);
            &&& f.a == a
            &&& 255 * f.r <= c.r * a < 255 * (f.r + 1)
            &&& 255 * f.g <= c.g * a < 255 * (f.g + 1)
            &&& 255 * f.b <= c.b * a < 255 * (f.b + 1)
        }),
{
    lemma_part_of_alpha(c.r, a);
    lemma_part_of_alpha(c.g, a);
    lemma_part_of_alpha(c.b, a);
}

proof fn lemma_part_of_alpha(channel: u8, a: u8)
    ensures
        255 * scaled_channel(channel, a) <= channel * a < 255 * (scaled_channel(channel, a) + 1),
{
    let p = channel as int * a as int;
    assert(0 <= p && p <= 255 * 255) by (nonlinear_arith)
        requires
            p == channel as int * a as int,
            0 <= channel <= 255,
            0 <= a <= 255,
    ;
    assert(channel * a == p);
}

/// No two bands have the same colour: the first is blue, the second green, the third orange
/// and the fourth yellow, by which channels are strongest.
pub proof fn law_bands_have_their_colors(i: nat, j: nat)
    requires
        i < 4,
        j < 4,
    ensures
        color_of_band(i) == color_of_band(j) ==> i == j,
        ({
            let c = color_of_band(0);
            c.r < c.g < c.b
        }),
        ({
            let c = color_of_band(1);
            c.r < c.b < c.g
        }),
        ({
            let c = color_of_band(2);
            c.b < c.g && 2 * c.g < c.r
        }),
        ({
            let c = color_of_band(3);
            2 * c.b < c.g && c.g < c.r
        }),
        color_of_band(i).a == 255,
{
}

} // verus!
