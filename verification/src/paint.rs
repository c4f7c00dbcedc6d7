//! What is drawn on the strip, as a list of shapes in the order of drawing.
use crate::color::{band_color, color_of_band, faded, with_alpha, Rgba};
use crate::layout::{
    alpha_of_ball, ball_alpha, ball_radius, ball_range, ball_x, edges, edges_of, energy_share,
    radius_of_ball, range_of_ball, share, shown_before, track_line, track_top, x_of_ball, Edges,
    Tracks, FAINT,
};
use crate::levels::BANDS;
use crate::number::constants::{
    EIGHT, FOUR, FOURTEEN, HALF, ONE, ONE_AND_HALF, SIXTEEN, TEN, TWO,
};
use crate::number::single::{
    at_most, difference, less, limited, negated, num, product, quotient, sum, truncated, Single,
};
use vstd::prelude::*;

verus! {

/// 0.2, the least opacity of the ground.
pub const MIN_OPACITY: u32 = 0x3e4c_cccd;

/// 170, the alpha of the ground at full opacity.
pub const GROUND_ALPHA: u32 = 0x432a_0000;

/// Something to draw.
#[derive(Clone, Copy, Debug, PartialEq, Eq, Structural)]
pub enum Shape {
    /// A filled rectangle with rounded corners.
    Fill { edges: Edges, rounding: Single, color: Rgba },
    /// A straight line.
    Line { x0: Single, y0: Single, x1: Single, y1: Single, width: Single, color: Rgba },
    /// A filled circle.
    Disc { x: Single, y: Single, radius: Single, color: Rgba },
}

/// White with an alpha.
pub open spec fn white(a: u8) -> Rgba {
    Rgba { r: 255, g: 255, b: 255, a }
}

/// The corner marker whose corner is at `x`, `y`: two lines, one along each edge.
pub open spec fn corner(x: Single, y: Single, along: Single, down: Single) -> Seq<Shape> {
    seq![
        Shape::Line {
            x0: x,
            y0: y,
            x1: sum(x, along),
            y1: sum(y, num(0)),
            width: num(ONE_AND_HALF),
            color: white(200),
        },
        Shape::Line {
            x0: x,
            y0: y,
            x1: sum(x, num(0)),
            y1: sum(y, down),
            width: num(ONE_AND_HALF),
            color: white(200),
        },
    ]
}

/// Alpha of the ground of the strip.
pub open spec fn ground_alpha(opacity: Single) -> u8 {
    truncated(
        product(num(GROUND_ALPHA), limited(opacity, num(MIN_OPACITY), num(ONE))),
        u8::MAX as nat,
    ) as u8
}

/// The ground of the strip, with corner markers while it is edited.
pub open spec fn glass_strip(strip: Edges, opacity: Single, edit: bool) -> Seq<Shape> {
    let ground = seq![
        Shape::Fill {
            edges: strip,
            rounding: num(FOUR),
            color: Rgba { r: 10, g: 11, b: 13, a: ground_alpha(opacity) },
        },
    ];
    let len = num(FOURTEEN);
    let back = negated(len);
    if edit {
        ground + corner(strip.left, strip.top, len, len) + corner(
            strip.right,
            strip.top,
            back,
            len,
        ) + corner(strip.left, strip.bottom, len, back) + corner(
            strip.right,
            strip.bottom,
            back,
            back,
        )
    } else {
        ground
    }
}

fn push_line(
    shapes: &mut Vec<Shape>,
    x0: Single,
    y0: Single,
    x1: Single,
    y1: Single,
    width: Single,
    color: Rgba,
)
    ensures
        final(shapes)@ == old(shapes)@.push(Shape::Line { x0, y0, x1, y1, width, color }),
{
    shapes.push(Shape::Line { x0, y0, x1, y1, width, color });
}

fn push_corner(shapes: &mut Vec<Shape>, x: Single, y: Single, along: Single, down: Single)
    ensures
        final(shapes)@ == old(shapes)@ + corner(x, y, along, down),
{
    let pale: Rgba = Rgba { r: 255, g: 255, b: 255, a: 200 };
    push_line(shapes, x, y, x.plus(along), y.plus(num(0)), num(ONE_AND_HALF), pale);
    push_line(shapes, x, y, x.plus(num(0)), y.plus(down), num(ONE_AND_HALF), pale);
    assert(shapes@ =~= old(shapes)@ + corner(x, y, along, down));
}

/// The ground of the strip, with corner markers while it is edited.
pub fn paint_glass_strip(strip: Edges, opacity: Single, edit: bool) -> (shapes: Vec<Shape>)
    ensures
        shapes@ == glass_strip(strip, opacity, edit),
{
    let opa: Single = opacity.clamp(num(MIN_OPACITY), num(ONE));
    let alpha: u8 = num(GROUND_ALPHA).times(opa).to_u8();
    let mut shapes: Vec<Shape> = Vec::new();
    shapes.push(
        Shape::Fill {
            edges: strip,
            rounding: num(FOUR),
            color: Rgba { r: 10, g: 11, b: 13, a: alpha },
        },
    );
    if edit {
        let len: Single = num(FOURTEEN);
        let back: Single = len.neg();
        push_corner(&mut shapes, strip.left, strip.top, len, len);
        push_corner(&mut shapes, strip.right, strip.top, back, len);
        push_corner(&mut shapes, strip.left, strip.bottom, len, back);
        push_corner(&mut shapes, strip.right, strip.bottom, back, back);
    }
    assert(shapes@ =~= glass_strip(strip, opacity, edit));
    shapes
}

/// Where the middle of the strip is.
pub open spec fn center_x(strip: Edges) -> Single {
    quotient(sum(strip.left, strip.right), num(TWO))
}

/// The line in the middle of the strip.
pub open spec fn center_line(strip: Edges) -> Shape {
    let x = center_x(strip);
    Shape::Line {
        x0: x,
        y0: sum(strip.top, num(TEN)),
        x1: x,
        y1: difference(strip.bottom, num(TEN)),
        width: num(ONE),
        color: white(55),
    }
}

/// All that the drawing of the bands depends on.
#[derive(Clone, Copy, Debug)]
pub struct Scene {
    pub strip: Edges,
    pub tracks: Tracks,
    pub show_band: [bool; 4],
    pub opacity: Single,
    pub ball_size: Single,
    pub direction: [Single; 4],
    pub energy: [Single; 4],
    pub scale: Single,
}

impl Scene {
    /// Share of a band's energy in the scale.
    pub open spec fn share(self, b: nat) -> Single {
        share(self.energy@[b as int], self.scale)
    }

    /// Whether a band is loud enough for a ball.
    pub open spec fn has_ball(self, b: nat) -> bool {
        less(num(FAINT), self.share(b))
    }

    /// Radius of the ball of a band.
    pub open spec fn radius(self, b: nat) -> Single {
        ball_radius(self.share(b), self.ball_size, self.tracks.max_radius)
    }

    /// Whether the strip has room for the ball of a band, if that is shown.
    pub open spec fn ball_fits(self, b: nat) -> bool {
        self.show_band@[b as int] && self.has_ball(b) ==> at_most(
            ball_range(self.strip, self.radius(b)).0,
            ball_range(self.strip, self.radius(b)).1,
        )
    }

    /// Whether the strip has room for every ball.
    pub open spec fn fits(self) -> bool {
        forall|b: nat| b < BANDS ==> #[trigger] self.ball_fits(b)
    }

    /// The line of a band on track `k`, and its ball.
    pub open spec fn band(self, b: nat, k: nat) -> Seq<Shape> {
        let y = track_line(self.tracks, k);
        let line = seq![
            Shape::Line {
                x0: self.tracks.left,
                y0: y,
                x1: sum(self.tracks.left, self.tracks.length),
                y1: y,
                width: num(ONE),
                color: faded(color_of_band(b), 32),
            },
        ];
        if self.has_ball(b) {
            line + seq![
                Shape::Disc {
                    x: ball_x(
                        self.strip,
                        self.tracks,
                        self.direction@[b as int],
                        self.radius(b),
                    ),
                    y,
                    radius: self.radius(b),
                    color: faded(color_of_band(b), ball_alpha(self.share(b), self.opacity)),
                },
            ]
        } else {
            line
        }
    }

    /// The shown ones of the first `b` bands, each on the next free track.
    pub open spec fn bands(self, b: nat) -> Seq<Shape>
        decreases b,
    {
        if b == 0 {
            Seq::empty()
        } else {
            let prev = (b - 1) as nat;
            self.bands(prev) + if self.show_band@[prev as int] {
                self.band(prev, shown_before(self.show_band@, prev))
            } else {
                Seq::empty()
            }
        }
    }

    /// Whether the strip has room for every ball.
    pub fn balls_fit(&self) -> (r: bool)
        ensures
            r == self.fits(),
    {
        let mut b: usize = 0;
        while b < BANDS
            invariant
                b <= BANDS,
                forall|c: nat| c < b ==> #[trigger] self.ball_fits(c),
            decreases BANDS - b,
        {
            if self.show_band[b] {
                let part: Single = energy_share(self.energy[b], self.scale);
                if num(FAINT).lt(part) {
                    let r: Single = radius_of_ball(part, self.ball_size, self.tracks.max_radius);
                    let (lo, hi) = range_of_ball(self.strip, r);
                    if !lo.le(hi) {
                        assert(!self.ball_fits(b as nat));
                        return false;
                    }
                }
            }
            assert(self.ball_fits(b as nat));
            b = b + 1;
        }
        true
    }

    /// Draws one band on the track whose line runs at `y`.
    fn draw_band(&self, shapes: &mut Vec<Shape>, b: usize, y: Single, k: Ghost<nat>)
        requires
            b < BANDS,
            self.show_band@[b as int],
            self.ball_fits(b as nat),
            y == track_line(self.tracks, k@),
        ensures
            final(shapes)@ == old(shapes)@ + self.band(b as nat, k@),
    {
        let base: Rgba = band_color(b);
        push_line(
            shapes,
            self.tracks.left,
            y,
            self.tracks.left.plus(self.tracks.length),
            y,
            num(ONE),
            with_alpha(base, 32),
        );
        let part: Single = energy_share(self.energy[b], self.scale);
        if num(FAINT).lt(part) {
            let r: Single = radius_of_ball(part, self.ball_size, self.tracks.max_radius);
            let x: Single = x_of_ball(self.strip, self.tracks, self.direction[b], r);
            let alpha: u8 = alpha_of_ball(part, self.opacity);
            shapes.push(Shape::Disc { x, y, radius: r, color: with_alpha(base, alpha) });
        }
        assert(shapes@ =~= old(shapes)@ + self.band(b as nat, k@));
    }

    /// The shown bands, each on the next free track.
    pub fn draw_bands(&self) -> (shapes: Vec<Shape>)
        requires
            self.fits(),
        ensures
            shapes@ == self.bands(BANDS as nat),
    {
        let mut shapes: Vec<Shape> = Vec::new();
        let mut top: Single = self.tracks.top;
        let mut b: usize = 0;
        while b < BANDS
            invariant
                b <= BANDS,
                self.fits(),
                shapes@ == self.bands(b as nat),
                top == track_top(self.tracks, shown_before(self.show_band@, b as nat)),
            decreases BANDS - b,
        {
            assert(self.ball_fits(b as nat));
            if self.show_band[b] {
                let y: Single = top.plus(self.tracks.height.times(num(HALF)));
                self.draw_band(
                    &mut shapes,
                    b,
                    y,
                    Ghost(shown_before(self.show_band@, b as nat)),
                );
                top = top.plus(self.tracks.height.plus(num(FOUR)));
            } else {
                assert(shapes@ + Seq::<Shape>::empty() =~= shapes@);
            }
            b = b + 1;
        }
        shapes
    }
}

/// One of the lines that mark the corner by which the strip is resized.
pub open spec fn handle_line(h: Edges, off: Single) -> Shape {
    Shape::Line {
        x0: difference(difference(h.right, off), num(ONE)),
        y0: difference(h.bottom, num(ONE)),
        x1: difference(h.right, num(ONE)),
        y1: difference(difference(h.bottom, off), num(ONE)),
        width: num(ONE_AND_HALF),
        color: white(200),
    }
}

/// The corner by which the strip is resized.
pub open spec fn handle(strip: Edges) -> Edges {
    edges(
        difference(difference(strip.right, num(SIXTEEN)), num(TWO)),
        difference(difference(strip.bottom, num(SIXTEEN)), num(TWO)),
        num(SIXTEEN),
        num(SIXTEEN),
    )
}

pub fn resize_handle(strip: Edges) -> (h: Edges)
    ensures
        h == handle(strip),
{
    edges_of(
        strip.right.minus(num(SIXTEEN)).minus(num(TWO)),
        strip.bottom.minus(num(SIXTEEN)).minus(num(TWO)),
        num(SIXTEEN),
        num(SIXTEEN),
    )
}

fn push_handle_line(shapes: &mut Vec<Shape>, h: Edges, off: Single)
    ensures
        final(shapes)@ == old(shapes)@.push(handle_line(h, off)),
{
    push_line(
        shapes,
        h.right.minus(off).minus(num(ONE)),
        h.bottom.minus(num(ONE)),
        h.right.minus(num(ONE)),
        h.bottom.minus(off).minus(num(ONE)),
        num(ONE_AND_HALF),
        Rgba { r: 255, g: 255, b: 255, a: 200 },
    );
}

/// All shapes of a strip: its ground, its middle, its bands, and while it is edited
/// the corner by which it is resized.
pub open spec fn strip_shapes(scene: Scene, edit: bool) -> Seq<Shape> {
    let h = handle(scene.strip);
    glass_strip(scene.strip, scene.opacity, edit) + seq![center_line(scene.strip)] + scene.bands(
        BANDS as nat,
    ) + if edit {
        seq![
            handle_line(h, num(0)),
            handle_line(h, num(FOUR)),
            handle_line(h, num(EIGHT)),
        ]
    } else {
        Seq::empty()
    }
}

pub fn paint_strip(scene: &Scene, edit: bool) -> (shapes: Vec<Shape>)
    requires
        scene.fits(),
    ensures
        shapes@ == strip_shapes(*scene, edit),
{
    let strip: Edges = scene.strip;
    let mut shapes: Vec<Shape> = paint_glass_strip(strip, scene.opacity, edit);
    let x: Single = strip.left.plus(strip.right).over(num(TWO));
    push_line(
        &mut shapes,
        x,
        strip.top.plus(num(TEN)),
        x,
        strip.bottom.minus(num(TEN)),
        num(ONE),
        Rgba { r: 255, g: 255, b: 255, a: 55 },
    );
    let mut bands: Vec<Shape> = scene.draw_bands();
    shapes.append(&mut bands);
    if edit {
        let h: Edges = resize_handle(strip);
        push_handle_line(&mut shapes, h, num(0));
        push_handle_line(&mut shapes, h, num(FOUR));
        push_handle_line(&mut shapes, h, num(EIGHT));
    }
    assert(shapes@ =~= strip_shapes(*scene, edit));
    shapes
}

/// Two scenes that differ at most in the sound of bands that are hidden.
pub open spec fn alike_where_shown(a: Scene, b: Scene) -> bool {
    &&& a.strip == b.strip
    &&& a.tracks == b.tracks
    &&& a.show_band@ == b.show_band@
    &&& a.opacity == b.opacity
    &&& a.ball_size == b.ball_size
    &&& a.scale == b.scale
    &&& forall|i: int|
        0 <= i < BANDS && a.show_band@[i] ==> #[trigger] a.energy@[i] == b.energy@[i]
            && a.direction@[i] == b.direction@[i]
}

proof fn lemma_bands_alike(a: Scene, b: Scene, n: nat)
    requires
        alike_where_shown(a, b),
        n <= BANDS,
    ensures
        a.bands(n) == b.bands(n),
    decreases n,
{
    if n > 0 {
        let prev = (n - 1) as nat;
        lemma_bands_alike(a, b, prev);
        if a.show_band@[prev as int] {
            assert(a.energy@[prev as int] == b.energy@[prev as int]);
        }
    }
}

/// A hidden band is not seen: its energy and its direction change nothing of what is
/// drawn at a given scale.
pub proof fn law_hidden_band_is_not_seen(a: Scene, b: Scene, edit: bool)
    requires
        alike_where_shown(a, b),
    ensures
        strip_shapes(a, edit) == strip_shapes(b, edit),
{
    lemma_bands_alike(a, b, BANDS as nat);
}

/// How many shapes the shown ones of the first `n` bands have: a line each, and a
/// ball for each that is loud enough.
proof fn lemma_band_count(scene: Scene, n: nat)
    requires
        n <= BANDS,
    ensures
        shown_before(scene.show_band@, n) <= scene.bands(n).len() <= 2 * shown_before(
            scene.show_band@,
            n,
        ),
    decreases n,
{
    if n > 0 {
        lemma_band_count(scene, (n - 1) as nat);
    }
}

/// With no band shown, the strip is its ground and its middle line alone.
pub proof fn law_no_band_no_track(scene: Scene)
    requires
        forall|i: int| 0 <= i < BANDS ==> !#[trigger] scene.show_band@[i],
    ensures
        strip_shapes(scene, false) == seq![
            glass_strip(scene.strip, scene.opacity, false)[0],
            center_line(scene.strip),
        ],
{
    let show = scene.show_band@;
    assert(!show[0] && !show[1] && !show[2] && !show[3]);
    assert(shown_before(show, 4) == 0) by {
        reveal_with_fuel(shown_before, 5);
    }
    lemma_band_count(scene, BANDS as nat);
    assert(strip_shapes(scene, false) =~= seq![
        glass_strip(scene.strip, scene.opacity, false)[0],
        center_line(scene.strip),
    ]);
}

/// The ball of a band: a disc in the colour of the band, on the line of the track `k`.
pub open spec fn is_ball(scene: Scene, b: nat, k: nat, s: Shape) -> bool {
    match s {
        Shape::Disc { x, y, radius, color } => {
            &&& x == ball_x(
                scene.strip,
                scene.tracks,
                scene.direction@[b as int],
                radius,
            )
            &&& y == track_line(scene.tracks, k)
            &&& radius == ball_radius(
                share(scene.energy@[b as int], scene.scale),
                scene.ball_size,
                scene.tracks.max_radius,
            )
            &&& color == faded(
                color_of_band(b),
                ball_alpha(share(scene.energy@[b as int], scene.scale), scene.opacity),
            )
        },
        _ => false,
    }
}

/// The line of a band: along the whole track `k`, in the colour of the band.
pub open spec fn is_track(scene: Scene, b: nat, k: nat, s: Shape) -> bool {
    match s {
        Shape::Line { x0, y0, x1, y1, width, color } => {
            &&& x0 == scene.tracks.left
            &&& x1 == sum(scene.tracks.left, scene.tracks.length)
            &&& y0 == track_line(scene.tracks, k)
            &&& y1 == y0
            &&& width == num(ONE)
            &&& color == faded(color_of_band(b), 32)
        },
        _ => false,
    }
}

/// Where the shapes of band `b` begin among those of the bands.
proof fn lemma_band_at(scene: Scene, b: nat, n: nat)
    requires
        b < n <= BANDS,
        scene.show_band@[b as int],
    ensures
        ({
            let own = scene.band(b, shown_before(scene.show_band@, b));
            let all = scene.bands(n);
            let i = scene.bands(b).len() as int;
            &&& i + own.len() <= all.len()
            &&& all.subrange(i, i + own.len()) == own
        }),
    decreases n,
{
    let own = scene.band(b, shown_before(scene.show_band@, b));
    let i = scene.bands(b).len() as int;
    let all = scene.bands(n);
    let prev = (n - 1) as nat;
    if b == prev {
        assert(all.subrange(i, i + own.len()) =~= own);
    } else {
        lemma_band_at(scene, b, prev);
        let before = scene.bands(prev);
        assert(all.subrange(i, i + own.len()) =~= before.subrange(i, i + own.len()));
    }
}

/// Every shown band has its line, on the next free track, and directly after it its ball
/// where it is loud enough, and none where it is not.
pub proof fn law_shown_band_is_drawn(scene: Scene, edit: bool, b: nat) -> (i: int)
    requires
        b < BANDS,
        scene.show_band@[b as int],
    ensures
        ({
            let shapes = strip_shapes(scene, edit);
            let k = shown_before(scene.show_band@, b);
            let loud = less(num(FAINT), share(scene.energy@[b as int], scene.scale));
            &&& 0 <= i < shapes.len()
            &&& is_track(scene, b, k, shapes[i])
            &&& loud ==> i + 1 < shapes.len() && is_ball(scene, b, k, shapes[i + 1])
            &&& !loud ==> i + 1 < shapes.len() ==> !(shapes[i + 1] is Disc)
        }),
{
    let shapes = strip_shapes(scene, edit);
    let k = shown_before(scene.show_band@, b);
    let own = scene.band(b, k);
    let ground = glass_strip(scene.strip, scene.opacity, edit) + seq![center_line(scene.strip)];
    let all = scene.bands(BANDS as nat);
    let j = scene.bands(b).len() as int;
    lemma_band_at(scene, b, BANDS as nat);
    let i = ground.len() + j;
    assert(own[0] == all.subrange(j, j + own.len())[0]);
    assert(shapes[i] == all[j] && all[j] == own[0]);
    if scene.has_ball(b) {
        assert(own[1] == all.subrange(j, j + own.len())[1]);
        assert(shapes[i + 1] == all[j + 1] && all[j + 1] == own[1]);
    } else if i + 1 < shapes.len() {
        lemma_line_first(scene, b + 1, BANDS as nat);
        if j + 1 < all.len() {
            assert(scene.bands((b + 1) as nat).len() == j + 1);
            assert(shapes[i + 1] == all[j + 1]);
        }
    }
    i
}

/// What follows the shapes of the first `m` bands is a line.
proof fn lemma_line_first(scene: Scene, m: nat, n: nat)
    requires
        m <= n <= BANDS,
    ensures
        ({
            let i = scene.bands(m).len() as int;
            &&& i <= scene.bands(n).len()
            &&& i < scene.bands(n).len() ==> !(scene.bands(n)[i] is Disc)
        }),
    decreases n,
{
    let i = scene.bands(m).len() as int;
    if m < n {
        let prev = (n - 1) as nat;
        lemma_line_first(scene, m, prev);
        let before = scene.bands(prev);
        let own = if scene.show_band@[prev as int] {
            scene.band(prev, shown_before(scene.show_band@, prev))
        } else {
            Seq::empty()
        };
        assert(scene.bands(n) == before + own);
        if i < before.len() {
            assert(scene.bands(n)[i] == before[i]);
        } else if own.len() > 0 {
            assert(scene.bands(n)[i] == own[0]);
        }
    }
}

/// How many of the first `n` bands are shown and loud enough for a ball.
pub open spec fn balls_before(scene: Scene, n: nat) -> nat
    decreases n,
{
    if n == 0 {
        0
    } else {
        let b = (n - 1) as nat;
        balls_before(scene, b) + if scene.show_band@[b as int] && less(
            num(FAINT),
            share(scene.energy@[b as int], scene.scale),
        ) {
            1nat
        } else {
            0
        }
    }
}

/// The strip has no more shapes than it needs: its ground, its middle line, a line for each
/// shown band, a ball for each that is loud enough, and eleven more lines while it is edited.
pub proof fn law_shapes_are_counted(scene: Scene, edit: bool)
    ensures
        strip_shapes(scene, edit).len() == 2 + shown_before(scene.show_band@, BANDS as nat)
            + balls_before(scene, BANDS as nat) + if edit {
            11int
        } else {
            0
        },
{
    lemma_shape_count(scene, BANDS as nat);
}

proof fn lemma_shape_count(scene: Scene, n: nat)
    requires
        n <= BANDS,
    ensures
        scene.bands(n).len() == shown_before(scene.show_band@, n) + balls_before(scene, n),
    decreases n,
{
    if n > 0 {
        lemma_shape_count(scene, (n - 1) as nat);
    }
}

/// The ground of the strip covers it, and its middle line runs through its middle from 10
/// pixels below its top to 10 above its bottom.
pub proof fn law_ground_covers_the_strip(scene: Scene, edit: bool)
    ensures
        ({
            let shapes = strip_shapes(scene, edit);
            let i: int = if edit {
                9
            } else {
                1
            };
            &&& shapes.len() > i
            &&& shapes[0] matches Shape::Fill { edges, color, .. } && edges == scene.strip
                && color.a == ground_alpha(scene.opacity)
            &&& shapes[i] matches Shape::Line { x0, x1, y0, y1, .. } && x0 == x1 && x0 == center_x(
                scene.strip,
            ) && y0 == sum(scene.strip.top, num(TEN)) && y1 == difference(
                scene.strip.bottom,
                num(TEN),
            )
        }),
{
}

} // verus!
