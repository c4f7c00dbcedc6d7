//! The settings of the overlay, and where they put the strip on the screen.
use crate::hotkey::{is_def, same_def, HotkeyDef};
use crate::number::constants::{HALF, MINUS_ONE, ONE, SIXTEEN, TWENTY_FOUR};
use crate::number::laws::{
    apart, law_difference_symmetric, law_self_difference, law_sum_monotone, law_zero_adds_nothing,
};
use crate::number::near::{is_nearest_to, law_held_between, law_sum_is_the_nearest, size};
use crate::number::order::{law_order_is_that_of_values, lemma_zero_units};
use crate::number::single::{
    absolute, at_most, difference, larger, less, limited, negated, num, product, sum, Single,
};
use vstd::arithmetic::power2::pow2;
use vstd::prelude::*;

verus! {

/// 620
pub const DEFAULT_WIDTH: u32 = 0x441b_0000;

/// 116
pub const DEFAULT_HEIGHT: u32 = 0x42e8_0000;

/// 0.95
pub const DEFAULT_OPACITY: u32 = 0x3f73_3333;

/// 0.7
pub const DEFAULT_SENSITIVITY: u32 = 0x3f33_3333;

/// 280
pub const MIN_WIDTH: u32 = 0x438c_0000;

/// 1600
pub const MAX_WIDTH: u32 = 0x44c8_0000;

/// 1400, as far as the slider of the width reaches.
pub const MAX_SLIDER_WIDTH: u32 = 0x44af_0000;

/// 60
pub const MIN_HEIGHT: u32 = 0x4270_0000;

/// 240
pub const MAX_HEIGHT: u32 = 0x4370_0000;

/// 0.001, below which two settings count as equal.
pub const CLOSE: u32 = 0x3a83_126f;

/// The number before 0.001.
pub const BELOW_CLOSE: u32 = 0x3a83_126e;

/// What the user can change. A negative `pos_x` stands for the middle of the screen.
#[derive(Debug)]
pub struct Settings {
    pub pos_x: Single,
    pub pos_y: Single,
    pub width: Single,
    pub height: Single,
    pub opacity: Single,
    pub ball_size: Single,
    pub sensitivity: Single,
    pub show_band: [bool; 4],
    pub hotkey: HotkeyDef,
}

/// Whether two settings are the same in every part.
pub open spec fn same_settings(a: Settings, b: Settings) -> bool {
    &&& a.placement() == b.placement()
    &&& a.opacity == b.opacity
    &&& a.ball_size == b.ball_size
    &&& a.sensitivity == b.sensitivity
    &&& a.show_band@ == b.show_band@
    &&& same_def(a.hotkey, b.hotkey)
}

/// The settings before the user has changed any, and after a reset.
pub open spec fn is_default(s: Settings) -> bool {
    &&& s.pos_x == num(MINUS_ONE)
    &&& s.pos_y == num(SIXTEEN)
    &&& s.width == num(DEFAULT_WIDTH)
    &&& s.height == num(DEFAULT_HEIGHT)
    &&& s.opacity == num(DEFAULT_OPACITY)
    &&& s.ball_size == num(ONE)
    &&& s.sensitivity == num(DEFAULT_SENSITIVITY)
    &&& s.show_band@ == seq![true, true, true, true]
    &&& is_def(s.hotkey, true, true, true, false, "H"@)
}

impl Default for Settings {
    fn default() -> (s: Self)
        ensures
            is_default(s),
    {
        let s: Settings = Settings {
            pos_x: num(MINUS_ONE),
            pos_y: num(SIXTEEN),
            width: num(DEFAULT_WIDTH),
            height: num(DEFAULT_HEIGHT),
            opacity: num(DEFAULT_OPACITY),
            ball_size: num(ONE),
            sensitivity: num(DEFAULT_SENSITIVITY),
            show_band: [true; 4],
            hotkey: HotkeyDef::default(),
        };
        assert(s.show_band@ =~= seq![true, true, true, true]);
        s
    }
}

/// Where the strip is, and how large.
#[derive(Clone, Copy, Debug, PartialEq, Eq, Structural)]
pub struct Placement {
    pub x: Single,
    pub y: Single,
    pub width: Single,
    pub height: Single,
}

impl Settings {
    pub open spec fn placement(self) -> Placement {
        Placement { x: self.pos_x, y: self.pos_y, width: self.width, height: self.height }
    }

    /// Where the settings put the strip.
    pub fn get_placement(&self) -> (p: Placement)
        ensures
            p == self.placement(),
    {
        Placement { x: self.pos_x, y: self.pos_y, width: self.width, height: self.height }
    }

    /// Puts the strip elsewhere.
    pub fn set_placement(&mut self, p: Placement)
        ensures
            final(self).placement() == p,
            final(self).opacity == old(self).opacity,
            final(self).ball_size == old(self).ball_size,
            final(self).sensitivity == old(self).sensitivity,
            final(self).show_band == old(self).show_band,
            final(self).hotkey == old(self).hotkey,
    {
        self.pos_x = p.x;
        self.pos_y = p.y;
        self.width = p.width;
        self.height = p.height;
    }

    /// Settings that are the same in every part.
    pub fn copy(&self) -> (s: Settings)
        ensures
            same_settings(s, *self),
    {
        Settings {
            pos_x: self.pos_x,
            pos_y: self.pos_y,
            width: self.width,
            height: self.height,
            opacity: self.opacity,
            ball_size: self.ball_size,
            sensitivity: self.sensitivity,
            show_band: self.show_band,
            hotkey: self.hotkey.copy(),
        }
    }
}

/// Whether two numbers are so near that a change from one to the other is none.
pub open spec fn close(a: Single, b: Single) -> bool {
    less(absolute(difference(a, b)), num(CLOSE))
}

/// Whether two settings are equal as far as saving them goes.
pub open spec fn close_settings(a: Settings, b: Settings) -> bool {
    &&& close(a.pos_x, b.pos_x)
    &&& close(a.pos_y, b.pos_y)
    &&& close(a.width, b.width)
    &&& close(a.height, b.height)
    &&& close(a.opacity, b.opacity)
    &&& close(a.ball_size, b.ball_size)
    &&& close(a.sensitivity, b.sensitivity)
    &&& a.show_band@ == b.show_band@
    &&& same_def(a.hotkey, b.hotkey)
}

fn is_close(a: Single, b: Single) -> (r: bool)
    ensures
        r == close(a, b),
{
    a.minus(b).abs().lt(num(CLOSE))
}

fn same_bands(a: &[bool; 4], b: &[bool; 4]) -> (r: bool)
    ensures
        r == (a@ == b@),
{
    let r: bool = a[0] == b[0] && a[1] == b[1] && a[2] == b[2] && a[3] == b[3];
    proof {
        if r {
            assert(a@ =~= b@);
        }
    }
    r
}

/// The same bands are shown, each of the four, and the hotkey is the same in each part.
pub open spec fn same_choices(a: Settings, b: Settings) -> bool {
    &&& a.show_band@[0] == b.show_band@[0]
    &&& a.show_band@[1] == b.show_band@[1]
    &&& a.show_band@[2] == b.show_band@[2]
    &&& a.show_band@[3] == b.show_band@[3]
    &&& a.hotkey.enabled == b.hotkey.enabled
    &&& a.hotkey.ctrl == b.hotkey.ctrl
    &&& a.hotkey.alt == b.hotkey.alt
    &&& a.hotkey.shift == b.hotkey.shift
    &&& a.hotkey.key@ == b.hotkey.key@
}

/// Two finite numbers are less than `d` units apart.
pub open spec fn within(a: Single, b: Single, d: int) -> bool {
    a.is_finite() && b.is_finite() && apart(a.value(), b.value()) < d
}

/// Each number of the settings is less than `d` units from that of the others.
pub open spec fn numbers_within(a: Settings, b: Settings, d: int) -> bool {
    &&& within(a.pos_x, b.pos_x, d)
    &&& within(a.pos_y, b.pos_y, d)
    &&& within(a.width, b.width, d)
    &&& within(a.height, b.height, d)
    &&& within(a.opacity, b.opacity, d)
    &&& within(a.ball_size, b.ball_size, d)
    &&& within(a.sensitivity, b.sensitivity, d)
}

/// Settings count as equal where they show the same bands, have the same hotkey, and differ
/// by less than 0.001 in each number, and only there. Differences between 0.001 and the
/// number before it can be rounded up to 0.001.
pub proof fn law_equal_settings(a: Settings, b: Settings)
    ensures
        close_settings(a, b) ==> same_choices(a, b) && numbers_within(a, b, num(CLOSE).value()),
        same_choices(a, b) && numbers_within(a, b, num(BELOW_CLOSE).value() + 1)
            ==> close_settings(a, b),
{
    if close_settings(a, b) {
        lemma_close(a.pos_x, b.pos_x);
        lemma_close(a.pos_y, b.pos_y);
        lemma_close(a.width, b.width);
        lemma_close(a.height, b.height);
        lemma_close(a.opacity, b.opacity);
        lemma_close(a.ball_size, b.ball_size);
        lemma_close(a.sensitivity, b.sensitivity);
    }
    if same_choices(a, b) && numbers_within(a, b, num(BELOW_CLOSE).value() + 1) {
        lemma_within_is_close(a.pos_x, b.pos_x);
        lemma_within_is_close(a.pos_y, b.pos_y);
        lemma_within_is_close(a.width, b.width);
        lemma_within_is_close(a.height, b.height);
        lemma_within_is_close(a.opacity, b.opacity);
        lemma_within_is_close(a.ball_size, b.ball_size);
        lemma_within_is_close(a.sensitivity, b.sensitivity);
        assert(a.show_band@ =~= b.show_band@);
    }
}

/// Two numbers that are less than 0.001 apart count as equal.
proof fn lemma_within_is_close(a: Single, b: Single)
    requires
        within(a, b, num(BELOW_CLOSE).value() + 1),
    ensures
        close(a, b),
{
    let c = num(BELOW_CLOSE);
    lemma_zero_units();
    law_zero_adds_nothing(c, num(0));
    law_zero_adds_nothing(negated(c), num(0));
    law_sum_monotone(a, negated(b), c, num(0));
    law_sum_monotone(negated(c), num(0), a, negated(b));
}

pub fn settings_eq(a: &Settings, b: &Settings) -> (r: bool)
    ensures
        r == close_settings(*a, *b),
        r ==> same_choices(*a, *b) && numbers_within(*a, *b, num(CLOSE).value()),
        same_choices(*a, *b) && numbers_within(*a, *b, num(BELOW_CLOSE).value() + 1) ==> r,
{
    proof {
        law_equal_settings(*a, *b);
    }
    is_close(a.pos_x, b.pos_x) && is_close(a.pos_y, b.pos_y) && is_close(a.width, b.width)
        && is_close(a.height, b.height) && is_close(a.opacity, b.opacity) && is_close(
        a.ball_size,
        b.ball_size,
    ) && is_close(a.sensitivity, b.sensitivity) && same_bands(&a.show_band, &b.show_band)
        && a.hotkey.same(&b.hotkey)
}

/// `a` with negative values and NaN replaced by 0.
pub open spec fn at_least_zero(a: Single) -> Single {
    larger(a, num(0))
}

/// A placement brought onto a screen: in the middle where `x` is negative, sizes
/// within their bounds, and no further out than the screen reaches, less a margin of
/// 24 below.
pub open spec fn placed(p: Placement, screen_w: Single, screen_h: Single) -> Placement {
    let x = if less(p.x, num(0)) {
        product(difference(screen_w, p.width), num(HALF))
    } else {
        p.x
    };
    let width = limited(p.width, num(MIN_WIDTH), num(MAX_WIDTH));
    let height = limited(p.height, num(MIN_HEIGHT), num(MAX_HEIGHT));
    Placement {
        x: limited(x, num(0), at_least_zero(difference(screen_w, width))),
        y: limited(
            p.y,
            num(0),
            at_least_zero(difference(difference(screen_h, height), num(TWENTY_FOUR))),
        ),
        width,
        height,
    }
}

pub fn place(p: Placement, screen_w: Single, screen_h: Single) -> (r: Placement)
    ensures
        r == placed(p, screen_w, screen_h),
{
    let x: Single = if p.x.lt(num(0)) {
        screen_w.minus(p.width).times(num(HALF))
    } else {
        p.x
    };
    let width: Single = p.width.clamp(num(MIN_WIDTH), num(MAX_WIDTH));
    let height: Single = p.height.clamp(num(MIN_HEIGHT), num(MAX_HEIGHT));
    Placement {
        x: x.clamp(num(0), screen_w.minus(width).max(num(0))),
        y: p.y.clamp(num(0), screen_h.minus(height).minus(num(TWENTY_FOUR)).max(num(0))),
        width,
        height,
    }
}

/// A change that the user makes to the strip in a frame.
#[derive(Clone, Copy, Debug, PartialEq, Eq, Structural)]
pub enum Edit {
    /// The strip is dragged.
    Move { dx: Single, dy: Single },
    /// The corner of the strip is dragged.
    Resize { dx: Single, dy: Single },
    /// The slider of the width is moved.
    Width(Single),
    /// The slider of the height is moved.
    Height(Single),
    /// All settings are reset.
    Reset,
}

/// A placement after a change. Sizes stay within their bounds; the slider of the width
/// does not reach as far as the corner.
pub open spec fn edited(p: Placement, e: Edit) -> Placement {
    match e {
        Edit::Move { dx, dy } => Placement { x: sum(p.x, dx), y: sum(p.y, dy), ..p },
        Edit::Resize { dx, dy } => Placement {
            width: limited(sum(p.width, dx), num(MIN_WIDTH), num(MAX_WIDTH)),
            height: limited(sum(p.height, dy), num(MIN_HEIGHT), num(MAX_HEIGHT)),
            ..p
        },
        Edit::Width(w) => Placement {
            width: limited(w, num(MIN_WIDTH), num(MAX_SLIDER_WIDTH)),
            ..p
        },
        Edit::Height(h) => Placement {
            height: limited(h, num(MIN_HEIGHT), num(MAX_HEIGHT)),
            ..p
        },
        Edit::Reset => Placement {
            x: num(MINUS_ONE),
            y: num(SIXTEEN),
            width: num(DEFAULT_WIDTH),
            height: num(DEFAULT_HEIGHT),
        },
    }
}

/// A placement after the changes of a frame, one after the other.
pub open spec fn edited_by(p: Placement, edits: Seq<Edit>) -> Placement
    decreases edits.len(),
{
    if edits.len() == 0 {
        p
    } else {
        edited(edited_by(p, edits.drop_last()), edits.last())
    }
}

/// What moves by `d` from `a` comes to `b`: to the number nearest to the sum, for numbers
/// that are together below 2^75.
pub open spec fn is_moved(a: Single, d: Single, b: Single) -> bool {
    a.is_finite() && d.is_finite() && size(a.value() + d.value()) < pow2(224) ==> is_nearest_to(
        b,
        a.value() + d.value(),
    )
}

/// What grows by `d` from `a` comes to `b`: to the number nearest to the sum, but not below
/// `lo` nor above `hi`.
pub open spec fn is_grown(a: Single, d: Single, b: Single, lo: Single, hi: Single) -> bool {
    let v = a.value() + d.value();
    a.is_finite() && d.is_finite() && size(v) < pow2(224) ==> {
        &&& v <= lo.value() ==> b.value() == lo.value()
        &&& hi.value() <= v ==> b.value() == hi.value()
        &&& lo.value() <= v <= hi.value() ==> is_nearest_to(b, v)
    }
}

/// Dragging the strip moves it by what the mouse moves, to either side, and does not resize
/// it.
pub proof fn law_dragged_moves(p: Placement, dx: Single, dy: Single)
    ensures
        ({
            let q = edited(p, Edit::Move { dx, dy });
            &&& is_moved(p.x, dx, q.x)
            &&& is_moved(p.y, dy, q.y)
            &&& q.width == p.width
            &&& q.height == p.height
        }),
{
    if p.x.is_finite() && dx.is_finite() && size(p.x.value() + dx.value()) < pow2(224) {
        law_sum_is_the_nearest(p.x, dx);
    }
    if p.y.is_finite() && dy.is_finite() && size(p.y.value() + dy.value()) < pow2(224) {
        law_sum_is_the_nearest(p.y, dy);
    }
}

/// Dragging the strip to the left never brings it to the right, nor dragging it to the right
/// to the left; and so up and down.
pub proof fn law_dragged_to_its_side(p: Placement, dx: Single, dy: Single)
    requires
        p.x.is_finite(),
        p.y.is_finite(),
        dx.is_finite(),
        dy.is_finite(),
    ensures
        ({
            let q = edited(p, Edit::Move { dx, dy });
            &&& dx.value() <= 0 ==> at_most(q.x, p.x)
            &&& 0 <= dx.value() ==> at_most(p.x, q.x)
            &&& dy.value() <= 0 ==> at_most(q.y, p.y)
            &&& 0 <= dy.value() ==> at_most(p.y, q.y)
        }),
{
    lemma_moves_to_side(p.x, dx);
    lemma_moves_to_side(p.y, dy);
}

proof fn lemma_moves_to_side(a: Single, d: Single)
    requires
        a.is_finite(),
        d.is_finite(),
    ensures
        d.value() <= 0 ==> at_most(sum(a, d), a),
        0 <= d.value() ==> at_most(a, sum(a, d)),
{
    lemma_zero_units();
    law_zero_adds_nothing(a, num(0));
    law_order_is_that_of_values(a, sum(a, num(0)));
    law_order_is_that_of_values(sum(a, num(0)), a);
    if d.value() <= 0 {
        law_sum_monotone(a, d, a, num(0));
    }
    if 0 <= d.value() {
        law_sum_monotone(a, num(0), a, d);
    }
}

/// A strip that is dragged and dragged back is where it was, where no sum is rounded.
pub proof fn law_dragged_back(p: Placement, dx: Single, dy: Single)
    requires
        p.x.is_finite(),
        p.y.is_finite(),
        dx.is_finite(),
        dy.is_finite(),
        ({
            let q = edited(p, Edit::Move { dx, dy });
            &&& q.x.is_finite() && q.x.value() == p.x.value() + dx.value()
            &&& q.y.is_finite() && q.y.value() == p.y.value() + dy.value()
        }),
    ensures
        ({
            let q = edited(p, Edit::Move { dx, dy });
            let r = edited(q, Edit::Move { dx: negated(dx), dy: negated(dy) });
            &&& r.x.value() == p.x.value()
            &&& r.y.value() == p.y.value()
            &&& r.width == p.width
            &&& r.height == p.height
        }),
{
    let q = edited(p, Edit::Move { dx, dy });
    lemma_exact_sum(q.x, negated(dx), p.x);
    lemma_exact_sum(q.y, negated(dy), p.y);
}

/// A sum that a number states exactly has its value.
pub proof fn lemma_exact_sum(a: Single, b: Single, c: Single)
    requires
        a.is_finite(),
        b.is_finite(),
        c.is_finite(),
        a.value() + b.value() == c.value(),
    ensures
        sum(a, b).is_finite(),
        sum(a, b).value() == c.value(),
{
    lemma_zero_units();
    law_zero_adds_nothing(c, num(0));
    law_sum_monotone(a, b, c, num(0));
    law_sum_monotone(c, num(0), a, b);
    law_order_is_that_of_values(sum(a, b), sum(c, num(0)));
    law_order_is_that_of_values(sum(c, num(0)), sum(a, b));
}

/// Dragging the corner of the strip resizes it by what the mouse moves, as far as the bounds
/// of its sizes reach, and does not move it.
pub proof fn law_resized_grows(p: Placement, dx: Single, dy: Single)
    ensures
        ({
            let q = edited(p, Edit::Resize { dx, dy });
            &&& is_grown(p.width, dx, q.width, num(MIN_WIDTH), num(MAX_WIDTH))
            &&& is_grown(p.height, dy, q.height, num(MIN_HEIGHT), num(MAX_HEIGHT))
            &&& q.x == p.x
            &&& q.y == p.y
        }),
{
    law_order_is_that_of_values(num(MIN_WIDTH), num(MAX_WIDTH));
    law_order_is_that_of_values(num(MIN_HEIGHT), num(MAX_HEIGHT));
    lemma_grows(p.width, dx, num(MIN_WIDTH), num(MAX_WIDTH));
    lemma_grows(p.height, dy, num(MIN_HEIGHT), num(MAX_HEIGHT));
}

proof fn lemma_grows(a: Single, d: Single, lo: Single, hi: Single)
    requires
        lo.is_finite(),
        hi.is_finite(),
        lo.value() < hi.value(),
    ensures
        is_grown(a, d, limited(sum(a, d), lo, hi), lo, hi),
{
    let v = a.value() + d.value();
    if a.is_finite() && d.is_finite() && size(v) < pow2(224) {
        let s = sum(a, d);
        law_sum_is_the_nearest(a, d);
        law_held_between(s, lo, hi);
        lemma_zero_units();
        law_zero_adds_nothing(lo, num(0));
        law_zero_adds_nothing(hi, num(0));
        law_order_is_that_of_values(s, sum(lo, num(0)));
        law_order_is_that_of_values(sum(lo, num(0)), s);
        law_order_is_that_of_values(s, sum(hi, num(0)));
        law_order_is_that_of_values(sum(hi, num(0)), s);
        if v <= lo.value() {
            law_sum_monotone(a, d, lo, num(0));
        }
        if lo.value() <= v {
            law_sum_monotone(lo, num(0), a, d);
        }
        if v <= hi.value() {
            law_sum_monotone(a, d, hi, num(0));
        }
        if hi.value() <= v {
            law_sum_monotone(hi, num(0), a, d);
        }
    }
}

/// A slider sets its own size, as far as it reaches, and nothing else.
pub proof fn law_sliders_set_sizes(p: Placement, s: Single)
    requires
        s.is_finite(),
    ensures
        ({
            let q = edited(p, Edit::Width(s));
            let r = edited(p, Edit::Height(s));
            &&& q.height == p.height && q.x == p.x && q.y == p.y
            &&& r.width == p.width && r.x == p.x && r.y == p.y
            &&& num(MIN_WIDTH).value() <= s.value() <= num(MAX_SLIDER_WIDTH).value() ==> q.width
                == s
            &&& s.value() < num(MIN_WIDTH).value() ==> q.width == num(MIN_WIDTH)
            &&& num(MAX_SLIDER_WIDTH).value() < s.value() ==> q.width == num(MAX_SLIDER_WIDTH)
            &&& num(MIN_HEIGHT).value() <= s.value() <= num(MAX_HEIGHT).value() ==> r.height == s
            &&& s.value() < num(MIN_HEIGHT).value() ==> r.height == num(MIN_HEIGHT)
            &&& num(MAX_HEIGHT).value() < s.value() ==> r.height == num(MAX_HEIGHT)
        }),
{
    law_order_is_that_of_values(num(MIN_WIDTH), num(MAX_SLIDER_WIDTH));
    law_order_is_that_of_values(num(MIN_HEIGHT), num(MAX_HEIGHT));
    law_held_between(s, num(MIN_WIDTH), num(MAX_SLIDER_WIDTH));
    law_held_between(s, num(MIN_HEIGHT), num(MAX_HEIGHT));
}

/// A placement after the strip has been dragged.
pub fn dragged(p: Placement, dx: Single, dy: Single) -> (r: Placement)
    ensures
        r == edited(p, Edit::Move { dx, dy }),
        is_moved(p.x, dx, r.x),
        is_moved(p.y, dy, r.y),
        r.width == p.width,
        r.height == p.height,
{
    proof {
        law_dragged_moves(p, dx, dy);
    }
    Placement { x: p.x.plus(dx), y: p.y.plus(dy), width: p.width, height: p.height }
}

/// A placement after the corner of the strip has been dragged.
pub fn resized(p: Placement, dx: Single, dy: Single) -> (r: Placement)
    ensures
        r == edited(p, Edit::Resize { dx, dy }),
        is_grown(p.width, dx, r.width, num(MIN_WIDTH), num(MAX_WIDTH)),
        is_grown(p.height, dy, r.height, num(MIN_HEIGHT), num(MAX_HEIGHT)),
        r.x == p.x,
        r.y == p.y,
{
    proof {
        law_resized_grows(p, dx, dy);
    }
    Placement {
        x: p.x,
        y: p.y,
        width: p.width.plus(dx).clamp(num(MIN_WIDTH), num(MAX_WIDTH)),
        height: p.height.plus(dy).clamp(num(MIN_HEIGHT), num(MAX_HEIGHT)),
    }
}

impl Settings {
    /// Changes the settings as the user does: where the strip is and how large, or all of
    /// them.
    pub fn edit(&mut self, e: Edit)
        ensures
            final(self).placement() == edited(old(self).placement(), e),
            e == Edit::Reset ==> is_default(*final(self)),
            e != Edit::Reset ==> {
                &&& final(self).opacity == old(self).opacity
                &&& final(self).ball_size == old(self).ball_size
                &&& final(self).sensitivity == old(self).sensitivity
                &&& final(self).show_band == old(self).show_band
                &&& final(self).hotkey == old(self).hotkey
            },
    {
        match e {
            Edit::Move { dx, dy } => {
                self.set_placement(dragged(self.get_placement(), dx, dy));
            },
            Edit::Resize { dx, dy } => {
                self.set_placement(resized(self.get_placement(), dx, dy));
            },
            Edit::Width(w) => {
                self.width = w.clamp(num(MIN_WIDTH), num(MAX_SLIDER_WIDTH));
            },
            Edit::Height(h) => {
                self.height = h.clamp(num(MIN_HEIGHT), num(MAX_HEIGHT));
            },
            Edit::Reset => {
                *self = Settings::default();
            },
        }
    }
}

/// Sizes within their bounds.
pub open spec fn sized(p: Placement) -> bool {
    &&& at_most(num(MIN_WIDTH), p.width)
    &&& at_most(p.width, num(MAX_WIDTH))
    &&& at_most(num(MIN_HEIGHT), p.height)
    &&& at_most(p.height, num(MAX_HEIGHT))
}

/// Sizes that are less than 0.001 outside their bounds.
pub open spec fn nearly_sized(p: Placement) -> bool {
    let slack = num(CLOSE).value();
    &&& p.width.is_finite()
    &&& p.height.is_finite()
    &&& num(MIN_WIDTH).value() - slack < p.width.value() < num(MAX_WIDTH).value() + slack
    &&& num(MIN_HEIGHT).value() - slack < p.height.value() < num(MAX_HEIGHT).value() + slack
}

/// What the user changes is a number.
pub open spec fn is_number(e: Edit) -> bool {
    match e {
        Edit::Move { .. } => true,
        Edit::Resize { dx, dy } => !dx.is_nan() && !dy.is_nan(),
        Edit::Width(w) => !w.is_nan(),
        Edit::Height(h) => !h.is_nan(),
        Edit::Reset => true,
    }
}

/// No change brings the sizes out of their bounds.
pub proof fn law_edits_keep_sizes(p: Placement, edits: Seq<Edit>)
    requires
        sized(p),
        forall|i: int| 0 <= i < edits.len() ==> is_number(#[trigger] edits[i]),
    ensures
        sized(edited_by(p, edits)),
    decreases edits.len(),
{
    if edits.len() > 0 {
        let rest = edits.drop_last();
        assert forall|i: int| 0 <= i < rest.len() implies is_number(#[trigger] rest[i]) by {
            assert(is_number(edits[i]));
        }
        law_edits_keep_sizes(p, rest);
        let q = edited_by(p, rest);
        assert(is_number(edits[edits.len() - 1]));
        match edits.last() {
            Edit::Resize { dx, dy } => {
                assert(!sum(q.width, dx).is_nan() && !sum(q.height, dy).is_nan()) by {
                    reveal(sum);
                }
            },
            _ => {},
        }
    }
}

/// Two numbers that count as equal are less than 0.001 apart, and both finite.
pub proof fn lemma_close(a: Single, b: Single)
    requires
        close(a, b),
    ensures
        a.is_finite(),
        b.is_finite(),
        apart(a.value(), b.value()) < num(CLOSE).value(),
{
    assert(a.is_finite() && b.is_finite()) by {
        reveal(sum);
    }
    lemma_zero_units();
    let c = num(CLOSE);
    law_zero_adds_nothing(c, num(0));
    law_zero_adds_nothing(negated(c), num(0));
    if a.value() - b.value() >= c.value() {
        law_sum_monotone(c, num(0), a, negated(b));
    } else if a.value() - b.value() <= -c.value() {
        law_sum_monotone(a, negated(b), negated(c), num(0));
    }
}

/// Settings that take the place of others only where they count as different have sizes
/// that are less than 0.001 out of bounds.
pub proof fn law_kept_sizes(before: Settings, s: Settings)
    requires
        sized(s.placement()),
    ensures
        nearly_sized(s.placement()),
        close_settings(before, s) ==> nearly_sized(before.placement()),
{
    lemma_zero_units();
    law_order_is_that_of_values(num(0), num(CLOSE));
    law_order_is_that_of_values(num(MIN_WIDTH), s.width);
    law_order_is_that_of_values(s.width, num(MAX_WIDTH));
    law_order_is_that_of_values(num(MIN_HEIGHT), s.height);
    law_order_is_that_of_values(s.height, num(MAX_HEIGHT));
    if close_settings(before, s) {
        lemma_close(before.width, s.width);
        lemma_close(before.height, s.height);
    }
}

/// A placed strip keeps to the bounds: its sizes, where they are numbers, to theirs,
/// its position to the room that the screen leaves.
pub proof fn law_placed_within_bounds(p: Placement, screen_w: Single, screen_h: Single)
    ensures
        ({
            let q = placed(p, screen_w, screen_h);
            &&& q.width.is_nan() || (at_most(num(MIN_WIDTH), q.width) && at_most(
                q.width,
                num(MAX_WIDTH),
            ))
            &&& q.height.is_nan() || (at_most(num(MIN_HEIGHT), q.height) && at_most(
                q.height,
                num(MAX_HEIGHT),
            ))
            &&& q.x.is_nan() || (at_most(num(0), q.x) && at_most(
                q.x,
                at_least_zero(difference(screen_w, q.width)),
            ))
            &&& q.y.is_nan() || (at_most(num(0), q.y) && at_most(
                q.y,
                at_least_zero(difference(difference(screen_h, q.height), num(TWENTY_FOUR))),
            ))
        }),
{
}

/// Placing a placed strip changes nothing: once on the screen, the strip stays, and
/// nothing has to be saved again.
pub proof fn law_placed_stays(p: Placement, screen_w: Single, screen_h: Single)
    ensures
        placed(placed(p, screen_w, screen_h), screen_w, screen_h) == placed(p, screen_w, screen_h),
{
}

/// Settings whose numbers are finite equal themselves: without a change there is
/// nothing to save.
pub proof fn law_settings_equal_themselves(a: Settings, b: Settings)
    requires
        same_settings(a, b),
        a.pos_x.is_finite(),
        a.pos_y.is_finite(),
        a.width.is_finite(),
        a.height.is_finite(),
        a.opacity.is_finite(),
        a.ball_size.is_finite(),
        a.sensitivity.is_finite(),
    ensures
        close_settings(a, b),
{
    law_self_difference(a.pos_x);
    law_self_difference(a.pos_y);
    law_self_difference(a.width);
    law_self_difference(a.height);
    law_self_difference(a.opacity);
    law_self_difference(a.ball_size);
    law_self_difference(a.sensitivity);
}

/// It does not matter which of two settings is compared with the other.
pub proof fn law_settings_equal_symmetric(a: Settings, b: Settings)
    ensures
        close_settings(a, b) == close_settings(b, a),
{
    law_difference_symmetric(a.pos_x, b.pos_x);
    law_difference_symmetric(a.pos_y, b.pos_y);
    law_difference_symmetric(a.width, b.width);
    law_difference_symmetric(a.height, b.height);
    law_difference_symmetric(a.opacity, b.opacity);
    law_difference_symmetric(a.ball_size, b.ball_size);
    law_difference_symmetric(a.sensitivity, b.sensitivity);
}

/// A frame in which the user does nothing leaves nothing to save: once the strip has
/// been placed on a screen, the settings of the next frame on that screen equal those
/// of the last.
pub proof fn law_quiet_frame_saves_nothing(
    a: Settings,
    b: Settings,
    p: Placement,
    screen_w: Single,
    screen_h: Single,
)
    requires
        a.placement() == placed(p, screen_w, screen_h),
        same_settings(
            b,
            (Settings {
                pos_x: placed(a.placement(), screen_w, screen_h).x,
                pos_y: placed(a.placement(), screen_w, screen_h).y,
                width: placed(a.placement(), screen_w, screen_h).width,
                height: placed(a.placement(), screen_w, screen_h).height,
                ..a
            }),
        ),
        a.pos_x.is_finite(),
        a.pos_y.is_finite(),
        a.width.is_finite(),
        a.height.is_finite(),
        a.opacity.is_finite(),
        a.ball_size.is_finite(),
        a.sensitivity.is_finite(),
    ensures
        close_settings(a, b),
{
    law_placed_stays(p, screen_w, screen_h);
    assert(same_settings(a, b));
    law_settings_equal_themselves(a, b);
}

} // verus!
