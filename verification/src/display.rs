//! The display that the overlay covers.
use crate::number::constants::ONE;
use crate::number::single::{less, num, of_whole, quotient, Single};
use vstd::prelude::*;

verus! {

/// 1920, the width of the window where no display is known.
pub const FALLBACK_WIDTH: u32 = 0x44f0_0000;

/// 1080, the height of the window where no display is known.
pub const FALLBACK_HEIGHT: u32 = 0x4487_0000;

/// A display: its size in pixels, and how many pixels make one point.
#[derive(Clone, Copy, Debug)]
pub struct Display {
    pub width: u32,
    pub height: u32,
    pub scale_factor: Single,
    pub is_primary: bool,
}

/// The first primary display is at `i`.
pub open spec fn first_primary(displays: Seq<Display>, i: int) -> bool {
    &&& 0 <= i < displays.len()
    &&& displays[i].is_primary
    &&& forall|j: int| 0 <= j < i ==> !(#[trigger] displays[j]).is_primary
}

/// Width and height of a display in points. A scale factor that is not positive counts
/// as 1.
pub open spec fn points_of(d: Display) -> (Single, Single) {
    let scale = if less(num(0), d.scale_factor) {
        d.scale_factor
    } else {
        num(ONE)
    };
    (quotient(of_whole(d.width as nat), scale), quotient(of_whole(d.height as nat), scale))
}

fn size_in_points(d: &Display) -> (size: (Single, Single))
    ensures
        size == points_of(*d),
{
    let scale: Single = if num(0).lt(d.scale_factor) {
        d.scale_factor
    } else {
        num(ONE)
    };
    (Single::from_u32(d.width).over(scale), Single::from_u32(d.height).over(scale))
}

/// Width and height of the window: those of the first primary display, where none is
/// primary those of the first display.
pub fn window_size(displays: &Vec<Display>) -> (size: (Single, Single))
    ensures
        forall|i: int| #[trigger]
            first_primary(displays@, i) ==> size == points_of(displays@[i]),
        (forall|i: int| 0 <= i < displays@.len() ==> !(#[trigger] displays@[i]).is_primary) ==> (
        if displays@.len() > 0 {
            size == points_of(displays@[0])
        } else {
            size == (num(FALLBACK_WIDTH), num(FALLBACK_HEIGHT))
        }),
{
    let mut i: usize = 0;
    while i < displays.len()
        invariant
            i <= displays.len(),
            forall|j: int| 0 <= j < i ==> !(#[trigger] displays@[j]).is_primary,
        decreases displays.len() - i,
    {
        if displays[i].is_primary {
            let size: (Single, Single) = size_in_points(&displays[i]);
            assert forall|k: int| #[trigger] first_primary(displays@, k) implies k == i by {
                if i < k {
                    assert(!displays@[i as int].is_primary);
                }
            }
            return size;
        }
        i = i + 1;
    }
    if displays.len() > 0 {
        size_in_points(&displays[0])
    } else {
        (num(FALLBACK_WIDTH), num(FALLBACK_HEIGHT))
    }
}

} // verus!
