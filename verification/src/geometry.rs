//! Integer rectangles and the small pieces of pixel arithmetic the video
//! logic performs on them.
use vstd::prelude::*;

verus! {

/// An axis-aligned rectangle in pixel coordinates: top-left corner, width and height.
#[derive(Clone, Copy, Debug, PartialEq, Eq, Structural)]
pub struct Rect {
    pub x: i32,
    pub y: i32,
    pub width: i32,
    pub height: i32,
}

/// The size of an image in pixels.
#[derive(Clone, Copy, Debug, PartialEq, Eq, Structural)]
pub struct Size {
    pub width: i32,
    pub height: i32,
}

impl Rect {
    pub fn new(x: i32, y: i32, width: i32, height: i32) -> (r: Rect)
        ensures
            r == (Rect { x, y, width, height }),
    {
        Rect { x, y, width, height }
    }
}

/// Integer division that rounds toward zero, as Rust's `/` does on signed integers.
pub open spec fn div_toward_zero(a: int, d: int) -> int
    recommends
        d > 0,
{
    if a >= 0 {
        a / d
    } else {
        -((-a) / d)
    }
}

pub open spec fn max_int(a: int, b: int) -> int {
    if a >= b {
        a
    } else {
        b
    }
}

pub open spec fn min_int(a: int, b: int) -> int {
    if a <= b {
        a
    } else {
        b
    }
}

/// The arithmetic of `expand_rect` can be carried out in `i32` without overflow.
pub open spec fn expand_rect_in_range(rect: Rect, padding: i32, image_size: Size) -> bool {
    let new_x = max_int(rect.x - padding, 0);
    let new_y = max_int(rect.y - padding, 0);
    &&& i32::MIN <= rect.x - padding <= i32::MAX
    &&& i32::MIN <= rect.y - padding <= i32::MAX
    &&& i32::MIN <= 2 * padding <= i32::MAX
    &&& i32::MIN <= rect.width + 2 * padding <= i32::MAX
    &&& i32::MIN <= rect.height + 2 * padding <= i32::MAX
    &&& i32::MIN <= image_size.width - new_x <= i32::MAX
    &&& i32::MIN <= image_size.height - new_y <= i32::MAX
}

/// The rectangle grown by `padding` on every side, clipped so that it starts at
/// or after the origin and ends at or before the image's right and bottom edges.
pub open spec fn spec_expand_rect(rect: Rect, padding: i32, image_size: Size) -> Rect {
    let new_x = max_int(rect.x - padding, 0);
    let new_y = max_int(rect.y - padding, 0);
    Rect {
        x: new_x as i32,
        y: new_y as i32,
        width: min_int(rect.width + 2 * padding, image_size.width - new_x) as i32,
        height: min_int(rect.height + 2 * padding, image_size.height - new_y) as i32,
    }
}

/// Grows `rect` by `padding` pixels on each side without leaving the image.
pub fn expand_rect(rect: &Rect, padding: i32, image_size: Size) -> (r: Rect)
    requires
        expand_rect_in_range(*rect, padding, image_size),
    ensures
        r == spec_expand_rect(*rect, padding, image_size),
{
    let shifted_x = rect.x - padding;
    let new_x = if shifted_x >= 0 {
        shifted_x
    } else {
        0
    };
    let shifted_y = rect.y - padding;
    let new_y = if shifted_y >= 0 {
        shifted_y
    } else {
        0
    };
    let grown_width = rect.width + 2 * padding;
    let room_x = image_size.width - new_x;
    let new_width = if grown_width <= room_x {
        grown_width
    } else {
        room_x
    };
    let grown_height = rect.height + 2 * padding;
    let room_y = image_size.height - new_y;
    let new_height = if grown_height <= room_y {
        grown_height
    } else {
        room_y
    };
    Rect::new(new_x, new_y, new_width, new_height)
}

/// An expanded rectangle starts inside the image and never reaches past its
/// right or bottom edge; when the padding is not negative and the original
/// rectangle lies inside the image, the expanded one covers it.
pub proof fn lemma_expand_rect_stays_in_image(rect: Rect, padding: i32, image_size: Size)
    requires
        expand_rect_in_range(rect, padding, image_size),
    ensures
        ({
            let r = spec_expand_rect(rect, padding, image_size);
            &&& r.x >= 0
            &&& r.y >= 0
            &&& r.x + r.width <= image_size.width
            &&& r.y + r.height <= image_size.height
            &&& (padding >= 0 && rect.x >= 0 && rect.y >= 0 && rect.x + rect.width
                <= image_size.width && rect.y + rect.height <= image_size.height) ==> {
                &&& r.x <= rect.x
                &&& r.y <= rect.y
                &&& rect.x + rect.width <= r.x + r.width
                &&& rect.y + rect.height <= r.y + r.height
            }
        }),
{
}

/// The horizontal band in the middle third of a frame, in which the streaming
/// path looks for placeholders: it starts a third of the way down, spans the
/// full width and is a third of the frame high.
pub open spec fn spec_middle_band(frame_width: i32, frame_height: i32) -> Rect {
    Rect {
        x: 0,
        y: div_toward_zero(frame_height as int, 3) as i32,
        width: frame_width,
        height: div_toward_zero(frame_height as int, 3) as i32,
    }
}

/// The region of interest of `process_frame_for_stream`.
pub fn middle_band(frame_width: i32, frame_height: i32) -> (r: Rect)
    ensures
        r == spec_middle_band(frame_width, frame_height),
{
    let third = frame_height / 3;
    assert(third == div_toward_zero(frame_height as int, 3)) by {
        if frame_height >= 0 {
        } else {
        }
    }
    Rect::new(0, third, frame_width, third)
}

} // verus!
