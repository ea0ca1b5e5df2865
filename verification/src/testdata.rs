//! An image to try the library on.

use vstd::prelude::*;
use crate::color::Color;

verus! {

/// An image: its pixels in row-major order, and its dimensions.
pub struct TestImage {
    pub pixels: Vec<Color>,
    pub width: usize,
    pub height: usize,
}

/// The pixel of the test image in column `x` of row `y`: red grows with the
/// column, green with the row.
pub open spec fn test_pixel(x: int, y: int) -> Color {
    Color { r: x as u8, g: y as u8, b: 0, a: 255 }
}

/// A 256 by 256 image that holds every combination of red and green once.
pub fn test_image() -> (image: TestImage)
    ensures
        image.width == 256,
        image.height == 256,
        image.pixels@.len() == 65536,
        forall|x: int, y: int|
            0 <= x < 256 && 0 <= y < 256 ==> image.pixels@[y * 256 + x] == #[trigger] test_pixel(
                x,
                y,
            ),
{
    let mut pixels: Vec<Color> = Vec::with_capacity(65536);
    let mut y: usize = 0;
    while y < 256
        invariant
            y <= 256,
            pixels@.len() == y * 256,
            forall|x: int, v: int|
                0 <= x < 256 && 0 <= v < y ==> pixels@[v * 256 + x] == #[trigger] test_pixel(x, v),
        decreases 256 - y,
    {
        let mut x: usize = 0;
        while x < 256
            invariant
                x <= 256,
                y < 256,
                pixels@.len() == y * 256 + x,
                forall|u: int, v: int|
                    0 <= u < 256 && 0 <= v < y ==> pixels@[v * 256 + u] == #[trigger] test_pixel(
                        u,
                        v,
                    ),
                forall|u: int| 0 <= u < x ==> pixels@[y * 256 + u] == #[trigger] test_pixel(
                    u,
                    y as int,
                ),
            decreases 256 - x,
        {
            pixels.push(Color::new(x as u8, y as u8, 0, 255));
            x += 1;
        }
        y += 1;
    }
    TestImage { pixels, width: 256, height: 256 }
}

} // verus!
