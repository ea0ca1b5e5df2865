use exoquant::ditherer::{Ditherer, FloydSteinberg, NoDither, Ordered};
use exoquant::{Color, ColorMap, ColorSpace, Vec4};

/// A color space in which every transform is the identity on the first byte.
struct Plain;

impl ColorSpace for Plain {
    // The model of each transform is the transform itself.
    fn quantized(&self, c: Color) -> Vec4 {
        self.to_float(c)
    }

    fn output(&self, v: Vec4) -> Color {
        self.from_float(v)
    }

    fn dithered(&self, v: Vec4) -> Vec4 {
        self.to_dither(v)
    }

    fn undithered(&self, v: Vec4) -> Vec4 {
        self.from_dither(v)
    }

    fn to_float(&self, c: Color) -> Vec4 {
        Vec4::new(c.r as i32, c.g as i32, c.b as i32, c.a as i32)
    }

    fn from_float(&self, v: Vec4) -> Color {
        let byte = |x: i32| x.max(0).min(255) as u8;
        Color::new(byte(v.x), byte(v.y), byte(v.z), byte(v.w))
    }

    fn to_dither(&self, v: Vec4) -> Vec4 {
        v
    }

    fn from_dither(&self, v: Vec4) -> Vec4 {
        v
    }
}

fn at(x: i32) -> Vec4 {
    Vec4::new(x, 0, 0, 0)
}

fn two_colors() -> ColorMap {
    ColorMap::from_float_colors(vec![at(0), at(100)])
}

#[test]
fn without_dithering_each_pixel_gets_its_nearest_color() {
    let map = two_colors();
    let image = vec![at(49), at(51), at(-7), at(1000), at(49)];
    assert_eq!(NoDither.remap(&image, 5, &map, &Plain), vec![0, 1, 0, 1, 0]);
    assert_eq!(NoDither.remap(&vec![], 5, &map, &Plain), Vec::<usize>::new());
}

#[test]
fn ordered_dither_moves_pixels_by_the_matrix() {
    let map = two_colors();
    let image = vec![at(49); 4];
    // The neighbor distance is 100: the offsets are -900 / 32, 300 / 32, 900 / 32 and
    // -300 / 32, rounded down, in every channel.
    assert_eq!(Ordered.remap(&image, 2, &map, &Plain), vec![0, 1, 1, 0]);
    // In one row only the first two cells of the matrix are used.
    assert_eq!(Ordered.remap(&image, 4, &map, &Plain), vec![0, 1, 0, 1]);
}

#[test]
fn ordered_dither_can_reach_a_color_further_than_the_offset() {
    let map = two_colors();
    // The pixel is 51 away from color 1, the offset is 28; yet the pixel moved by 28 in
    // every channel is nearer to color 1.
    let image = vec![at(49), at(49), at(49)];
    let out = Ordered.remap(&image, 2, &map, &Plain);
    assert_eq!(out[2], 1);
    assert_eq!(map.find_nearest(at(49)), 0);
    assert_eq!(map.find_nearest(Vec4::new(49 + 28, 28, 28, 28)), 1);
}

#[test]
fn ordered_dither_emits_the_nearest_color_of_the_moved_pixel() {
    let palette: Vec<Vec4> =
        vec![at(0), at(1000), Vec4::new(500, 700, 0, 0), Vec4::new(200, 0, 900, 300)];
    let map = ColorMap::from_float_colors(palette);
    let matrix = [-9i64, 3, 9, -3];
    let mut image = Vec::new();
    let mut state: u32 = 99;
    for _ in 0..300 {
        state = state.wrapping_mul(1664525).wrapping_add(1013904223);
        let x = ((state >> 8) % 1200) as i32;
        state = state.wrapping_mul(1664525).wrapping_add(1013904223);
        let y = ((state >> 8) % 1200) as i32;
        image.push(Vec4::new(x, y, 0, 0));
    }
    let width = 7;
    let out = Ordered.remap(&image, width, &map, &Plain);
    for (k, c) in image.iter().enumerate() {
        let d = map.neighbor_distance(map.find_nearest(*c)) as i64;
        let cell = (k % width) % 2 + ((k / width) % 2) * 2;
        let offset = (d * matrix[cell]).div_euclid(32) as i32;
        assert!(32 * (offset as i64).abs() <= 9 * d + 31);
        let moved = Vec4::new(c.x + offset, c.y + offset, c.z + offset, c.w + offset);
        assert_eq!(out[k], map.find_nearest(moved));
    }
}

#[test]
fn ordered_dither_with_one_color() {
    let map = ColorMap::from_float_colors(vec![at(7)]);
    let image = vec![at(0), at(100), at(-100)];
    assert_eq!(Ordered.remap(&image, 3, &map, &Plain), vec![0, 0, 0]);
}

fn odd_pair() -> ColorMap {
    // No pixel value lies exactly between these two.
    ColorMap::from_float_colors(vec![at(0), at(9700)])
}

#[test]
fn the_three_floyd_steinberg_presets_differ() {
    let map = odd_pair();
    let image = vec![at(3000); 12];
    assert_eq!(
        FloydSteinberg::new().remap(&image, 3, &map, &Plain),
        vec![0, 0, 0, 0, 1, 0, 0, 0, 1, 0, 0, 0]
    );
    assert_eq!(
        FloydSteinberg::vanilla().remap(&image, 3, &map, &Plain),
        vec![0, 0, 1, 0, 0, 0, 0, 1, 0, 0, 0, 1]
    );
    assert_eq!(
        FloydSteinberg::checkered().remap(&image, 3, &map, &Plain),
        vec![0, 0, 0, 0, 1, 0, 0, 0, 1, 0, 1, 0]
    );
}

#[test]
fn floyd_steinberg_on_a_darker_image() {
    let map = odd_pair();
    let image = vec![at(2300); 20];
    assert_eq!(
        FloydSteinberg::new().remap(&image, 5, &map, &Plain),
        vec![0, 0, 0, 0, 0, 0, 1, 0, 1, 0, 0, 0, 0, 0, 0, 0, 0, 1, 0, 0]
    );
    assert_eq!(
        FloydSteinberg::vanilla().remap(&image, 5, &map, &Plain),
        vec![0, 0, 0, 0, 0, 0, 1, 0, 1, 0, 0, 0, 0, 0, 0, 0, 1, 0, 1, 0]
    );
    assert_eq!(
        FloydSteinberg::checkered().remap(&image, 5, &map, &Plain),
        vec![0, 0, 0, 0, 0, 0, 1, 0, 0, 1, 0, 0, 0, 0, 0, 0, 0, 1, 0, 0]
    );
}

#[test]
fn vanilla_floyd_steinberg_keeps_the_mean_of_a_wide_image() {
    // Of 4096 pixels of 4000 between colors 0 and 9700, about 40 in 97 get color 9700.
    // What is lost is the error that is still carried, and what the wrap-around at the
    // end of each row resets.
    let map = odd_pair();
    let image = vec![at(4000); 64 * 64];
    let out = FloydSteinberg::vanilla().remap(&image, 64, &map, &Plain);
    let ones: usize = out.iter().sum();
    assert_eq!(ones, 1677);
}

#[test]
fn floyd_steinberg_in_a_column_of_one() {
    let map = two_colors();
    let image = vec![at(40); 6];
    let out = FloydSteinberg::vanilla().remap(&image, 1, &map, &Plain);
    assert_eq!(out.len(), 6);
    assert!(out.iter().all(|&i| i < 2));
}

#[test]
fn exact_palette_colors_are_not_dithered() {
    let map = two_colors();
    let image = vec![at(0), at(100), at(100), at(0), at(0), at(100)];
    for fs in [FloydSteinberg::new(), FloydSteinberg::vanilla(), FloydSteinberg::checkered()] {
        assert_eq!(fs.remap(&image, 2, &map, &Plain), vec![0, 1, 1, 0, 0, 1]);
    }
}
