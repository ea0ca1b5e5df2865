use exoquant::ditherer::{FloydSteinberg, NoDither, Ordered};
use exoquant::kmeans::{optimize_palette, optimize_palette_weighted};
use exoquant::optimizer::{optimize_with, KMeans, NoOptimizer, Optimizer, WeightedKMeans};
use exoquant::testdata::test_image;
use exoquant::{
    convert_to_indexed, generate_palette, sort_palette, Color, ColorMap, ColorSpace, Histogram,
    Quantizer, Remapper, Vec4,
};

/// The default color space in floating point: a gamma of 1.145 going into
/// quantization space, 2.2 for dithering, and the channel weights 1, 1.2, 0.8
/// and 0.75.
struct SimpleColorSpace {
    gamma: f64,
    dither_gamma: f64,
    transparency_scale: f64,
    scale: [f64; 4],
}

fn default_colorspace() -> SimpleColorSpace {
    SimpleColorSpace {
        gamma: 1.145,
        dither_gamma: 2.2,
        transparency_scale: 0.01,
        scale: [1.0, 1.2, 0.8, 0.75],
    }
}

fn to_fixed(v: f64) -> i32 {
    (v * 65536.0).round().max(-1048576.0).min(1048576.0) as i32
}

fn from_fixed(v: i32) -> f64 {
    v as f64 / 65536.0
}

fn floats(v: Vec4) -> [f64; 4] {
    [from_fixed(v.x), from_fixed(v.y), from_fixed(v.z), from_fixed(v.w)]
}

fn fixed(c: [f64; 4]) -> Vec4 {
    Vec4::new(to_fixed(c[0]), to_fixed(c[1]), to_fixed(c[2]), to_fixed(c[3]))
}

fn power(c: [f64; 4], p: f64) -> [f64; 4] {
    [c[0].max(0.0).powf(p), c[1].max(0.0).powf(p), c[2].max(0.0).powf(p), c[3].max(0.0).powf(p)]
}

impl SimpleColorSpace {
    fn to_scaled(&self, c: [f64; 4]) -> [f64; 4] {
        let a = c[3] * self.scale[3];
        let f = a * (1.0 - self.transparency_scale) + self.transparency_scale;
        [c[0] * self.scale[0] * f, c[1] * self.scale[1] * f, c[2] * self.scale[2] * f, a]
    }

    fn from_scaled(&self, c: [f64; 4]) -> [f64; 4] {
        let f = 1.0 / (c[3] * (1.0 - self.transparency_scale) + self.transparency_scale);
        [
            c[0] * f / self.scale[0],
            c[1] * f / self.scale[1],
            c[2] * f / self.scale[2],
            c[3] / self.scale[3],
        ]
    }
}

fn to_8bit(v: f64) -> u8 {
    (v.max(0.0).min(1.0) * 255.0).round() as u8
}

impl ColorSpace for SimpleColorSpace {
    // The model of each transform is the transform itself.
    fn quantized(&self, c: Color) -> Vec4 {
        self.to_float(c)
    }

    fn output(&self, v: Vec4) -> Color {
        self.from_float(v)
    }

    fn dithered(&self, v: Vec4) -> Vec4 {
        self.to_dither(v)
    }

    fn undithered(&self, v: Vec4) -> Vec4 {
        self.from_dither(v)
    }

    fn to_float(&self, c: Color) -> Vec4 {
        let unit = [c.r as f64 / 255.0, c.g as f64 / 255.0, c.b as f64 / 255.0, c.a as f64 / 255.0];
        fixed(self.to_scaled(power(unit, self.gamma)))
    }

    fn from_float(&self, v: Vec4) -> Color {
        let c = power(self.from_scaled(floats(v)), 1.0 / self.gamma);
        Color::new(to_8bit(c[0]), to_8bit(c[1]), to_8bit(c[2]), to_8bit(c[3]))
    }

    fn to_dither(&self, v: Vec4) -> Vec4 {
        fixed(power(floats(v), self.dither_gamma / self.gamma))
    }

    fn from_dither(&self, v: Vec4) -> Vec4 {
        fixed(power(floats(v), self.gamma / self.dither_gamma))
    }
}

fn close(a: Color, b: Color, by: i32) -> bool {
    (a.r as i32 - b.r as i32).abs() <= by
        && (a.g as i32 - b.g as i32).abs() <= by
        && (a.b as i32 - b.b as i32).abs() <= by
        && (a.a as i32 - b.a as i32).abs() <= by
}

#[test]
fn color_space_round_trip() {
    let cs = default_colorspace();
    for c in [
        Color::new(0, 0, 0, 255),
        Color::new(255, 255, 255, 255),
        Color::new(10, 20, 30, 40),
        Color::new(128, 128, 128, 255),
        Color::new(255, 0, 0, 255),
        Color::new(1, 2, 3, 128),
    ] {
        assert_eq!(cs.from_float(cs.to_float(c)), c);
    }
    assert_eq!(cs.to_float(Color::new(255, 255, 255, 255)), Vec4::new(49316, 59179, 39453, 49152));
}

#[test]
fn single_color_image() {
    let cs = default_colorspace();
    let color = Color::new(10, 20, 30, 40);
    let image = vec![color; 16 * 16];
    let (palette, indexed) =
        convert_to_indexed(&image, 16, 4, &cs, &KMeans, &FloydSteinberg::new());
    assert_eq!(palette.len(), 4);
    assert!(close(palette[0], color, 1), "{:?}", palette[0]);
    assert_eq!(indexed, vec![0u8; 256]);
}

#[test]
fn constant_image_round_trip_for_any_palette_size() {
    let cs = default_colorspace();
    let color = Color::new(200, 100, 50, 255);
    let image = vec![color; 64];
    for n in [1, 2, 3, 5, 16, 17, 64] {
        let (palette, indexed) = convert_to_indexed(&image, 8, n, &cs, &KMeans, &NoDither);
        assert_eq!(palette.len(), n);
        assert_eq!(palette[0], color);
        assert_eq!(indexed, vec![0u8; 64]);
    }
}

#[test]
fn two_color_image() {
    let cs = default_colorspace();
    let red = Color::new(255, 0, 0, 255);
    let blue = Color::new(0, 0, 255, 255);
    let image: Vec<Color> = (0..32).map(|i| if i % 2 == 0 { red } else { blue }).collect();
    let (palette, indexed) = convert_to_indexed(&image, 32, 2, &cs, &KMeans, &NoDither);
    assert_eq!(palette.len(), 2);
    assert!(palette.contains(&red));
    assert!(palette.contains(&blue));
    for k in 0..32 {
        assert_eq!(palette[indexed[k] as usize], image[k]);
    }
}

#[test]
fn gradient() {
    let cs = default_colorspace();
    let image: Vec<Color> = (0..=255u8).map(|i| Color::new(i, i, i, 255)).collect();
    let (palette, indexed) = convert_to_indexed(&image, 256, 4, &cs, &KMeans, &Ordered);
    assert_eq!(palette.len(), 4);
    let mut grays: Vec<i32> = palette.iter().map(|c| c.g as i32).collect();
    for c in &palette {
        assert!(c.r == c.g && c.g == c.b && c.a == 255, "{:?}", c);
    }
    grays.sort();
    for (gray, expected) in grays.iter().zip([32, 96, 160, 224]) {
        assert!((gray - expected).abs() <= 16, "{:?}", grays);
    }
    // The indices climb through the palette, wavering only between neighboring entries.
    let rank = |i: u8| grays.iter().position(|&g| g == palette[i as usize].g as i32).unwrap();
    assert_eq!(rank(indexed[0]), 0);
    assert_eq!(rank(indexed[255]), 3);
    let mut highest = 0;
    for &i in &indexed {
        assert!(rank(i) + 1 >= highest);
        highest = highest.max(rank(i));
    }
}

#[test]
fn vanilla_dither_of_four_gray_pixels() {
    let cs = default_colorspace();
    let palette = vec![Color::new(0, 0, 0, 255), Color::new(255, 255, 255, 255)];
    let image = vec![Color::new(128, 128, 128, 255); 4];
    let fs = FloydSteinberg::vanilla();
    let remapper = Remapper::new(&palette, &cs, &fs);
    let indexed = remapper.remap(&image, 4);
    assert_eq!(indexed, vec![0, 1, 0, 0]);
    // One white pixel in four: mixed in dither space and brought back, that is a gray of
    // 136. In a single row only the share of the error that goes right is ever spent.
    let white = floats(cs.to_dither(cs.to_float(palette[1])));
    let mixed = [white[0] / 4.0, white[1] / 4.0, white[2] / 4.0, white[3]];
    let back = cs.from_float(cs.from_dither(fixed(mixed)));
    assert_eq!(back, Color::new(136, 136, 136, 255));
}

#[test]
fn vanilla_dither_keeps_the_mean_over_many_rows() {
    let cs = default_colorspace();
    let palette = vec![Color::new(0, 0, 0, 255), Color::new(255, 255, 255, 255)];
    let image = vec![Color::new(128, 128, 128, 255); 64 * 64];
    let fs = FloydSteinberg::vanilla();
    let indexed = Remapper::new(&palette, &cs, &fs).remap(&image, 64);
    let share = indexed.iter().filter(|&&i| i == 1).count() as f64 / indexed.len() as f64;
    let white = floats(cs.to_dither(cs.to_float(palette[1])));
    let mixed = [white[0] * share, white[1] * share, white[2] * share, white[3]];
    let back = cs.from_float(cs.from_dither(fixed(mixed)));
    assert!(close(back, image[0], 2), "{:?}", back);
}

#[test]
fn remap_usize_and_remap_agree() {
    let cs = default_colorspace();
    let image = test_image();
    let palette: Vec<Color> =
        (0..16u8).map(|i| Color::new(i * 16, 255 - i * 16, 0, 255)).collect();
    let remapper = Remapper::new(&palette, &cs, &Ordered);
    let narrow = remapper.remap(&image.pixels, image.width);
    let wide = remapper.remap_usize(&image.pixels, image.width);
    assert_eq!(narrow.len(), 65536);
    assert_eq!(wide, narrow.iter().map(|&i| i as usize).collect::<Vec<usize>>());
}

#[test]
fn test_image_holds_every_red_and_green() {
    let image = test_image();
    assert_eq!((image.width, image.height), (256, 256));
    assert_eq!(image.pixels.len(), 65536);
    assert_eq!(image.pixels[0], Color::new(0, 0, 0, 255));
    assert_eq!(image.pixels[255], Color::new(255, 0, 0, 255));
    assert_eq!(image.pixels[256], Color::new(0, 1, 0, 255));
    assert_eq!(image.pixels[65535], Color::new(255, 255, 0, 255));
    assert_eq!(Histogram::from_pixels(&image.pixels).iter().len(), 65536);
}

#[test]
fn palette_of_the_test_image() {
    let cs = default_colorspace();
    let image = test_image();
    let hist = Histogram::from_pixels(&image.pixels);
    let palette = generate_palette(&hist, &cs, &NoOptimizer, 64);
    assert_eq!(palette.len(), 64);
    for c in &palette {
        assert_eq!((c.b, c.a), (0, 255));
    }
    let indexed = Remapper::new(&palette, &cs, &NoDither).remap(&image.pixels, image.width);
    let map = ColorMap::new(&palette, &cs);
    for k in (0..65536).step_by(997) {
        assert_eq!(indexed[k] as usize, map.find_nearest(cs.to_float(image.pixels[k])));
    }
    let (sorted, resorted) = sort_palette(&palette, &indexed);
    for k in (0..65536).step_by(613) {
        assert_eq!(sorted[resorted[k] as usize], palette[indexed[k] as usize]);
    }
}

#[test]
fn quantizer_on_a_histogram() {
    let cs = default_colorspace();
    let pixels: Vec<Color> = (0..64u32).map(|i| Color::new((i * 4) as u8, 0, 0, 255)).collect();
    let hist = Histogram::from_pixels(&pixels);
    let counts = hist.to_color_counts(&cs);
    assert_eq!(counts.len(), 64);
    for (entry, pixel) in counts.iter().zip(&pixels) {
        assert_eq!(entry.color, cs.to_float(*pixel));
        assert_eq!(entry.count, 1);
    }
    let mut q = Quantizer::new(&hist, &cs);
    assert_eq!(q.num_colors(), 1);
    for k in 1..8 {
        q.step();
        assert_eq!(q.num_colors(), 1 + k);
    }
    let palette = q.colors(&cs);
    assert_eq!(palette.len(), 8);
    let means = q.means();
    for (color, mean) in palette.iter().zip(&means) {
        assert_eq!(*color, cs.from_float(*mean));
    }
    assert_eq!(Quantizer::create_palette(&hist, &cs, 8), palette);
    assert_eq!(Quantizer::create_palette(&hist, &cs, 0).len(), 1);
}

#[test]
fn optimizing_with_a_noop_changes_nothing() {
    let cs = default_colorspace();
    let pixels: Vec<Color> = (0..64u32).map(|i| Color::new((i * 4) as u8, 0, 0, 255)).collect();
    let hist = Histogram::from_pixels(&pixels);
    let mut q = Quantizer::new(&hist, &cs);
    q.step();
    q.step();
    let before = q.means();
    let q = q.optimize(&NoOptimizer, 4);
    assert_eq!(q.means(), before);
    let palette = q.colors(&cs);
    assert_eq!(NoOptimizer.optimize_palette(&cs, &palette, &hist, 16), palette);
}

#[test]
fn optimizing_keeps_the_number_of_colors() {
    let cs = default_colorspace();
    let image = test_image();
    let hist = Histogram::from_pixels(&image.pixels[..4096].to_vec());
    let mut q = Quantizer::new(&hist, &cs);
    for _ in 0..7 {
        q.step();
    }
    let q = q.optimize(&KMeans, 2);
    assert_eq!(q.num_colors(), 8);
    let q = q.optimize(&WeightedKMeans, 2);
    assert_eq!(q.num_colors(), 8);
    let palette = q.colors(&cs);
    assert_eq!(KMeans.optimize_palette(&cs, &palette, &hist, 4).len(), 8);
    assert_eq!(WeightedKMeans.optimize_palette(&cs, &palette, &hist, 4).len(), 8);
}

#[test]
fn kmeans_improves_the_palette_of_two_clusters() {
    let cs = default_colorspace();
    let mut pixels = Vec::new();
    for i in 0..10u8 {
        pixels.push(Color::new(10 + i, 0, 0, 255));
        pixels.push(Color::new(200 + i, 0, 0, 255));
    }
    let hist = Histogram::from_pixels(&pixels);
    let start = vec![Color::new(0, 0, 0, 255), Color::new(255, 0, 0, 255)];
    let palette = KMeans.optimize_palette(&cs, &start, &hist, 16);
    assert!(close(palette[0], Color::new(15, 0, 0, 255), 1), "{:?}", palette);
    assert!(close(palette[1], Color::new(205, 0, 0, 255), 1), "{:?}", palette);
}

#[test]
fn palette_optimizers_are_the_steps_repeated() {
    let cs = default_colorspace();
    let mut pixels = Vec::new();
    for i in 0..40u8 {
        pixels.push(Color::new(i * 6, 255 - i * 6, i, 255));
    }
    let hist = Histogram::from_pixels(&pixels);
    let start = Quantizer::create_palette(&hist, &cs, 5);
    assert_eq!(
        optimize_palette(&cs, &start, &hist, 3),
        KMeans.optimize_palette(&cs, &start, &hist, 3)
    );
    assert_eq!(
        optimize_palette_weighted(&cs, &start, &hist, 3),
        WeightedKMeans.optimize_palette(&cs, &start, &hist, 3)
    );
    assert_eq!(optimize_palette(&cs, &start, &hist, 0), start);
    assert_eq!(
        optimize_with(&KMeans, &cs, &start, &hist, 2),
        KMeans.optimize_palette(&cs, &start, &hist, 2)
    );
    assert_eq!(optimize_with(&NoOptimizer, &cs, &start, &hist, 2), start);
}

#[test]
fn generating_with_a_noop_is_plain_stepping() {
    let cs = default_colorspace();
    let image = test_image();
    let hist = Histogram::from_pixels(&image.pixels[..2000].to_vec());
    for n in [0, 1, 2, 7, 16, 20, 65] {
        assert_eq!(
            generate_palette(&hist, &cs, &NoOptimizer, n),
            Quantizer::create_palette(&hist, &cs, n)
        );
    }
}
