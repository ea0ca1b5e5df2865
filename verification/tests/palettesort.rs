use exoquant::{sort_palette, Color};

fn gray(v: u8) -> Color {
    Color::new(v, v, v, 255)
}

#[test]
fn most_frequent_first_then_most_adjacent() {
    let palette = vec![gray(0), gray(1), gray(2)];
    let image = vec![2, 2, 1, 2, 0];
    // Index 2 occurs most often. It is adjacent to 0 twice (the first pixel counts as
    // preceded by 0) and to 1 twice: the tie goes to the lower index.
    let (new_palette, new_image) = sort_palette(&palette, &image);
    assert_eq!(new_palette, vec![gray(2), gray(0), gray(1)]);
    assert_eq!(new_image, vec![0, 0, 2, 0, 1]);
}

#[test]
fn higher_adjacency_wins_over_lower_index() {
    let palette = vec![gray(0), gray(1), gray(2), gray(3)];
    let image = vec![0, 0, 0, 0, 3, 0, 3, 0, 1, 2];
    // 0 comes first; it is adjacent to 3 four times and to 1 once.
    let (new_palette, new_image) = sort_palette(&palette, &image);
    assert_eq!(new_palette, vec![gray(0), gray(3), gray(1), gray(2)]);
    assert_eq!(new_image, vec![0, 0, 0, 0, 1, 0, 1, 0, 2, 3]);
}

#[test]
fn sorted_image_shows_the_same_colors() {
    let palette: Vec<Color> = (0..7u8).map(|i| Color::new(i, 2 * i, 3 * i, 255)).collect();
    let mut image = Vec::new();
    let mut state: u32 = 12345;
    for _ in 0..500 {
        state = state.wrapping_mul(1664525).wrapping_add(1013904223);
        image.push(((state >> 16) % 7) as u8);
    }
    let (new_palette, new_image) = sort_palette(&palette, &image);
    assert_eq!(new_palette.len(), palette.len());
    assert_eq!(new_image.len(), image.len());
    for k in 0..image.len() {
        assert_eq!(new_palette[new_image[k] as usize], palette[image[k] as usize]);
    }
    let mut seen = new_palette.clone();
    seen.sort_by_key(|c| c.r);
    assert_eq!(seen, palette);
}

#[test]
fn constant_image_becomes_all_zero() {
    let palette = vec![gray(10), gray(20), gray(30)];
    let image = vec![2u8; 16];
    let (new_palette, new_image) = sort_palette(&palette, &image);
    assert_eq!(new_palette[0], gray(30));
    assert_eq!(new_image, vec![0u8; 16]);
}

#[test]
fn empty_image_keeps_the_palette() {
    let palette = vec![gray(10), gray(20), gray(30)];
    let (new_palette, new_image) = sort_palette(&palette, &vec![]);
    assert_eq!(new_palette, palette);
    assert_eq!(new_image, Vec::<u8>::new());
}

#[test]
fn full_palette_of_256_colors() {
    let palette: Vec<Color> = (0..=255u8).map(gray).collect();
    let image: Vec<u8> = (0..=255u8).rev().collect();
    let (new_palette, new_image) = sort_palette(&palette, &image);
    for k in 0..image.len() {
        assert_eq!(new_palette[new_image[k] as usize], palette[image[k] as usize]);
    }
}
