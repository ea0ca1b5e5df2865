use exoquant::kmeans::{kmeans_step, kmeans_step_weighted};
use exoquant::optimizer::{KMeans, NoOptimizer, Optimizer, WeightedKMeans};
use exoquant::{ColorCount, Vec4};

fn at(x: i32) -> Vec4 {
    Vec4::new(x, 0, 0, 0)
}

fn entry(x: i32, count: usize) -> ColorCount {
    ColorCount { color: at(x), count }
}

#[test]
fn each_color_moves_to_the_mean_of_its_cluster() {
    let colors = vec![at(0), at(100)];
    let hist = vec![entry(10, 1), entry(20, 3), entry(90, 2)];
    // (10 + 60) / 4 is rounded down.
    assert_eq!(kmeans_step(colors, &hist), vec![at(17), at(90)]);
}

#[test]
fn a_color_without_entries_becomes_zero() {
    let colors = vec![at(50), at(1000)];
    let hist = vec![entry(40, 1), entry(60, 1)];
    assert_eq!(kmeans_step(colors, &hist), vec![at(50), at(0)]);
}

#[test]
fn converged_palette_stays() {
    let colors = vec![
        Vec4::new(5, 9, -3, 100),
        Vec4::new(-70, 2, 8, 0),
        Vec4::new(1000, -1000, 0, 7),
        Vec4::new(0, 0, 0, 0),
    ];
    let hist: Vec<ColorCount> =
        colors.iter().enumerate().map(|(i, c)| ColorCount { color: *c, count: 1 + 3 * i }).collect();
    assert_eq!(kmeans_step(colors.clone(), &hist), colors);
}

#[test]
fn kmeans_stability() {
    // Four tight clusters around the palette colors, symmetric about them.
    let centers = vec![
        Vec4::new(10000, 10000, 0, 40000),
        Vec4::new(50000, 10000, 0, 40000),
        Vec4::new(10000, 50000, 0, 40000),
        Vec4::new(50000, 50000, 30000, 40000),
    ];
    let mut hist = Vec::new();
    for c in &centers {
        for d in [-300, -100, 100, 300] {
            hist.push(ColorCount { color: Vec4::new(c.x + d, c.y - d, c.z, c.w), count: 5 });
        }
        hist.push(ColorCount { color: *c, count: 7 });
    }
    let mut colors = centers.clone();
    for _ in 0..16 {
        colors = KMeans.step(colors, &hist);
    }
    assert_eq!(colors, centers);
}

#[test]
fn weighted_step_keeps_a_single_entry_cluster_in_place() {
    let colors = vec![at(0), at(100)];
    let hist = vec![entry(10, 1)];
    assert_eq!(kmeans_step_weighted(colors, &hist), vec![at(10), at(100)]);
}

#[test]
fn weighted_step_weighs_by_squared_error() {
    let colors = vec![at(0), at(100)];
    // The only neighbor of color 0 is color 100. Four reflections of 10 across it add up
    // to an error of 900, of 20 to one of 800.
    let hist = vec![entry(10, 1), entry(20, 1)];
    // (10 * 810000 + 20 * 640000) / 1450000
    assert_eq!(kmeans_step_weighted(colors, &hist), vec![at(14), at(100)]);
}

#[test]
fn weighted_step_counts_pixels() {
    let colors = vec![at(0), at(100)];
    let hist = vec![entry(10, 64), entry(20, 81)];
    // The weights 64 * 810000 and 81 * 640000 are equal.
    assert_eq!(kmeans_step_weighted(colors, &hist), vec![at(15), at(100)]);
}

#[test]
fn weighted_step_with_one_color_uses_it_as_its_own_neighbor() {
    let colors = vec![at(100)];
    let hist = vec![entry(110, 1), entry(130, 1)];
    // Errors 4 * 10 and 4 * 30: weights 1600 and 14400.
    assert_eq!(kmeans_step_weighted(colors, &hist), vec![at(128)]);
}

#[test]
fn optimizers_report_whether_they_are_noops() {
    assert!(NoOptimizer.is_noop());
    assert!(!KMeans.is_noop());
    assert!(!WeightedKMeans.is_noop());
}

#[test]
fn noop_step_returns_the_colors() {
    let colors = vec![at(1), at(2)];
    assert_eq!(NoOptimizer.step(colors.clone(), &vec![entry(50, 1)]), colors);
}

#[test]
fn optimizer_steps_are_the_free_functions() {
    let colors = vec![at(0), at(100)];
    let hist = vec![entry(10, 1), entry(20, 3), entry(90, 2)];
    assert_eq!(KMeans.step(colors.clone(), &hist), kmeans_step(colors.clone(), &hist));
    assert_eq!(WeightedKMeans.step(colors.clone(), &hist), kmeans_step_weighted(colors, &hist));
}
