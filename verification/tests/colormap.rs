use exoquant::colormap::KDNode;
use exoquant::{ColorMap, Vec4};

fn random_colors(seed: u32, n: usize, span: i32) -> Vec<Vec4> {
    let mut state = seed;
    let mut next = move || {
        state = state.wrapping_mul(1664525).wrapping_add(1013904223);
        ((state >> 8) % (2 * span as u32 + 1)) as i32 - span
    };
    (0..n).map(|_| Vec4::new(next(), next(), next(), next())).collect()
}

fn isqrt(n: u128) -> u64 {
    let mut r = (n as f64).sqrt() as u128;
    while r * r > n {
        r -= 1;
    }
    while (r + 1) * (r + 1) <= n {
        r += 1;
    }
    r as u64
}

#[test]
fn nearest_color_is_a_minimum() {
    for seed in 1..40u32 {
        let n = 1 + (seed as usize * 7) % 33;
        let palette = random_colors(seed, n, 1000);
        let map = ColorMap::from_float_colors(palette.clone());
        for q in random_colors(seed + 1000, 50, 1200) {
            let found = map.find_nearest(q);
            assert!(found < n);
            let best = palette.iter().map(|p| q.dist_sq(*p)).min().unwrap();
            assert_eq!(q.dist_sq(palette[found]), best);
        }
    }
}

#[test]
fn nearest_color_with_clustered_duplicates() {
    let mut palette = random_colors(7, 20, 3);
    palette.extend(random_colors(7, 20, 3));
    let map = ColorMap::from_float_colors(palette.clone());
    for q in random_colors(99, 200, 5) {
        let found = map.find_nearest(q);
        let best = palette.iter().map(|p| q.dist_sq(*p)).min().unwrap();
        assert_eq!(q.dist_sq(palette[found]), best);
    }
}

#[test]
fn nearest_of_far_away_query() {
    let palette = vec![Vec4::new(0, 0, 0, 0), Vec4::new(65536, 65536, 65536, 65536)];
    let map = ColorMap::from_float_colors(palette);
    assert_eq!(map.find_nearest(Vec4::new(i32::MAX, i32::MAX, i32::MAX, i32::MAX)), 1);
    assert_eq!(map.find_nearest(Vec4::new(i32::MIN, i32::MIN, i32::MIN, i32::MIN)), 0);
}

#[test]
fn neighbor_distance_is_distance_to_nearest_other_entry() {
    for seed in 1..20u32 {
        let n = 2 + (seed as usize * 5) % 20;
        let palette = random_colors(seed, n, 500);
        let map = ColorMap::from_float_colors(palette.clone());
        for i in 0..n {
            let best = (0..n)
                .filter(|&j| j != i)
                .map(|j| palette[i].dist_sq(palette[j]))
                .min()
                .unwrap();
            assert_eq!(map.neighbor_distance(i), isqrt(best));
        }
    }
}

#[test]
fn neighbor_distance_exact_values() {
    let palette = vec![Vec4::new(0, 0, 0, 0), Vec4::new(3, 4, 0, 0), Vec4::new(3, 4, 12, 0)];
    let map = ColorMap::from_float_colors(palette);
    assert_eq!(map.neighbor_distance(0), 5);
    assert_eq!(map.neighbor_distance(1), 5);
    assert_eq!(map.neighbor_distance(2), 12);
}

#[test]
fn single_color_has_no_neighbor() {
    let map = ColorMap::from_float_colors(vec![Vec4::new(5, 5, 5, 5)]);
    assert_eq!(map.num_colors(), 1);
    assert_eq!(map.neighbor_distance(0), u64::MAX);
    assert_eq!(map.neighbors(0), &Vec::<usize>::new());
    assert_eq!(map.find_nearest(Vec4::new(-100, 7, 0, 3)), 0);
    assert_eq!(map.float_color(0), Vec4::new(5, 5, 5, 5));
}

#[test]
fn neighbors_of_colors_in_a_row() {
    let palette: Vec<Vec4> = [0, 100, 210, 330, 460].iter().map(|&x| Vec4::new(x, 0, 0, 0)).collect();
    let map = ColorMap::from_float_colors(palette);
    assert_eq!(map.neighbors(0), &vec![1]);
    assert_eq!(map.neighbors(1), &vec![0, 2]);
    // Seen from 210, the color 100 lies beyond the plane halfway to 0, which is listed
    // before it.
    assert_eq!(map.neighbors(2), &vec![0, 3]);
    assert_eq!(map.neighbors(3), &vec![2, 4]);
    assert_eq!(map.neighbors(4), &vec![3]);
}

#[test]
fn a_later_color_that_is_closer_replaces_the_one_it_hides() {
    // Seen from entry 0, entry 1 lies behind entry 2.
    let palette = vec![Vec4::new(0, 0, 0, 0), Vec4::new(200, 0, 0, 0), Vec4::new(90, 0, 0, 0)];
    let map = ColorMap::from_float_colors(palette);
    assert_eq!(map.neighbors(0), &vec![2]);
    assert_eq!(map.neighbors(1), &vec![0]);
    assert_eq!(map.neighbors(2), &vec![0, 1]);
}

#[test]
fn a_color_on_the_midplane_is_hidden() {
    let palette = vec![
        Vec4::new(0, 0, 0, 0),
        Vec4::new(100, 0, 0, 0),
        Vec4::new(0, 100, 0, 0),
        Vec4::new(100, 100, 0, 0),
    ];
    let map = ColorMap::from_float_colors(palette);
    // The far corner lies exactly on the plane halfway to each of the near corners.
    assert_eq!(map.neighbors(0), &vec![1, 2]);
    assert_eq!(map.neighbors(1), &vec![0, 3]);
    assert_eq!(map.neighbors(2), &vec![0, 3]);
    assert_eq!(map.neighbors(3), &vec![0]);
}

#[test]
fn tree_splits_at_the_median_along_the_widest_channel() {
    let colors = vec![Vec4::new(0, 50, 0, 0), Vec4::new(0, 10, 5, 0), Vec4::new(1, 30, 0, 0)];
    let node = KDNode::new(vec![0, 1, 2], &colors);
    assert_eq!(node.axis, 1);
    assert_eq!(node.index, 2);
    assert_eq!(node.mid_point, colors[2]);
    let left = node.left.unwrap();
    let right = node.right.unwrap();
    assert_eq!(left.index, 1);
    assert_eq!(right.index, 0);
    assert!(left.left.is_none() && left.right.is_none());
    assert!(right.left.is_none() && right.right.is_none());
}

#[test]
fn tree_of_two_has_no_right_child() {
    let colors = vec![Vec4::new(9, 0, 0, 0), Vec4::new(1, 0, 0, 0)];
    let node = KDNode::new(vec![0, 1], &colors);
    assert_eq!(node.axis, 0);
    assert_eq!(node.index, 0);
    assert_eq!(node.left.unwrap().index, 1);
    assert!(node.right.is_none());
}

#[test]
fn ties_in_spread_go_to_the_first_channel() {
    let colors = vec![Vec4::new(0, 0, 0, 0), Vec4::new(10, 10, 10, 10)];
    let node = KDNode::new(vec![0, 1], &colors);
    assert_eq!(node.axis, 0);
    let colors = vec![Vec4::new(0, 0, 0, 0), Vec4::new(0, 0, 10, 10)];
    let node = KDNode::new(vec![0, 1], &colors);
    assert_eq!(node.axis, 2);
}

#[test]
fn search_respects_limit_and_ignored_index() {
    let colors = vec![Vec4::new(0, 0, 0, 0), Vec4::new(10, 0, 0, 0), Vec4::new(20, 0, 0, 0)];
    let node = KDNode::new(vec![0, 1, 2], &colors);
    let needle = Vec4::new(11, 0, 0, 0);
    let found = node.find_nearest(needle, u128::MAX, usize::MAX).unwrap();
    assert_eq!((found.index, found.distance), (1, 1));
    let found = node.find_nearest(needle, u128::MAX, 1).unwrap();
    assert_eq!((found.index, found.distance), (2, 81));
    assert!(node.find_nearest(needle, 1, usize::MAX).is_none());
    let found = node.find_nearest(needle, 2, usize::MAX).unwrap();
    assert_eq!(found.index, 1);
}
