use exoquant::quantizer::QuantizerNode;
use exoquant::{ColorCount, Quantizer, Vec4};

fn entry(x: i32, y: i32, count: usize) -> ColorCount {
    ColorCount { color: Vec4::new(x, y, 0, 0), count }
}

fn colors_of(h: &Vec<ColorCount>) -> Vec<(i32, i32, usize)> {
    h.iter().map(|e| (e.color.x, e.color.y, e.count)).collect()
}

#[test]
fn empty_node() {
    let node = QuantizerNode::new(vec![]);
    assert_eq!(node.avg, Vec4::zero());
    assert_eq!(node.vdif, 0);
    assert_eq!(node.split, 0);
    assert!(node.histogram.is_empty());
}

#[test]
fn two_entries_split_into_one_and_one() {
    let node = QuantizerNode::new(vec![entry(10, 0, 1), entry(0, 0, 1)]);
    assert_eq!(node.avg, Vec4::new(5, 0, 0, 0));
    assert_eq!(node.split, 1);
    // 0 / 1 + 100 / 1 - 100 / 2
    assert_eq!(node.vdif, 50);
    // The direction points from the mean towards the first entry along the widest channel,
    // so the entries come in descending order of that channel.
    assert_eq!(colors_of(&node.histogram), vec![(10, 0, 1), (0, 0, 1)]);
}

#[test]
fn mean_and_gain_are_weighted_by_count() {
    let node = QuantizerNode::new(vec![entry(0, 0, 3), entry(10, 0, 1)]);
    // The mean 10 / 4 is rounded down.
    assert_eq!(node.avg, Vec4::new(2, 0, 0, 0));
    assert_eq!(node.split, 1);
    // 0 / 3 + 100 / 1 - 100 / 4
    assert_eq!(node.vdif, 75);
}

#[test]
fn mean_of_negative_channels_is_rounded_down() {
    let node = QuantizerNode::new(vec![entry(-3, 0, 1), entry(-4, 0, 1)]);
    assert_eq!(node.avg, Vec4::new(-4, 0, 0, 0));
}

#[test]
fn equal_colors_gain_nothing() {
    let node = QuantizerNode::new(vec![entry(7, 7, 2), entry(7, 7, 5)]);
    assert_eq!(node.avg, Vec4::new(7, 7, 0, 0));
    assert_eq!(node.vdif, 0);
    assert_eq!(node.split, 0);
}

#[test]
fn entries_are_sorted_along_the_principal_direction() {
    let node = QuantizerNode::new(vec![
        entry(30, 3, 1),
        entry(10, 1, 1),
        entry(40, 4, 1),
        entry(20, 2, 1),
    ]);
    let xs: Vec<i32> = node.histogram.iter().map(|e| e.color.x).collect();
    assert!(xs == vec![10, 20, 30, 40] || xs == vec![40, 30, 20, 10]);
    assert_eq!(node.split, 2);
    assert_eq!(node.avg, Vec4::new(25, 2, 0, 0));
}

#[test]
fn best_cut_separates_the_two_groups() {
    let node = QuantizerNode::new(vec![
        entry(100, 0, 1),
        entry(1, 0, 1),
        entry(101, 0, 1),
        entry(0, 0, 1),
        entry(102, 0, 1),
    ]);
    assert_eq!(node.split, 3);
    assert_eq!(colors_of(&node.histogram), vec![(102, 0, 1), (101, 0, 1), (100, 0, 1), (1, 0, 1), (0, 0, 1)]);
    // 1 / 2 + 303 * 303 / 3 - 304 * 304 / 5
    assert_eq!(node.vdif, 0 + 30603 - 18483);
}

#[test]
fn first_of_equal_gains_wins() {
    let node = QuantizerNode::new(vec![entry(0, 0, 1), entry(10, 0, 1), entry(20, 0, 1)]);
    // Cutting after one entry or after two gains the same.
    assert_eq!(node.split, 1);
    assert_eq!(node.vdif, 0 + 900 / 2 - 900 / 3);
}

#[test]
fn each_step_adds_one_color() {
    let hist: Vec<ColorCount> = (0..32).map(|i| entry(i * 10, (i % 4) * 100, 1 + i as usize)).collect();
    let mut q = Quantizer::from_color_counts(hist);
    assert_eq!(q.num_colors(), 1);
    for k in 1..=40 {
        q.step();
        assert_eq!(q.num_colors(), 1 + k);
    }
}

#[test]
fn step_splits_the_node_with_the_largest_gain() {
    let hist = vec![entry(0, 0, 1), entry(10, 0, 1), entry(1000, 0, 1), entry(1100, 0, 1)];
    let mut q = Quantizer::from_color_counts(hist);
    q.step();
    assert_eq!(q.means(), vec![Vec4::new(1050, 0, 0, 0), Vec4::new(5, 0, 0, 0)]);
    q.step();
    // The first node gains more: it is taken out, the last node takes its place, and
    // its halves go to the end.
    assert_eq!(
        q.means(),
        vec![Vec4::new(5, 0, 0, 0), Vec4::new(1100, 0, 0, 0), Vec4::new(1000, 0, 0, 0)]
    );
    q.step();
    assert_eq!(
        q.means(),
        vec![
            Vec4::new(1000, 0, 0, 0),
            Vec4::new(1100, 0, 0, 0),
            Vec4::new(10, 0, 0, 0),
            Vec4::new(0, 0, 0, 0)
        ]
    );
}

#[test]
fn splitting_a_single_entry_leaves_an_empty_node() {
    let mut q = Quantizer::from_color_counts(vec![entry(42, 0, 9)]);
    q.step();
    assert_eq!(q.means(), vec![Vec4::zero(), Vec4::new(42, 0, 0, 0)]);
}
