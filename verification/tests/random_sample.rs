use exoquant::random_sample::{keep, random_sample, sample, sample_with, ALWAYS};

#[test]
fn an_item_is_kept_when_the_draw_is_below_the_threshold() {
    assert!(keep(1, 0));
    assert!(!keep(1, 1));
    assert!(!keep(0, 0));
    assert!(keep(ALWAYS, u32::MAX));
    assert!(!keep(ALWAYS - 1, u32::MAX));
}

#[test]
fn sample_with_given_draws() {
    let items = vec!['a', 'b', 'c', 'd'];
    let draws = vec![5, 100, 99, 0];
    assert_eq!(sample_with(&items, 100, &draws), vec!['a', 'c', 'd']);
    assert_eq!(sample_with(&items, 0, &draws), Vec::<char>::new());
    assert_eq!(sample_with(&items, ALWAYS, &draws), items);
}

#[test]
fn sampling_with_the_extreme_thresholds() {
    let items: Vec<u32> = (0..1000).collect();
    assert_eq!(random_sample(&items, 0), Vec::<u32>::new());
    assert_eq!(random_sample(&items, ALWAYS), items);
    assert!(!sample(0));
    assert!(sample(ALWAYS));
}

#[test]
fn a_sample_keeps_the_order_of_the_items() {
    let items: Vec<u32> = (0..10000).collect();
    let half = random_sample(&items, ALWAYS / 2);
    assert!(half.windows(2).all(|w| w[0] < w[1]));
    assert!(half.len() > 4000 && half.len() < 6000, "{}", half.len());
}
