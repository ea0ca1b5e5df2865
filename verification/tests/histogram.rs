use exoquant::{Color, Histogram};

#[test]
fn count_duplicates() {
    let mut hist: Histogram =
        Histogram::from_pixels(&vec![Color::new(10, 20, 30, 99), Color::new(0, 99, 0, 99)]);
    hist.extend(&vec![Color::new(20, 0, 40, 99), Color::new(0, 99, 0, 99)]);
    assert_eq!(hist.get(Color::new(0, 99, 0, 99)), 2usize);
}

#[test]
fn empty_histogram_counts_nothing() {
    let hist = Histogram::new();
    assert_eq!(hist.iter().len(), 0);
    assert_eq!(hist.get(Color::new(0, 0, 0, 0)), 0);
}

#[test]
fn counts_sum_to_stream_length() {
    let mut pixels = Vec::new();
    for i in 0..1000u32 {
        pixels.push(Color::new((i % 7) as u8, (i % 3) as u8, 0, 255));
    }
    let hist = Histogram::from_pixels(&pixels);
    let data = hist.iter();
    let total: usize = data.iter().map(|entry| entry.1).sum();
    assert_eq!(total, 1000);
    assert_eq!(data.len(), 21);
    for (i, a) in data.iter().enumerate() {
        assert!(a.1 >= 1);
        assert_eq!(hist.get(a.0), a.1);
        for b in &data[i + 1..] {
            assert_ne!(a.0, b.0);
        }
    }
}

#[test]
fn histogram_merge() {
    let red = Color::new(255, 0, 0, 255);
    let green = Color::new(0, 255, 0, 255);
    let blue = Color::new(0, 0, 255, 255);
    let mut first = Vec::new();
    for _ in 0..10 {
        first.push(red);
        first.push(blue);
    }
    let mut second = Vec::new();
    for _ in 0..5 {
        second.push(red);
    }
    for _ in 0..15 {
        second.push(green);
    }
    let mut hist = Histogram::new();
    hist.extend(&first);
    hist.extend(&second);
    assert_eq!(hist.get(red), 15);
    assert_eq!(hist.get(blue), 10);
    assert_eq!(hist.get(green), 15);
    assert_eq!(hist.iter().len(), 3);
}

#[test]
fn insert_and_collect_agree() {
    let pixels = vec![
        Color::new(1, 1, 1, 1),
        Color::new(2, 2, 2, 2),
        Color::new(1, 1, 1, 1),
        Color::new(3, 3, 3, 3),
    ];
    let collected = Histogram::from_pixels(&pixels);
    let mut inserted = Histogram::new();
    for p in &pixels {
        inserted.insert(*p);
    }
    assert_eq!(collected.iter(), inserted.iter());
    assert_eq!(
        collected.iter(),
        vec![(Color::new(1, 1, 1, 1), 2), (Color::new(2, 2, 2, 2), 1), (Color::new(3, 3, 3, 3), 1)]
    );
}

#[test]
fn colors_that_differ_in_one_channel_are_told_apart() {
    let pixels = vec![
        Color::new(1, 0, 0, 0),
        Color::new(0, 1, 0, 0),
        Color::new(0, 0, 1, 0),
        Color::new(0, 0, 0, 1),
    ];
    let hist = Histogram::from_pixels(&pixels);
    assert_eq!(hist.iter().len(), 4);
    for p in &pixels {
        assert_eq!(hist.get(*p), 1);
    }
}
