use exoquant::color::{div_floor, integer_sqrt, Wide4, CHANNEL_MAX, ONE};
use exoquant::{Color, Vec4};

#[test]
fn color_new_keeps_channels() {
    let c = Color::new(1, 2, 3, 4);
    assert_eq!((c.r, c.g, c.b, c.a), (1, 2, 3, 4));
    assert_eq!(c, Color { r: 1, g: 2, b: 3, a: 4 });
}

#[test]
fn pack_puts_red_on_top() {
    assert_eq!(Color::new(0x12, 0x34, 0x56, 0x78).pack(), 0x1234_5678);
    assert_ne!(Color::new(1, 0, 0, 0).pack(), Color::new(0, 1, 0, 0).pack());
}

#[test]
fn fixed_point_scale() {
    assert_eq!(ONE, 65536);
    assert_eq!(CHANNEL_MAX, 16 * ONE);
    assert!(Vec4::new(CHANNEL_MAX, -CHANNEL_MAX, 0, 1).is_in_range());
    assert!(!Vec4::new(CHANNEL_MAX + 1, 0, 0, 0).is_in_range());
    assert!(!Vec4::new(0, 0, 0, -CHANNEL_MAX - 1).is_in_range());
}

#[test]
fn dot_and_distance() {
    let a = Vec4::new(1, 2, 3, 4);
    let b = Vec4::new(-5, 6, -7, 8);
    assert_eq!(a.dot(b), -5 + 12 - 21 + 32);
    assert_eq!(a.dist_sq(b), 36 + 16 + 100 + 16);
    assert_eq!(a.dist_sq(a), 0);
    assert_eq!(Vec4::new(3, 4, 0, 0).abs(), 5);
    assert_eq!(Vec4::new(1, 1, 1, 1).abs(), 2);
    assert_eq!(Vec4::zero().abs(), 0);
}

#[test]
fn distance_of_extreme_vectors_fits() {
    let a = Vec4::new(i32::MAX, i32::MAX, i32::MAX, i32::MAX);
    let b = Vec4::new(i32::MIN, i32::MIN, i32::MIN, i32::MIN);
    let side: u128 = 0xffff_ffff;
    assert_eq!(a.dist_sq(b), 4 * side * side);
}

#[test]
fn channel_by_number() {
    let v = Vec4::new(10, 20, 30, 40);
    assert_eq!(v.channel(0), 10);
    assert_eq!(v.channel(1), 20);
    assert_eq!(v.channel(2), 30);
    assert_eq!(v.channel(3), 40);
}

#[test]
fn integer_sqrt_rounds_down() {
    assert_eq!(integer_sqrt(0), 0);
    assert_eq!(integer_sqrt(1), 1);
    assert_eq!(integer_sqrt(3), 1);
    assert_eq!(integer_sqrt(4), 2);
    assert_eq!(integer_sqrt(99), 9);
    assert_eq!(integer_sqrt(100), 10);
    assert_eq!(integer_sqrt(0x4_0000_0000_0000_0000), 0x2_0000_0000);
    assert_eq!(integer_sqrt(0x4_0000_0000_0000_0000 - 1), 0x2_0000_0000 - 1);
}

#[test]
fn div_floor_rounds_toward_minus_infinity() {
    assert_eq!(div_floor(7, 2), 3);
    assert_eq!(div_floor(-7, 2), -4);
    assert_eq!(div_floor(-8, 2), -4);
    assert_eq!(div_floor(-1, 32), -1);
    assert_eq!(div_floor(0, 5), 0);
}

#[test]
fn wide_sums() {
    let s = Wide4::zero().plus_scaled(Vec4::new(1, -2, 3, -4), 10);
    assert_eq!((s.x, s.y, s.z, s.w), (10, -20, 30, -40));
    let t = s.minus(Wide4::from_color(Vec4::new(1, 1, 1, 1)));
    assert_eq!((t.x, t.y, t.z, t.w), (9, -21, 29, -41));
    assert_eq!(s.dot(t), 90 + 420 + 870 + 1640);
    assert_eq!(t.narrow(), Vec4::new(9, -21, 29, -41));
}
