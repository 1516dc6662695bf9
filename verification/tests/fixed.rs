use endless_runner::color::{floor_color, Color};
use endless_runner::direction::Direction;
use endless_runner::fixed::{isqrt_ceil, mul_div, norm_sq_at_most, Vec3};
use endless_runner::random::{random_in_f32_range, random_number};

#[test]
fn mul_div_rounds_toward_zero() {
    assert_eq!(mul_div(7, 3, 2), 10);
    assert_eq!(mul_div(-7, 3, 2), -10);
    assert_eq!(mul_div(7, -3, 2), -10);
    assert_eq!(mul_div(-7, -3, 2), 10);
    assert_eq!(mul_div(2000, 1100, 1000), 2200);
    assert_eq!(mul_div(0, 5, 3), 0);
}

#[test]
fn mul_div_has_no_intermediate_overflow() {
    assert_eq!(mul_div(i64::MAX, i64::MAX, i64::MAX), i64::MAX);
    assert_eq!(mul_div(i64::MIN, 1_000_000, 1_000_000), i64::MIN);
    assert_eq!(mul_div(i64::MAX, 999_999, 1_000_000), 9_223_362_813_482_738_952);
}

#[test]
fn ceiling_square_roots() {
    assert_eq!(isqrt_ceil(0), 0);
    assert_eq!(isqrt_ceil(1), 1);
    assert_eq!(isqrt_ceil(2), 2);
    assert_eq!(isqrt_ceil(4), 2);
    assert_eq!(isqrt_ceil(5), 3);
    assert_eq!(isqrt_ceil(25_000_000), 5000);
    assert_eq!(isqrt_ceil(25_000_001), 5001);
    assert_eq!(isqrt_ceil(u128::MAX), 1 << 64);
    assert_eq!(isqrt_ceil((1u128 << 126) + 1), (1 << 63) + 1);
}

#[test]
fn norm_comparison() {
    assert!(norm_sq_at_most(3, 4, 0, 25));
    assert!(!norm_sq_at_most(3, 4, 0, 24));
    assert!(norm_sq_at_most(-1, -2, -2, 9));
    assert!(!norm_sq_at_most(i128::MAX, 0, 0, u64::MAX));
    assert!(!norm_sq_at_most(0, i128::MIN, 0, u64::MAX));
    assert!(norm_sq_at_most(0xffff_ffff, 0, 0, u64::MAX));
    assert!(!norm_sq_at_most(0x1_0000_0000, 0, 0, u64::MAX));
}

#[test]
fn short_vectors_are_left_alone() {
    let v = Vec3 { x: 3000, y: -4000, z: 0 };
    assert_eq!(v.clamp_length_max(5000), v);
    assert_eq!(v.clamp_length_max(i64::MAX), v);
    assert_eq!(Vec3::zero().clamp_length_max(0), Vec3::zero());
}

#[test]
fn long_vectors_are_shortened() {
    let v = Vec3 { x: 3000, y: -4000, z: 0 };
    assert_eq!(v.clamp_length_max(2500), Vec3 { x: 1500, y: -2000, z: 0 });
    assert_eq!(v.clamp_length_max(0), Vec3::zero());
    let w = Vec3 { x: 1, y: 1, z: 1 };
    // The length is rounded up to 2, so each component becomes 1 * 1 / 2.
    assert_eq!(w.clamp_length_max(1), Vec3::zero());
    let far = Vec3 { x: i64::MIN, y: i64::MAX, z: i64::MIN };
    let short = far.clamp_length_max(1_000_000);
    assert!(short.length_squared() <= 1_000_000_000_000);
    assert!(short.length_squared() >= 999_990_000_000);
}

#[test]
fn lengths_of_vectors() {
    let v = Vec3 { x: 3000, y: -4000, z: 0 };
    assert_eq!(v.length_squared(), 25_000_000);
    assert!(v.length_at_most(5000));
    assert!(!v.length_at_most(4999));
    let far = Vec3 { x: i64::MIN, y: i64::MIN, z: i64::MIN };
    assert_eq!(far.length_squared(), 3 * (1u128 << 126));
    assert!(!far.length_at_most(i64::MAX));
}

#[test]
fn directions_combine() {
    let d = Direction::up().union(Direction::left());
    assert_eq!(d, Direction { up: true, down: false, left: true, right: false });
    assert_eq!(d.to_vec3(), Vec3 { x: 1000, y: 0, z: -1000 });
    assert!(!d.is_neutral());
    assert!(Direction::neutral().is_neutral());
    assert_eq!(Direction::neutral().union(Direction::neutral()), Direction::neutral());
    let cancel = Direction::left().union(Direction::right()).union(Direction::down());
    assert_eq!(cancel.to_vec3(), Vec3 { x: -1000, y: 0, z: 0 });
    assert!(!cancel.is_neutral());
    assert_eq!(Direction::right().to_vec3(), Vec3 { x: 0, y: 0, z: 1000 });
}

#[test]
fn random_numbers_cover_their_range() {
    let mut low = false;
    let mut high = false;
    for _ in 0..2000 {
        let x = random_number();
        assert!((-1000..1000).contains(&x));
        low |= x < 0;
        high |= x > 0;
    }
    assert!(low && high);
}

#[test]
fn random_range_is_half_open() {
    for _ in 0..200 {
        assert_eq!(random_in_f32_range(7, 8), 7);
        let x = random_in_f32_range(-3, 3);
        assert!((-3..3).contains(&x));
    }
    let mut seen = [false; 4];
    for _ in 0..2000 {
        seen[random_in_f32_range(10, 14) as usize - 10] = true;
    }
    assert_eq!(seen, [true; 4]);
}

#[test]
fn jitter_moves_every_channel_alike() {
    let base = floor_color();
    assert_eq!(base, Color { r: 847, g: 749, b: 847 });
    assert_eq!(base.jittered(100), Color { r: 747, g: 649, b: 747 });
    assert_eq!(base.jittered(-100), Color { r: 947, g: 849, b: 947 });
    assert_eq!(base.jittered(0), base);
}

#[test]
fn jitter_goes_past_zero_and_full() {
    let bright = Color { r: 1000, g: 500, b: 0 };
    assert_eq!(bright.jittered(-100), Color { r: 1100, g: 600, b: 100 });
    assert_eq!(bright.jittered(100), Color { r: 900, g: 400, b: -100 });
    assert_eq!(bright.jittered(-100).jittered(-100), Color { r: 1200, g: 700, b: 200 });
    assert_eq!(Color { r: -5, g: 2000, b: 500 }.jittered(0), Color { r: -5, g: 2000, b: 500 });
}

#[test]
fn jitter_stops_at_the_ends_of_the_arithmetic() {
    let edge = Color { r: i64::MAX, g: i64::MIN, b: 0 };
    assert_eq!(edge.jittered(-1), Color { r: i64::MAX, g: i64::MIN + 1, b: 1 });
    assert_eq!(edge.jittered(1), Color { r: i64::MAX - 1, g: i64::MIN, b: -1 });
    assert_eq!(edge.jittered(i64::MIN).b, i64::MAX);
    assert_eq!(edge.jittered(i64::MAX).b, -i64::MAX);
}

#[test]
fn random_jitter_is_bounded() {
    let base = floor_color();
    let mut moved = false;
    for _ in 0..500 {
        let c = base.randomly_jittered();
        let shift = base.r - c.r;
        assert!((-100..=100).contains(&shift));
        assert_eq!(c, base.jittered(shift));
        moved |= shift != 0;
    }
    assert!(moved);
}
