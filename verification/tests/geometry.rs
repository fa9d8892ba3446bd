use floorplan::rect::Rect;
use floorplan::rng::RandomSource;
use floorplan::generate::isqrt;

#[test]
fn rect_dimensions_and_area() {
    let r = Rect { min_x: 2, min_y: 3, max_x: 12, max_y: 7 };
    assert_eq!(r.width(), 10);
    assert_eq!(r.height(), 4);
    assert_eq!(r.area(), 40);
}

#[test]
fn rect_zero_area_is_legal() {
    let r = Rect { min_x: 5, min_y: 5, max_x: 5, max_y: 9 };
    assert_eq!(r.width(), 0);
    assert_eq!(r.area(), 0);
}

#[test]
fn rect_intersections() {
    let a = Rect { min_x: 0, min_y: 0, max_x: 10, max_y: 10 };
    let b = Rect { min_x: 5, min_y: 5, max_x: 15, max_y: 15 };
    let c = Rect { min_x: 11, min_y: 0, max_x: 20, max_y: 10 };
    let edge = Rect { min_x: 10, min_y: 0, max_x: 20, max_y: 10 };
    assert!(a.intersects(&b));
    assert!(b.intersects(&a));
    assert!(!a.intersects(&c));
    // touching along an edge counts as intersecting
    assert!(a.intersects(&edge));
}

#[test]
fn isqrt_exact_values() {
    assert_eq!(isqrt(0), 0);
    assert_eq!(isqrt(1), 1);
    assert_eq!(isqrt(3), 1);
    assert_eq!(isqrt(4), 2);
    assert_eq!(isqrt(8), 2);
    assert_eq!(isqrt(9), 3);
    assert_eq!(isqrt(300), 17);
    assert_eq!(isqrt(u64::MAX), 4294967295);
}

#[test]
fn isqrt_brackets_its_input() {
    for n in (0..10000u64).step_by(7) {
        let r = isqrt(n);
        assert!(r * r <= n);
        assert!((r + 1) * (r + 1) > n);
    }
}

#[test]
fn draws_stay_below_bound() {
    // If the underlying draw handed back its seed unchanged, a seed far above
    // the bound would violate this.
    let mut rng = RandomSource::new(u64::MAX - 3);
    for bound in [1u64, 2, 3, 17, 1000, u64::MAX] {
        let v = rng.next_below(bound);
        assert!(v < bound);
    }
}

#[test]
fn ranged_draws_stay_inside_range() {
    let mut rng = RandomSource::new(99);
    for _ in 0..100 {
        let v = rng.next_in_range(10, 13);
        assert!((10..=13).contains(&v));
    }
}

#[test]
fn equal_seeds_draw_equal_streams() {
    let mut a = RandomSource::new(42);
    let mut b = RandomSource::new(42);
    for bound in [5u64, 100, 7, 1 << 40, 3] {
        assert_eq!(a.next_below(bound), b.next_below(bound));
    }
    assert_eq!(a, b);
}

#[test]
fn certain_and_impossible_coins() {
    let mut rng = RandomSource::new(7);
    for _ in 0..50 {
        assert!(rng.coin(10, 10));
        assert!(!rng.coin(0, 10));
    }
}
