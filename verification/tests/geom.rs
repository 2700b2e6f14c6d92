use path_planning::geom;
use path_planning::rng::RandomSource;

#[test]
fn test_isqrt_exact_values() {
    assert_eq!(geom::isqrt64(0), 0);
    assert_eq!(geom::isqrt64(1), 1);
    assert_eq!(geom::isqrt64(3), 1);
    assert_eq!(geom::isqrt64(4), 2);
    assert_eq!(geom::isqrt64(2_000_000), 1414);
    assert_eq!(geom::isqrt64(64_000_000_000_000), 8_000_000);
    assert_eq!(geom::isqrt64(i64::MAX), 3_037_000_499);
    assert_eq!(geom::isqrt128(u128::MAX), 0xFFFF_FFFF_FFFF_FFFF);
}

#[test]
fn test_distances() {
    let a: Vec<i64> = vec![-1000, 2000, 0];
    let b: Vec<i64> = vec![1000, 2000, 0];
    assert_eq!(geom::sq_dist_points(&a, &b), 4_000_000);
    assert_eq!(geom::dist_points(&a, &b), 2000);
    assert_eq!(geom::dist_points(&a, &a), 0);
}

#[test]
fn test_steer_moves_at_most_one_step() {
    let from: Vec<i64> = vec![0, 0];
    let toward: Vec<i64> = vec![10_000, 10_000];
    let steered = geom::steer_points(&from, &toward, 1000);
    let d = geom::dist_points(&from, &steered);
    assert!(d <= 1000);
    assert!(d >= 995);
    // The steered point heads toward the target.
    assert!(steered[0] > 0 && steered[1] > 0);
}

#[test]
fn test_random_source_is_seeded_and_bounded() {
    let mut a = RandomSource::from_seed(42);
    let mut b = RandomSource::from_seed(42);
    let mut all_below_ten = true;
    let mut saw_distinct = false;
    let mut previous = 0;
    for i in 0..1000 {
        let x = a.next_below(10);
        let y = b.next_below(10);
        // Same seed, same stream.
        assert_eq!(x, y);
        assert!(x < 10);
        if i > 0 && x != previous {
            saw_distinct = true;
        }
        previous = x;
        if x >= 10 {
            all_below_ten = false;
        }
    }
    assert!(all_below_ten);
    // A thousand draws of a ten-valued uniform are not constant.
    assert!(saw_distinct);
    // A different seed gives a different stream somewhere in the
    // first thousand draws.
    let mut c = RandomSource::from_seed(43);
    let mut a2 = RandomSource::from_seed(42);
    let mut differs = false;
    for _ in 0..1000 {
        if a2.next_below(1000) != c.next_below(1000) {
            differs = true;
        }
    }
    assert!(differs);
}
