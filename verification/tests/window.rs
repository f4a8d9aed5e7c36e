use differential_logging::window::bucket;
use differential_logging::window::granularity_ms;
use differential_logging::wrap::wrap_add;
use differential_logging::wrap::wrap_sub;
use differential_logging::wrap::wrap_u64;

#[test]
fn bucket_rounds_up_to_the_next_boundary() {
    assert_eq!(bucket(0, 1000), 1000);
    assert_eq!(bucket(1, 1000), 1000);
    assert_eq!(bucket(999, 1000), 1000);
    assert_eq!(bucket(1001, 1000), 2000);
    assert_eq!(bucket(4321, 250), 4500);
}

#[test]
fn bucket_of_a_boundary_is_the_next_boundary() {
    assert_eq!(bucket(1000, 1000), 2000);
    assert_eq!(bucket(0, 1), 1);
    assert_eq!(bucket(41, 1), 42);
}

#[test]
fn bucket_strictly_exceeds_the_time() {
    for g in [1u64, 2, 3, 7, 10, 1000, u64::MAX] {
        for t in [0u64, 1, 2, 6, 7, 8, 999, 1000, 123_456_789, u64::MAX - 1, u64::MAX] {
            let b = bucket(t, g);
            assert!(b > t as u128);
            assert!(b - (g as u128) <= t as u128);
            assert_eq!(b % (g as u128), 0);
        }
    }
}

#[test]
fn bucket_is_monotone_in_the_time() {
    for g in [1u64, 3, 10, 1000] {
        let mut last: u128 = 0;
        for t in 0u64..5000 {
            let b = bucket(t, g);
            assert!(last <= b);
            last = b;
        }
    }
}

#[test]
fn bucket_does_not_overflow_at_the_end_of_time() {
    assert_eq!(bucket(u64::MAX, 1), 1u128 << 64);
    assert_eq!(bucket(u64::MAX, u64::MAX), 2 * (u64::MAX as u128));
    assert_eq!(bucket(u64::MAX - 1, u64::MAX), u64::MAX as u128);
}

#[test]
fn bucket_with_no_granularity_uses_one_millisecond() {
    assert_eq!(bucket(0, 0), 1);
    assert_eq!(bucket(17, 0), 18);
    assert_eq!(bucket(17, 0), bucket(17, 1));
}

#[test]
fn granularity_is_in_whole_milliseconds() {
    assert_eq!(granularity_ms(1_000_000), 1);
    assert_eq!(granularity_ms(5_000_000), 5);
    assert_eq!(granularity_ms(5_999_999), 5);
    assert_eq!(granularity_ms(1_000_000_000), 1000);
}

#[test]
fn granularity_is_at_least_one_millisecond() {
    assert_eq!(granularity_ms(0), 1);
    assert_eq!(granularity_ms(1), 1);
    assert_eq!(granularity_ms(999_999), 1);
}

#[test]
fn granularity_keeps_the_low_64_bits() {
    let wide: u128 = ((1u128 << 64) + 7) * 1_000_000;
    assert_eq!(granularity_ms(wide), 7);
    let zero_low: u128 = (1u128 << 64) * 1_000_000;
    assert_eq!(granularity_ms(zero_low), 1);
    assert_eq!(granularity_ms(u128::MAX), ((u128::MAX / 1_000_000) % (1u128 << 64)) as u64);
}

#[test]
fn wrap_u64_is_twos_complement() {
    assert_eq!(wrap_u64(0), 0);
    assert_eq!(wrap_u64(10), 10);
    assert_eq!(wrap_u64(i64::MAX as u64), i64::MAX);
    assert_eq!(wrap_u64(1u64 << 63), i64::MIN);
    assert_eq!(wrap_u64(u64::MAX), -1);
}

#[test]
fn wrap_add_and_sub_wrap_around() {
    assert_eq!(wrap_add(2, 3), 5);
    assert_eq!(wrap_add(i64::MAX, 1), i64::MIN);
    assert_eq!(wrap_add(i64::MIN, -1), i64::MAX);
    assert_eq!(wrap_sub(2, 3), -1);
    assert_eq!(wrap_sub(i64::MIN, 1), i64::MAX);
    assert_eq!(wrap_sub(0, i64::MIN), i64::MIN);
}
