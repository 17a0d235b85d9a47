use integer_sqrt::IntegerSquareRoot;

#[test]
fn bracketing_holds_over_a_range() {
    for n in 0u32..5000 {
        let root = n.integer_sqrt();
        assert!(root * root <= n, "in {}", n);
        let above = (root as u64 + 1) * (root as u64 + 1);
        assert!(above > n as u64, "in {}", n);
    }
}

#[test]
fn checked_rejects_negative_input() {
    assert_eq!((-1i8).integer_sqrt_checked(), None);
    assert_eq!(i8::MIN.integer_sqrt_checked(), None);
    assert_eq!((-1i16).integer_sqrt_checked(), None);
    assert_eq!(i16::MIN.integer_sqrt_checked(), None);
    assert_eq!((-1i32).integer_sqrt_checked(), None);
    assert_eq!(i32::MIN.integer_sqrt_checked(), None);
    assert_eq!((-1i64).integer_sqrt_checked(), None);
    assert_eq!(i64::MIN.integer_sqrt_checked(), None);
    assert_eq!((-1i128).integer_sqrt_checked(), None);
    assert_eq!(i128::MIN.integer_sqrt_checked(), None);
    assert_eq!((-1isize).integer_sqrt_checked(), None);
    assert_eq!(isize::MIN.integer_sqrt_checked(), None);
}

#[test]
fn checked_accepts_non_negative_input() {
    assert_eq!(0i32.integer_sqrt_checked(), Some(0));
    assert_eq!(10i32.integer_sqrt_checked(), Some(3));
    assert_eq!(10u32.integer_sqrt_checked(), Some(3));
    assert_eq!(i64::MAX.integer_sqrt_checked(), Some(3_037_000_499));
    assert_eq!(u64::MAX.integer_sqrt_checked(), Some(4_294_967_295));
}

#[test]
fn zero_has_root_zero_in_every_width() {
    assert_eq!(0u8.integer_sqrt(), 0);
    assert_eq!(0u16.integer_sqrt(), 0);
    assert_eq!(0u32.integer_sqrt(), 0);
    assert_eq!(0u64.integer_sqrt(), 0);
    assert_eq!(0u128.integer_sqrt(), 0);
    assert_eq!(0usize.integer_sqrt(), 0);
    assert_eq!(0i8.integer_sqrt(), 0);
    assert_eq!(0i16.integer_sqrt(), 0);
    assert_eq!(0i32.integer_sqrt(), 0);
    assert_eq!(0i64.integer_sqrt(), 0);
    assert_eq!(0i128.integer_sqrt(), 0);
    assert_eq!(0isize.integer_sqrt(), 0);
}

#[test]
fn perfect_squares_are_exact() {
    assert_eq!(1u64.integer_sqrt(), 1);
    assert_eq!(4u64.integer_sqrt(), 2);
    assert_eq!(81u64.integer_sqrt(), 9);
    for k in 0u64..1000 {
        assert_eq!((k * k).integer_sqrt(), k, "in {}", k * k);
    }
}

#[test]
fn non_perfect_squares_round_down() {
    assert_eq!(3u64.integer_sqrt(), 1);
    assert_eq!(7u64.integer_sqrt(), 2);
    assert_eq!(80u64.integer_sqrt(), 8);
    for k in 1u64..1000 {
        assert_eq!((k * k + 1).integer_sqrt(), k, "in {}", k * k + 1);
        assert_eq!((k * k + 2 * k).integer_sqrt(), k, "in {}", k * k + 2 * k);
    }
}

#[test]
fn root_is_monotonic() {
    let mut previous: u16 = 0;
    for n in 0u16..=u16::MAX {
        let root = n.integer_sqrt();
        assert!(previous <= root, "in {}", n);
        previous = root;
    }
}
