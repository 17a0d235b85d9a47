use integer_sqrt::IntegerSquareRoot;

#[test]
fn i8_test() {
    let tests: [(i8, i8); 9] = [
        (0, 0),
        (1, 1),
        (2, 1),
        (3, 1),
        (4, 2),
        (81, 9),
        (80, 8),
        (i8::MAX, 11),
        (i8::MAX - 1, 11),
    ];
    for &(in_, out) in tests.iter() {
        assert_eq!(in_.integer_sqrt(), out, "in {}", in_);
    }
}

#[test]
fn u8_test() {
    let tests: [(u8, u8); 9] = [
        (0, 0),
        (1, 1),
        (2, 1),
        (3, 1),
        (4, 2),
        (81, 9),
        (80, 8),
        (u8::MAX, 15),
        (u8::MAX - 1, 15),
    ];
    for &(in_, out) in tests.iter() {
        assert_eq!(in_.integer_sqrt(), out, "in {}", in_);
    }
}

#[test]
fn i16_test() {
    let tests: [(i16, i16); 9] = [
        (0, 0),
        (1, 1),
        (2, 1),
        (3, 1),
        (4, 2),
        (81, 9),
        (80, 8),
        (i16::MAX, 181),
        (i16::MAX - 1, 181),
    ];
    for &(in_, out) in tests.iter() {
        assert_eq!(in_.integer_sqrt(), out, "in {}", in_);
    }
}

#[test]
fn u16_test() {
    let tests: [(u16, u16); 9] = [
        (0, 0),
        (1, 1),
        (2, 1),
        (3, 1),
        (4, 2),
        (81, 9),
        (80, 8),
        (u16::MAX, 255),
        (u16::MAX - 1, 255),
    ];
    for &(in_, out) in tests.iter() {
        assert_eq!(in_.integer_sqrt(), out, "in {}", in_);
    }
}

#[test]
fn i32_test() {
    let tests: [(i32, i32); 9] = [
        (0, 0),
        (1, 1),
        (2, 1),
        (3, 1),
        (4, 2),
        (81, 9),
        (80, 8),
        (i32::MAX, 46340),
        (i32::MAX - 1, 46340),
    ];
    for &(in_, out) in tests.iter() {
        assert_eq!(in_.integer_sqrt(), out, "in {}", in_);
    }
}

#[test]
fn u32_test() {
    let tests: [(u32, u32); 9] = [
        (0, 0),
        (1, 1),
        (2, 1),
        (3, 1),
        (4, 2),
        (81, 9),
        (80, 8),
        (u32::MAX, 65535),
        (u32::MAX - 1, 65535),
    ];
    for &(in_, out) in tests.iter() {
        assert_eq!(in_.integer_sqrt(), out, "in {}", in_);
    }
}

#[test]
fn i64_test() {
    let tests: [(i64, i64); 9] = [
        (0, 0),
        (1, 1),
        (2, 1),
        (3, 1),
        (4, 2),
        (81, 9),
        (80, 8),
        (i64::MAX, 3_037_000_499),
        (i64::MAX - 1, 3_037_000_499),
    ];
    for &(in_, out) in tests.iter() {
        assert_eq!(in_.integer_sqrt(), out, "in {}", in_);
    }
}

#[test]
fn u64_test() {
    let tests: [(u64, u64); 9] = [
        (0, 0),
        (1, 1),
        (2, 1),
        (3, 1),
        (4, 2),
        (81, 9),
        (80, 8),
        (u64::MAX, 4_294_967_295),
        (u64::MAX - 1, 4_294_967_295),
    ];
    for &(in_, out) in tests.iter() {
        assert_eq!(in_.integer_sqrt(), out, "in {}", in_);
    }
}

#[test]
fn u128_test() {
    let tests: [(u128, u128); 9] = [
        (0, 0),
        (1, 1),
        (2, 1),
        (3, 1),
        (4, 2),
        (81, 9),
        (80, 8),
        (u128::MAX, 18_446_744_073_709_551_615),
        (u128::MAX - 1, 18_446_744_073_709_551_615),
    ];
    for &(in_, out) in tests.iter() {
        assert_eq!(in_.integer_sqrt(), out, "in {}", in_);
    }
}

#[test]
fn i128_test() {
    let tests: [(i128, i128); 8] = [
        (0, 0),
        (1, 1),
        (2, 1),
        (3, 1),
        (4, 2),
        (81, 9),
        (80, 8),
        (i128::MAX, 13_043_817_825_332_782_212),
    ];
    for &(in_, out) in tests.iter() {
        assert_eq!(in_.integer_sqrt(), out, "in {}", in_);
    }
}

#[test]
fn isize_test() {
    let tests: [(isize, isize); 9] = [
        (0, 0),
        (1, 1),
        (2, 1),
        (3, 1),
        (4, 2),
        (81, 9),
        (80, 8),
        (isize::MAX, 3_037_000_499),
        (isize::MAX - 1, 3_037_000_499),
    ];
    for &(in_, out) in tests.iter() {
        assert_eq!(in_.integer_sqrt(), out, "in {}", in_);
    }
}

#[test]
fn usize_test() {
    let tests: [(usize, usize); 9] = [
        (0, 0),
        (1, 1),
        (2, 1),
        (3, 1),
        (4, 2),
        (81, 9),
        (80, 8),
        (usize::MAX, 4_294_967_295),
        (usize::MAX - 1, 4_294_967_295),
    ];
    for &(in_, out) in tests.iter() {
        assert_eq!(in_.integer_sqrt(), out, "in {}", in_);
    }
}
