use linalg::{LinAlgError, Operations};

#[test]
fn integer_square_roots_are_exact() {
    assert_eq!(<i64 as Operations>::sqrt(0), 0);
    assert_eq!(<i64 as Operations>::sqrt(1), 1);
    assert_eq!(<i64 as Operations>::sqrt(14), 3);
    assert_eq!(<i64 as Operations>::sqrt(16), 4);
    assert_eq!(<i64 as Operations>::sqrt(99), 9);
    assert_eq!(<i64 as Operations>::sqrt(-5), 0);
    assert_eq!(<i64 as Operations>::sqrt(i64::MAX), 3037000499);
    assert_eq!(<u64 as Operations>::sqrt(u64::MAX), 4294967295);
    assert_eq!(<i32 as Operations>::sqrt(i32::MAX), 46340);
    assert_eq!(<u32 as Operations>::sqrt(25), 5);
    assert_eq!(<u128 as Operations>::sqrt(u128::MAX), 18446744073709551615);
    assert_eq!(<i128 as Operations>::sqrt(i128::MAX), 13043817825332782212);
    assert_eq!(<i128 as Operations>::sqrt(-9), 0);
}

#[test]
fn division_truncates_toward_zero() {
    assert_eq!(<i64 as Operations>::div(7, 2), 3);
    assert_eq!(<i64 as Operations>::div(-7, 2), -3);
    assert_eq!(<i64 as Operations>::div(7, -2), -3);
    assert_eq!(<i64 as Operations>::div(i64::MIN, -1), i64::MIN);
    assert_eq!(<u64 as Operations>::div(7, 2), 3);
    assert_eq!(<i128 as Operations>::div(-9, 4), -2);
    assert_eq!(<u128 as Operations>::div(9, 4), 2);
}

#[test]
fn arithmetic_wraps_on_overflow() {
    assert_eq!(<i64 as Operations>::add(i64::MAX, 1), i64::MIN);
    assert_eq!(<i64 as Operations>::sub(i64::MIN, 1), i64::MAX);
    assert_eq!(<i64 as Operations>::add(2, 3), 5);
    assert_eq!(<i64 as Operations>::sub(2, 3), -1);
    assert_eq!(<i64 as Operations>::mul(-4, 6), -24);
    assert_eq!(<u32 as Operations>::add(u32::MAX, 1), 0);
    assert_eq!(<i128 as Operations>::add(i128::MAX, 1), i128::MIN);
    assert_eq!(<u128 as Operations>::mul(2, 3), 6);
}

#[test]
fn absolute_values_and_negation() {
    assert_eq!(<i64 as Operations>::abs(-9), 9);
    assert_eq!(<i64 as Operations>::abs(9), 9);
    assert_eq!(<i64 as Operations>::neg(9), -9);
    assert_eq!(<i64 as Operations>::abs(i64::MIN), i64::MIN);
    assert_eq!(<u64 as Operations>::abs(9), 9);
    assert_eq!(<i32 as Operations>::abs(-3), 3);
}

#[test]
fn equality_order_and_zero() {
    assert_eq!(<i64 as Operations>::zero(), 0);
    assert!(<i64 as Operations>::eq(4, 4));
    assert!(!<i64 as Operations>::eq(4, 5));
    assert!(<i64 as Operations>::lt(3, 5));
    assert!(!<i64 as Operations>::lt(5, 3));
}

#[test]
fn error_kinds_describe_themselves() {
    assert_eq!(
        LinAlgError::ShapeMismatch.describe(),
        "shapes are incompatible"
    );
    assert_eq!(LinAlgError::Singular.describe(), "the matrix is singular");
    assert_eq!(
        LinAlgError::NotSquare.describe(),
        "the matrix is not square"
    );
    assert_ne!(LinAlgError::NotSquare, LinAlgError::Singular);
}
