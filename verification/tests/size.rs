use uiua::context::IgnoreError;
use uiua::runtime::Uiua;
use uiua::size::{validate_shape, validate_size, validate_size_impl, SizeError};

#[test]
fn zero_dimension_gives_zero() {
    assert_eq!(validate_size_impl(8, &[3, 0, usize::MAX]), Ok(0));
    assert_eq!(validate_size_impl(8, &[0]), Ok(0));
    assert_eq!(validate_size_impl(8, &[usize::MAX, usize::MAX, 0]), Ok(0));
}

#[test]
fn product_of_dimensions() {
    assert_eq!(validate_size_impl(8, &[2, 3, 4]), Ok(24));
    assert_eq!(validate_size_impl(1, &[]), Ok(1));
    assert_eq!(validate_size_impl(0, &[5, 5]), Ok(25));
}

#[test]
fn overflow_is_reported() {
    assert_eq!(
        validate_size_impl(1, &[usize::MAX, 2]),
        Err(SizeError::Overflow)
    );
    assert_eq!(
        validate_size_impl(16, &[usize::MAX / 8]),
        Err(SizeError::Overflow)
    );
}

#[test]
fn ceiling_is_reported_with_the_count() {
    let mib = 1024 * 1024;
    assert_eq!(validate_size_impl(1, &[4096 * mib]), Ok(4096 * mib));
    assert_eq!(
        validate_size_impl(1, &[4096 * mib + 1]),
        Err(SizeError::TooLarge(4096 * mib + 1))
    );
    assert_eq!(
        validate_size_impl(8, &[1024, mib]),
        Err(SizeError::TooLarge(1024 * mib))
    );
    assert_eq!(validate_size_impl(8, &[512, mib]), Ok(512 * mib));
}

#[test]
fn adding_a_dimension_never_shrinks_the_count() {
    let before = validate_size_impl(4, &[3, 5]).unwrap();
    let after = validate_size_impl(4, &[3, 2, 5]).unwrap();
    let same = validate_size_impl(4, &[3, 5, 1]).unwrap();
    assert!(after >= before);
    assert_eq!(same, before);
}

#[test]
fn size_error_messages() {
    assert_eq!(
        SizeError::Overflow.message(),
        "Array size calculation overflowed"
    );
    assert_eq!(
        SizeError::TooLarge(1234).message(),
        "Array of 1234 elements would be too large"
    );
}

#[test]
fn validate_size_takes_the_size_of_the_element() {
    let env = Uiua::new();
    let mib = 1024 * 1024;
    assert_eq!(validate_size::<u8, Uiua>(&[4096 * mib], &env), Ok(4096 * mib));
    let err = validate_size::<u64, Uiua>(&[4096 * mib], &env).unwrap_err();
    assert_eq!(
        err.message,
        format!("Array of {} elements would be too large", 4096 * mib)
    );
    assert!(!err.fill);
    assert_eq!(validate_size::<u64, IgnoreError>(&[usize::MAX, 2], &IgnoreError), Err(()));
    assert_eq!(validate_size::<u64, IgnoreError>(&[7, 0], &IgnoreError), Ok(0));
}

#[test]
fn a_row_length_beyond_the_machine_word_is_refused() {
    assert_eq!(validate_size_impl(1, &[0, usize::MAX, 2]), Ok(0));
    assert_eq!(
        validate_shape(1, &[0, usize::MAX, 2]),
        Err(SizeError::Overflow)
    );
    assert_eq!(validate_shape(1, &[usize::MAX, 2, 0]), Ok(0));
}
