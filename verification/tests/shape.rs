use uiua::shape::{max_shape, shape_fits, shape_prefixes_match, suffix_elements};
use uiua::text::{decimal_string, shape_string};

#[test]
fn max_shape_aligns_at_the_trailing_end() {
    assert_eq!(max_shape(&[2, 3], &[4]), vec![2, 4]);
    assert_eq!(max_shape(&[], &[5]), vec![5]);
    assert_eq!(max_shape(&[4], &[2, 3]), vec![2, 4]);
    assert_eq!(max_shape(&[1, 7, 2], &[9, 1]), vec![1, 9, 2]);
    assert_eq!(max_shape(&[], &[]), Vec::<usize>::new());
}

#[test]
fn prefixes_match_over_the_shorter_shape() {
    assert!(shape_prefixes_match(&[2, 3], &[2, 3, 4]));
    assert!(shape_prefixes_match(&[2, 3, 4], &[2, 3]));
    assert!(shape_prefixes_match(&[], &[5]));
    assert!(!shape_prefixes_match(&[2, 3], &[2, 4]));
    assert!(!shape_prefixes_match(&[3], &[2, 3]));
}

#[test]
fn trailing_products() {
    assert_eq!(suffix_elements(&[2, 3, 4], 0), 24);
    assert_eq!(suffix_elements(&[2, 3, 4], 1), 12);
    assert_eq!(suffix_elements(&[2, 3, 4], 3), 1);
    assert!(shape_fits(&[0, usize::MAX]));
    assert!(!shape_fits(&[0, usize::MAX, 2]));
    assert!(shape_fits(&[usize::MAX, 2, 0]));
}

#[test]
fn numbers_and_shapes_as_text() {
    assert_eq!(decimal_string(0), "0");
    assert_eq!(decimal_string(7), "7");
    assert_eq!(decimal_string(10), "10");
    assert_eq!(decimal_string(90817), "90817");
    assert_eq!(decimal_string(usize::MAX), usize::MAX.to_string());
    assert_eq!(shape_string(&[]), "[]");
    assert_eq!(shape_string(&[5]), "[5]");
    assert_eq!(shape_string(&[2, 3, 40]), "[2 × 3 × 40]");
}
