use uiua::array::{Array, PersistentMeta};
use uiua::context::{FillContext, Num};
use uiua::fill::{
    fill_array_shape, fill_array_shapes, fill_value_shape, fill_value_shapes, op2_bytes_retry_fill,
    op_bytes_ref_retry_fill, op_bytes_retry_fill,
};
use uiua::runtime::{Uiua, UiuaError};
use uiua::value::Value;

fn bytes(shape: Vec<usize>, data: Vec<u8>) -> Array<u8> {
    Array::new(shape, data)
}

fn with_byte_fill(fill: u8) -> Uiua {
    let mut env = Uiua::new();
    env.fills.byte = Some(fill);
    env
}

#[test]
fn fill_adds_rows_of_the_fill_value() {
    let env = with_byte_fill(0);
    let mut arr = bytes(vec![2], vec![7, 8]);
    assert!(fill_array_shape(&mut arr, &[5], false, &env).is_ok());
    assert_eq!(arr.shape, vec![5]);
    assert_eq!(arr.data, vec![7, 8, 0, 0, 0]);
}

#[test]
fn fill_adds_a_leading_dimension() {
    let env = with_byte_fill(9);
    let mut arr = bytes(vec![2, 3], vec![1, 2, 3, 4, 5, 6]);
    assert!(fill_array_shape(&mut arr, &[2, 2, 3], false, &env).is_ok());
    assert_eq!(arr.shape, vec![2, 2, 3]);
    assert_eq!(arr.data, vec![1, 2, 3, 4, 5, 6, 9, 9, 9, 9, 9, 9]);
}

#[test]
fn fill_widens_dimensions() {
    let env = with_byte_fill(0);
    let mut arr = bytes(vec![2, 2], vec![1, 2, 3, 4]);
    assert!(fill_array_shape(&mut arr, &[2, 3], false, &env).is_ok());
    assert_eq!(arr.shape, vec![2, 3]);
    assert_eq!(arr.data, vec![1, 2, 0, 3, 4, 0]);
}

#[test]
fn fill_is_a_no_op_on_matching_prefixes() {
    let env = with_byte_fill(0);
    let mut arr = bytes(vec![2, 3], vec![1, 2, 3, 4, 5, 6]);
    arr.meta = PersistentMeta { bits: 5 };
    let before = arr.clone();
    assert!(fill_array_shape(&mut arr, &[2], true, &env).is_ok());
    assert_eq!(arr, before);
    assert!(fill_array_shape(&mut arr, &[2, 3, 8], false, &Uiua::new()).is_ok());
    assert_eq!(arr, before);
}

#[test]
fn fill_fails_without_a_fill_value() {
    let env = Uiua::new();
    let mut arr = bytes(vec![2], vec![7, 8]);
    let err = fill_array_shape(&mut arr, &[5], false, &env).unwrap_err();
    assert_eq!(err.message, "Shapes [2] and [5] do not match. No fill is set.");
    assert!(err.fill);
    assert_eq!(arr, bytes(vec![2], vec![7, 8]));

    let mut wide = bytes(vec![2, 3], vec![0; 6]);
    let err = fill_array_shape(&mut wide, &[2, 4], true, &env).unwrap_err();
    assert_eq!(err.message, "Shapes [2 × 3] and [2 × 4] do not match. No fill is set.");

    let mut long = bytes(vec![5], vec![0; 5]);
    let err = fill_array_shape(&mut long, &[3], false, &with_byte_fill(1)).unwrap_err();
    assert_eq!(err.message, "Shapes [5] and [3] do not match");
    assert!(err.fill);
}

#[test]
fn fixed_axes_stretch_without_a_fill_value() {
    let env = Uiua::new();
    let mut arr = bytes(vec![1, 3], vec![1, 2, 3]);
    assert!(fill_array_shape(&mut arr, &[2, 3], true, &env).is_ok());
    assert_eq!(arr.shape, vec![2, 3]);
    assert_eq!(arr.data, vec![1, 2, 3, 1, 2, 3]);

    let mut cycled = bytes(vec![1, 1, 2], vec![4, 5]);
    assert!(fill_array_shape(&mut cycled, &[2], true, &env).is_ok());
    assert_eq!(cycled.shape, vec![2, 2, 2]);
    assert_eq!(cycled.data, vec![4, 5, 4, 5, 4, 5, 4, 5]);

    let mut not_allowed = bytes(vec![1, 3], vec![1, 2, 3]);
    assert!(fill_array_shape(&mut not_allowed, &[2, 3], false, &env).is_err());
}

#[test]
fn bytes_are_tried_again_as_numbers() {
    let mut env = Uiua::new();
    env.fills.num = Some(Num::from_nat(0).unwrap());
    let mut val = Value::Byte(bytes(vec![2], vec![1, 2]));
    assert!(fill_value_shape(&mut val, &[3], false, &env).is_ok());
    match val {
        Value::Num(arr) => {
            assert_eq!(arr.shape, vec![3]);
            let numbers: Vec<f64> = arr.data.iter().map(|n| f64::from_bits(n.bits)).collect();
            assert_eq!(numbers, vec![1.0, 2.0, 0.0]);
        }
        other => panic!("not numbers: {:?}", other),
    }
    let mut stays = Value::Byte(bytes(vec![2], vec![1, 2]));
    assert!(fill_value_shape(&mut stays, &[3], false, &Uiua::new()).is_err());
    assert_eq!(stays, Value::Byte(bytes(vec![2], vec![1, 2])));
}

#[test]
fn matching_values_are_left_alone() {
    let env = Uiua::new();
    let mut a = Value::Byte(bytes(vec![2, 3], vec![1, 2, 3, 4, 5, 6]));
    let mut b = Value::Char(Array::new(vec![2], vec!['a', 'b']));
    let (a0, b0) = (a.clone(), b.clone());
    assert!(fill_value_shapes(&mut a, &mut b, true, &env).is_ok());
    assert_eq!(a, a0);
    assert_eq!(b, b0);
    assert!(fill_value_shapes(&mut a, &mut b, false, &env).is_ok());
    assert_eq!(a, a0);
    assert_eq!(b, b0);
}

#[test]
fn values_are_filled_towards_each_other() {
    let env = with_byte_fill(0);
    let mut a = Value::Byte(bytes(vec![2], vec![1, 2]));
    let mut b = Value::Byte(bytes(vec![3], vec![3, 4, 5]));
    assert!(fill_value_shapes(&mut a, &mut b, false, &env).is_ok());
    assert_eq!(a, Value::Byte(bytes(vec![3], vec![1, 2, 0])));
    assert_eq!(b, Value::Byte(bytes(vec![3], vec![3, 4, 5])));

    let none = Uiua::new();
    let mut c = Value::Byte(bytes(vec![2], vec![1, 2]));
    let mut d = Value::Byte(bytes(vec![3], vec![3, 4, 5]));
    let err = fill_value_shapes(&mut c, &mut d, true, &none).unwrap_err();
    assert_eq!(err.message, "Shapes [2] and [3] do not match. No fill is set.");
    let mut e = Value::Byte(bytes(vec![1, 2], vec![1, 2]));
    let mut f = Value::Byte(bytes(vec![3], vec![3, 4, 5]));
    assert!(fill_value_shapes(&mut e, &mut f, false, &none).is_ok());
}

#[test]
fn rows_are_filled_pair_by_pair() {
    let env = with_byte_fill(0);
    let mut a = bytes(vec![2, 2], vec![1, 2, 3, 4]);
    let mut b = bytes(vec![2, 3], vec![5, 6, 7, 8, 9, 10]);
    assert!(fill_array_shapes(&mut a, &mut b, 1, 1, &env).is_ok());
    assert_eq!(a.shape, vec![2, 3]);
    assert_eq!(a.data, vec![1, 2, 0, 3, 4, 0]);
    assert_eq!(b, bytes(vec![2, 3], vec![5, 6, 7, 8, 9, 10]));

    let mut c = bytes(vec![2, 2], vec![1, 2, 3, 4]);
    let mut d = bytes(vec![3, 2], vec![0; 6]);
    let err = fill_array_shapes(&mut c, &mut d, 1, 1, &env).unwrap_err();
    assert_eq!(err.message, "Shapes [2 × 2] and [3 × 2] do not match");
    assert!(err.fill);

    let mut e = bytes(vec![2], vec![1, 2]);
    let mut f = bytes(vec![3], vec![3, 4, 5]);
    assert!(fill_array_shapes(&mut e, &mut f, 0, 0, &env).is_ok());
    assert_eq!(e.data, vec![1, 2, 0]);
}

fn failure(fill: bool) -> UiuaError {
    UiuaError { message: String::from("no"), fill }
}

fn bits(nums: &Array<Num>) -> Vec<u64> {
    nums.data.iter().map(|n| n.bits).collect()
}

#[test]
fn bytes_that_work_are_not_tried_as_numbers() {
    let arr = bytes(vec![2], vec![1, 2]);
    let result: Result<usize, UiuaError> =
        op_bytes_retry_fill(arr, |b| Ok(b.data.len()), |_| Ok(100));
    assert_eq!(result, Ok(2));
}

#[test]
fn a_fill_failure_on_bytes_is_tried_again_on_numbers() {
    let arr = bytes(vec![3], vec![0, 1, 200]);
    let result: Result<Vec<u64>, UiuaError> =
        op_bytes_retry_fill(arr, |_| Err(failure(true)), |n| Ok(bits(&n)));
    assert_eq!(
        result,
        Ok(vec![0.0f64.to_bits(), 1.0f64.to_bits(), 200.0f64.to_bits()])
    );
}

#[test]
fn another_failure_on_bytes_is_handed_on() {
    let arr = bytes(vec![1], vec![4]);
    let result: Result<usize, UiuaError> =
        op_bytes_retry_fill(arr, |_| Err(failure(false)), |_| Ok(1));
    assert_eq!(result, Err(failure(false)));
}

#[test]
fn a_borrowed_array_is_tried_again_on_numbers() {
    let arr = bytes(vec![2], vec![5, 6]);
    let result: Result<Vec<u64>, UiuaError> =
        op_bytes_ref_retry_fill(&arr, |_| Err(failure(true)), |n| Ok(bits(n)));
    assert_eq!(result, Ok(vec![5.0f64.to_bits(), 6.0f64.to_bits()]));
    let kept: Result<usize, UiuaError> =
        op_bytes_ref_retry_fill(&arr, |b| Ok(b.data.len()), |_| Ok(0));
    assert_eq!(kept, Ok(2));
    let failed: Result<usize, UiuaError> =
        op_bytes_ref_retry_fill(&arr, |_| Err(failure(false)), |_| Ok(0));
    assert_eq!(failed, Err(failure(false)));
}

#[test]
fn two_arrays_are_tried_as_numbers_only_with_a_number_fill() {
    let a = bytes(vec![1], vec![1]);
    let b = bytes(vec![1], vec![2]);
    let plain = Uiua::new();
    let first: Result<u64, UiuaError> = op2_bytes_retry_fill(
        a.clone(),
        b.clone(),
        &plain,
        |_, _| Err(failure(true)),
        |x, y| Ok(x.data[0].bits + y.data[0].bits),
    );
    assert_eq!(first, Err(failure(true)));
    let mut env = Uiua::new();
    env.fills.num = Some(Num { bits: 0 });
    let second: Result<Vec<u64>, UiuaError> = op2_bytes_retry_fill(
        a,
        b,
        &env,
        |_, _| Err(failure(true)),
        |x, y| Ok(vec![x.data[0].bits, y.data[0].bits]),
    );
    assert_eq!(second, Ok(vec![1.0f64.to_bits(), 2.0f64.to_bits()]));
}

#[test]
fn the_array_fill_is_the_scalar_fill_at_rank_zero() {
    let env = with_byte_fill(4);
    let fill: Array<u8> = env.array_fill::<u8>().unwrap();
    assert_eq!(fill.shape, Vec::<usize>::new());
    assert_eq!(fill.data, vec![4]);
    assert_eq!(env.array_fill::<Num>().err(), Some(". No fill is set."));
    assert_eq!(env.scalar_fill::<u8>(), Ok(4));
}

#[test]
fn a_shape_that_began_with_one_is_exempt_after_its_fill() {
    let mut env = Uiua::new();
    env.fills.character = Some('.');
    let mut a = Value::Char(Array::new(vec![1, 2, 2], vec!['a', 'b', 'c', 'd']));
    let mut b = Value::Char(Array::new(vec![3, 5], vec!['x'; 15]));
    assert!(fill_value_shapes(&mut a, &mut b, false, &env).is_ok());
    assert_eq!(a.shape(), &vec![3, 2, 2]);
    assert_eq!(b.shape(), &vec![3, 3, 5]);
    let mut c = Value::Char(Array::new(vec![1, 2, 2], vec!['a', 'b', 'c', 'd']));
    let mut d = Value::Char(Array::new(vec![3, 5], vec!['x'; 15]));
    assert!(fill_value_shapes(&mut c, &mut d, true, &env).is_err());
    let mut e = Value::Char(Array::new(vec![2, 2, 2], vec!['a'; 8]));
    let mut f = Value::Char(Array::new(vec![3, 5], vec!['x'; 15]));
    assert!(fill_value_shapes(&mut e, &mut f, false, &env).is_err());
}

#[test]
fn a_stretch_of_source_text_has_no_fill() {
    let span = uiua::function::CodeSpan { start: 3, end: 9 };
    assert_eq!(span.scalar_fill::<u8>(), Err(". No fill is set."));
    assert_eq!(span.array_fill::<Num>().err(), Some(". No fill is set."));
    let mut arr = bytes(vec![2], vec![1, 2]);
    let err = fill_array_shape(&mut arr, &[3], true, &span).unwrap_err();
    assert_eq!(err.message, "Shapes [2] and [3] do not match. No fill is set.");
    assert!(err.fill);
    let mut same = bytes(vec![2], vec![1, 2]);
    assert!(fill_array_shape(&mut same, &[2, 7], true, &span).is_ok());
    assert_eq!(same, bytes(vec![2], vec![1, 2]));
}
