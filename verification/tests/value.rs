use uiua::array::{Array, PersistentMeta};
use uiua::context::{IgnoreError, Num};
use uiua::runtime::Uiua;
use uiua::value::Value;

fn bytes(shape: Vec<usize>, data: Vec<u8>) -> Value {
    Value::Byte(Array::new(shape, data))
}

#[test]
fn arrays_know_their_rows() {
    let arr = Array::new(vec![2, 3], vec![1u8, 2, 3, 4, 5, 6]);
    assert_eq!(arr.rank(), 2);
    assert_eq!(arr.row_count(), 2);
    assert_eq!(arr.row_len(), 3);
    assert_eq!(arr.element_count(), 6);
    assert_eq!(arr.row(1), Array::new(vec![3], vec![4, 5, 6]));
    assert_eq!(arr.rows(), vec![Array::new(vec![3], vec![1, 2, 3]), Array::new(vec![3], vec![4, 5, 6])]);
    assert_eq!(Array::from_row_arrays(&arr.rows(), PersistentMeta { bits: 0 }), arr);
    let scalar = Array::scalar(7u8);
    assert_eq!(scalar.rank(), 0);
    assert_eq!(scalar.row_count(), 1);
    assert_eq!(scalar.row_len(), 1);
    assert_eq!(arr.duplicate(), arr);
}

#[test]
fn arrays_are_tiled_and_padded() {
    let mut arr = Array::new(vec![2], vec![1u8, 2]);
    arr.reshape_scalar(3).unwrap();
    assert_eq!(arr, Array::new(vec![3, 2], vec![1, 2, 1, 2, 1, 2]));
    let mut tiled = Array::new(vec![2], vec![1u8, 2]);
    tiled.tile(&[2, 2]).unwrap();
    assert_eq!(tiled.shape, vec![2, 2, 2]);
    assert_eq!(tiled.data, vec![1, 2, 1, 2, 1, 2, 1, 2]);
    let mut none = Array::new(vec![2], vec![1u8, 2]);
    none.reshape_scalar(0).unwrap();
    assert_eq!(none, Array::new(vec![0, 2], vec![]));
    let mut padded = Array::new(vec![2, 2], vec![1u8, 2, 3, 4]);
    padded.fill_to_shape(&[3, 3], 0).unwrap();
    assert_eq!(padded.data, vec![1, 2, 0, 3, 4, 0, 0, 0, 0]);
    let mut cut = Array::new(vec![2, 2], vec![1u8, 2, 3, 4]);
    cut.fill_to_shape(&[1, 3], 9).unwrap();
    assert_eq!(cut, Array::new(vec![1, 3], vec![1, 2, 9]));
    let mut raised = Array::new(vec![2], vec![1u8, 2]);
    raised.fill_to_shape(&[2, 3], 0).unwrap();
    assert_eq!(raised, Array::new(vec![2, 3], vec![1, 2, 0, 0, 0, 0]));
    let mut big = Array::new(vec![1], vec![1u8]);
    assert!(big.fill_to_shape(&[usize::MAX, 2], 0).is_err());
    assert_eq!(big, Array::new(vec![1], vec![1]));
}

#[test]
fn values_as_natural_numbers() {
    let env = Uiua::new();
    assert_eq!(Value::Byte(Array::scalar(7)).as_nat(&env, "no").unwrap(), 7);
    let three = Value::Num(Array::scalar(Num::from_nat(3).unwrap()));
    assert_eq!(three.as_nat(&env, "no").unwrap(), 3);
    let half = Value::Num(Array::scalar(Num { bits: 0.5f64.to_bits() }));
    assert_eq!(half.as_nat(&env, "must be natural").unwrap_err().message, "must be natural");
    assert_eq!(bytes(vec![1], vec![3]).as_nat(&IgnoreError, "no"), Err(()));
    let list = bytes(vec![3], vec![3, 0, 1]).as_natural_array(&env, "no").unwrap();
    assert_eq!(list, Array::new(vec![3], vec![3usize, 0, 1]));
    assert!(Value::Char(Array::scalar('a')).as_natural_array(&env, "no").is_err());
}

#[test]
fn rows_become_one_value() {
    let env = Uiua::new();
    let rows = vec![bytes(vec![2], vec![1, 2]), bytes(vec![2], vec![3, 4])];
    assert_eq!(
        Value::from_row_values(&rows, &env).unwrap(),
        bytes(vec![2, 2], vec![1, 2, 3, 4])
    );
    assert_eq!(Value::from_row_values(&vec![], &env).unwrap(), bytes(vec![0], vec![]));
    let mixed = vec![bytes(vec![2], vec![1, 2]), Value::Char(Array::new(vec![2], vec!['a', 'b']))];
    assert_eq!(
        Value::from_row_values(&mixed, &env).unwrap_err().message,
        "Cannot combine arrays of different types"
    );
    let ragged = vec![bytes(vec![2], vec![1, 2]), bytes(vec![3], vec![3, 4, 5])];
    assert_eq!(
        Value::from_row_values(&ragged, &env).unwrap_err().message,
        "Cannot combine arrays with shapes [2] and [3]"
    );
}

#[test]
fn values_keep_their_tags() {
    let mut v = bytes(vec![2], vec![1, 2]);
    v.set_meta(PersistentMeta { bits: 3 });
    assert_eq!(v.meta(), PersistentMeta { bits: 3 });
    assert_eq!(v.duplicate(), v);
    assert_eq!(v.take_per_meta(), PersistentMeta { bits: 3 });
    assert_eq!(v.meta(), PersistentMeta { bits: 0 });
    assert_eq!(v.part(1, 2, vec![1]), bytes(vec![1], vec![2]));
    assert_eq!(v.proxy(vec![2, 1]), bytes(vec![2, 1], vec![0, 0]));
    assert_eq!(Value::Char(Array::scalar('x')).proxy(vec![2]), Value::Char(Array::new(vec![2], vec![' ', ' '])));
}
