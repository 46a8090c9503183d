use uiua::array::{Array, PersistentMeta};
use uiua::rows::{fixed_rows, FixedRow};
use uiua::runtime::Uiua;
use uiua::value::Value;

fn bytes(shape: Vec<usize>, data: Vec<u8>) -> Value {
    Value::Byte(Array::new(shape, data))
}

#[test]
fn one_row_is_broadcast() {
    let env = Uiua::new();
    let args = vec![
        bytes(vec![1, 2], vec![9, 9]),
        bytes(vec![4], vec![1, 2, 3, 4]),
        bytes(vec![4, 1], vec![5, 6, 7, 8]),
    ];
    let data = fixed_rows("rows", 1, args, &env).ok().unwrap();
    assert_eq!(data.row_count, 4);
    assert!(!data.is_empty);
    assert!(!data.all_scalar);
    match &data.rows[0] {
        FixedRow::Constant(v) => assert_eq!(*v, bytes(vec![2], vec![9, 9])),
        FixedRow::Rows(_) => panic!("one row"),
    }
    match &data.rows[1] {
        FixedRow::Rows(rows) => {
            assert_eq!(rows.len(), 4);
            assert_eq!(rows[2], Value::Byte(Array::scalar(3)));
        }
        FixedRow::Constant(_) => panic!("four rows"),
    }
    match &data.rows[2] {
        FixedRow::Rows(rows) => assert_eq!(rows[3], bytes(vec![1], vec![8])),
        FixedRow::Constant(_) => panic!("four rows"),
    }
}

#[test]
fn different_row_counts_fail() {
    let env = Uiua::new();
    let args = vec![bytes(vec![2], vec![1, 2]), bytes(vec![3], vec![1, 2, 3])];
    let err = fixed_rows("rows", 1, args, &env).err().unwrap();
    assert_eq!(
        err.message,
        "Cannot rows arrays with different number of rows, shapes [2] and [3]"
    );
    assert!(!err.fill);
}

#[test]
fn fillable_arguments_are_lengthened() {
    let mut env = Uiua::new();
    env.fills.byte = Some(0);
    let args = vec![bytes(vec![2], vec![1, 2]), bytes(vec![3], vec![1, 2, 3])];
    let data = fixed_rows("rows", 1, args, &env).ok().unwrap();
    assert_eq!(data.row_count, 3);
    match &data.rows[0] {
        FixedRow::Rows(rows) => {
            assert_eq!(rows.len(), 3);
            assert_eq!(rows[2], Value::Byte(Array::scalar(0)));
        }
        FixedRow::Constant(_) => panic!("three rows"),
    }
}

#[test]
fn scalars_and_empty_arguments() {
    let env = Uiua::new();
    let scalars = vec![Value::Byte(Array::scalar(1)), Value::Byte(Array::scalar(2))];
    let data = fixed_rows("each", 1, scalars, &env).ok().unwrap();
    assert_eq!(data.row_count, 1);
    assert!(data.all_scalar);
    assert!(!data.is_empty);

    let empty = vec![bytes(vec![0, 2], vec![]), Value::Byte(Array::scalar(2))];
    let data = fixed_rows("rows", 1, empty, &env).ok().unwrap();
    assert!(data.is_empty);
    assert_eq!(data.row_count, 0);
    match &data.rows[0] {
        FixedRow::Rows(rows) => assert_eq!(*rows, vec![bytes(vec![2], vec![0, 0])]),
        FixedRow::Constant(_) => panic!("no rows"),
    }
    let no_outputs = vec![bytes(vec![0, 2], vec![])];
    let data = fixed_rows("rows", 0, no_outputs, &env).ok().unwrap();
    assert!(!data.is_empty);
    assert_eq!(data.row_count, 0);
}

#[test]
fn tags_are_merged() {
    let env = Uiua::new();
    let mut a = Array::new(vec![2], vec![1u8, 2]);
    a.meta = PersistentMeta { bits: 0b0110 };
    let mut b = Array::new(vec![2], vec![3u8, 4]);
    b.meta = PersistentMeta { bits: 0b0011 };
    let mut c = Array::new(vec![1], vec![5u8]);
    c.meta = PersistentMeta { bits: 0b1000 };
    let args = vec![Value::Byte(a), Value::Byte(b), Value::Byte(c)];
    let data = fixed_rows("rows", 1, args, &env).ok().unwrap();
    assert_eq!(data.per_meta, PersistentMeta { bits: 0b1101 });
    let mut one = Array::new(vec![1], vec![5u8]);
    one.meta = PersistentMeta { bits: 0b1000 };
    let data = fixed_rows("rows", 1, vec![Value::Byte(one)], &env).ok().unwrap();
    assert_eq!(data.per_meta, PersistentMeta { bits: 0b1000 });
    assert_eq!(data.row_count, 1);
    let x = PersistentMeta { bits: 12 };
    let y = PersistentMeta { bits: 10 };
    assert_eq!(x.xor(y), y.xor(x));
    assert_eq!(x.xor(y).xor(y), x);
    assert_eq!(PersistentMeta::xor_all(&vec![x, y, x]), y);
}

#[test]
fn tags_are_merged_in_any_order() {
    let env = Uiua::new();
    let tagged = |rows: usize, bits: u64| {
        let mut a = Array::new(vec![rows], vec![7u8; rows]);
        a.meta = PersistentMeta { bits };
        Value::Byte(a)
    };
    let one = vec![tagged(2, 1), tagged(1, 2), tagged(2, 4)];
    let other = vec![tagged(2, 4), tagged(2, 1), tagged(1, 2)];
    let first = fixed_rows("rows", 1, one, &env).ok().unwrap();
    let second = fixed_rows("rows", 1, other, &env).ok().unwrap();
    assert_eq!(first.per_meta, PersistentMeta { bits: 7 });
    assert_eq!(first.per_meta, second.per_meta);
}

#[test]
fn an_empty_operation_has_no_rows_but_proxy_rows() {
    let env = Uiua::new();
    let data = fixed_rows("rows", 1, vec![bytes(vec![0, 3], vec![])], &env).ok().unwrap();
    assert!(data.is_empty);
    assert_eq!(data.row_count, 0);
    match &data.rows[0] {
        FixedRow::Rows(rows) => assert_eq!(*rows, vec![bytes(vec![3], vec![0, 0, 0])]),
        FixedRow::Constant(_) => panic!("no rows"),
    }
}
