use uiua::array::Array;
use uiua::context::{IgnoreError, Num};
use uiua::permute::{combinations, permutations};
use uiua::runtime::Uiua;
use uiua::value::Value;

fn rows(n: u8) -> Array<u8> {
    Array::new(vec![n as usize], (0..n).map(|i| 10 * (i + 1)).collect())
}

fn picked(arr: &Array<u8>) -> Vec<Vec<u8>> {
    let k = arr.shape[1];
    arr.data.chunks(k.max(1)).map(|c| c.iter().map(|x| x / 10 - 1).collect()).collect()
}

#[test]
fn counts_of_combinations_and_permutations() {
    let env = Uiua::new();
    assert_eq!(combinations(5, 2, false, &env), Ok(10));
    assert_eq!(combinations(5, 2, true, &env), Ok(15));
    assert_eq!(permutations(5, 2, &env), Ok(20));
    assert_eq!(combinations(5, 0, false, &env), Ok(1));
    assert_eq!(combinations(5, 5, false, &env), Ok(1));
    assert_eq!(combinations(0, 0, true, &env), Ok(1));
    assert_eq!(combinations(52, 5, false, &env), Ok(2598960));
    assert_eq!(combinations(67, 33, false, &env), Ok(14226520737620288370));
    assert_eq!(permutations(5, 0, &env), Ok(1));
    assert_eq!(permutations(5, 5, &env), Ok(120));
    assert_eq!(permutations(20, 20, &env), Ok(2432902008176640000));
}

#[test]
fn counts_are_refused() {
    let env = Uiua::new();
    let err = combinations(2, 3, false, &env).unwrap_err();
    assert_eq!(err.message, "Cannot choose combinations of 3 rows from array of shape 2");
    let err = combinations(2, 3, true, &env).unwrap_err();
    assert_eq!(err.message, "Cannot choose combinations of 3 rows from array of shape 2");
    let err = permutations(2, 3, &env).unwrap_err();
    assert_eq!(err.message, "Cannot get permutations of 3 rows from array of shape 2");
    let err = combinations(100, 50, false, &env).unwrap_err();
    assert_eq!(err.message, "Combinatorial explosion");
    let err = permutations(21, 21, &env).unwrap_err();
    assert_eq!(err.message, "Combinatorial explosion");
    assert_eq!(combinations(usize::MAX, usize::MAX / 2, true, &IgnoreError), Err(()));
}

#[test]
fn choose_two_of_three() {
    let env = Uiua::new();
    let out = rows(3).choose_rows(2, false, false, 1000, &env).unwrap();
    assert_eq!(out.shape, vec![3, 2]);
    assert_eq!(out.data, vec![10, 20, 10, 30, 20, 30]);
    assert_eq!(picked(&out), vec![vec![0, 1], vec![0, 2], vec![1, 2]]);
}

#[test]
fn choose_in_the_four_orders() {
    let env = Uiua::new();
    let a = rows(4);
    assert_eq!(
        picked(&a.choose_rows(2, false, false, 0, &env).unwrap()),
        vec![vec![0, 1], vec![0, 2], vec![0, 3], vec![1, 2], vec![1, 3], vec![2, 3]]
    );
    assert_eq!(
        picked(&a.choose_rows(2, true, false, 0, &env).unwrap()),
        vec![vec![1, 0], vec![2, 0], vec![2, 1], vec![3, 0], vec![3, 1], vec![3, 2]]
    );
    assert_eq!(
        picked(&rows(3).choose_rows(2, false, true, 0, &env).unwrap()),
        vec![vec![0, 0], vec![0, 1], vec![0, 2], vec![1, 1], vec![1, 2], vec![2, 2]]
    );
    assert_eq!(
        picked(&rows(3).choose_rows(2, true, true, 0, &env).unwrap()),
        vec![vec![0, 0], vec![1, 0], vec![1, 1], vec![2, 0], vec![2, 1], vec![2, 2]]
    );
    assert_eq!(
        picked(&rows(5).choose_rows(3, false, false, 0, &env).unwrap()),
        vec![
            vec![0, 1, 2], vec![0, 1, 3], vec![0, 1, 4], vec![0, 2, 3], vec![0, 2, 4],
            vec![0, 3, 4], vec![1, 2, 3], vec![1, 2, 4], vec![1, 3, 4], vec![2, 3, 4]
        ]
    );
    assert_eq!(
        picked(&rows(4).choose_rows(3, true, true, 0, &env).unwrap()).len(),
        20
    );
}

#[test]
fn choose_special_sizes() {
    let env = Uiua::new();
    let one = rows(3).choose_rows(1, true, false, 0, &env).unwrap();
    assert_eq!(one.shape, vec![3, 1]);
    assert_eq!(one.data, vec![10, 20, 30]);
    let all = rows(3).choose_rows(3, true, false, 0, &env).unwrap();
    assert_eq!(all.shape, vec![1, 3]);
    assert_eq!(all.data, vec![10, 20, 30]);
    let but_one = rows(4).choose_rows(3, false, false, 0, &env).unwrap();
    assert_eq!(
        picked(&but_one),
        vec![vec![0, 1, 2], vec![0, 1, 3], vec![0, 2, 3], vec![1, 2, 3]]
    );
    let falling = rows(4).choose_rows(3, true, false, 0, &env).unwrap();
    assert_eq!(
        picked(&falling),
        vec![vec![2, 1, 0], vec![3, 1, 0], vec![3, 2, 0], vec![3, 2, 1]]
    );
    let none = rows(3).choose_rows(0, false, false, 10, &env).unwrap();
    assert_eq!(none.shape, vec![1, 0]);
    assert!(none.data.is_empty());
}

#[test]
fn choose_counts_through_larger_tuples() {
    let env = Uiua::new();
    let out = rows(6).choose_rows(4, false, false, 1296, &env).unwrap();
    assert_eq!(out.shape, vec![15, 4]);
    assert_eq!(picked(&out)[0], vec![0, 1, 2, 3]);
    assert_eq!(picked(&out)[1], vec![0, 1, 2, 4]);
    assert_eq!(picked(&out)[14], vec![2, 3, 4, 5]);
    let falling = rows(6).choose_rows(4, true, false, 1296, &env).unwrap();
    assert_eq!(picked(&falling)[0], vec![3, 2, 1, 0]);
    assert_eq!(picked(&falling)[14], vec![5, 4, 3, 2]);
    let err = rows(6).choose_rows(4, false, false, 1295, &env).unwrap_err();
    assert_eq!(err.message, "Maximum execution time exceeded");
    let same = rows(5).choose_rows(4, false, true, 625, &env).unwrap();
    assert_eq!(same.shape, vec![70, 4]);
}

#[test]
fn choose_keeps_the_rows_whole() {
    let env = Uiua::new();
    let arr = Array::new(vec![3, 2], vec![1u8, 2, 3, 4, 5, 6]);
    let out = arr.choose_rows(2, false, false, 0, &env).unwrap();
    assert_eq!(out.shape, vec![3, 2, 2]);
    assert_eq!(out.data, vec![1, 2, 3, 4, 1, 2, 5, 6, 3, 4, 5, 6]);
}

#[test]
fn choose_is_refused() {
    let env = Uiua::new();
    let err = Array::scalar(5u8).choose_rows(1, false, false, 0, &env).unwrap_err();
    assert_eq!(err.message, "Cannot choose from scalar");
    let err = rows(2).choose_rows(3, false, false, 0, &env).unwrap_err();
    assert_eq!(err.message, "Cannot choose combinations of 3 rows from array of shape 2");
    let err = Array::scalar(5u8).permute(1, &env).unwrap_err();
    assert_eq!(err.message, "Cannot permute scalar");
    let err = rows(2).permute(3, &env).unwrap_err();
    assert_eq!(err.message, "Cannot get permutations of 3 rows from array of shape 2");
}

#[test]
fn permute_two_of_three() {
    let env = Uiua::new();
    let out = rows(3).permute(2, &env).unwrap();
    assert_eq!(out.shape, vec![6, 2]);
    let got = picked(&out);
    assert_eq!(
        got,
        vec![vec![0, 1], vec![1, 0], vec![0, 2], vec![2, 0], vec![1, 2], vec![2, 1]]
    );
    for a in 0..3u8 {
        for b in 0..3u8 {
            if a != b {
                assert_eq!(got.iter().filter(|t| **t == vec![a, b]).count(), 1);
            }
        }
    }
}

#[test]
fn permute_all_rows() {
    let env = Uiua::new();
    let out = rows(3).permute(3, &env).unwrap();
    assert_eq!(out.shape, vec![6, 3]);
    assert_eq!(
        picked(&out),
        vec![
            vec![0, 1, 2], vec![0, 2, 1], vec![1, 0, 2],
            vec![1, 2, 0], vec![2, 1, 0], vec![2, 0, 1]
        ]
    );
    let three_of_four = rows(4).permute(3, &env).unwrap();
    assert_eq!(three_of_four.shape, vec![24, 3]);
    assert_eq!(
        picked(&three_of_four)[..6].to_vec(),
        vec![
            vec![0, 1, 2], vec![1, 0, 2], vec![2, 0, 1],
            vec![0, 2, 1], vec![1, 2, 0], vec![2, 1, 0]
        ]
    );
    let mut all = picked(&three_of_four);
    all.sort();
    all.dedup();
    assert_eq!(all.len(), 24);
}

#[test]
fn values_choose_and_permute() {
    let env = Uiua::new();
    let k = Value::Byte(Array::scalar(2));
    let five = Value::Byte(Array::scalar(5));
    match k.choose_rows(&five, false, false, 0, &env).unwrap() {
        Value::Num(a) => assert_eq!(f64::from_bits(a.data[0].bits), 10.0),
        other => panic!("not a number: {:?}", other),
    }
    match k.choose_rows(&five, false, true, 0, &env).unwrap() {
        Value::Num(a) => assert_eq!(f64::from_bits(a.data[0].bits), 15.0),
        other => panic!("not a number: {:?}", other),
    }
    match k.permute(&five, &env).unwrap() {
        Value::Num(a) => assert_eq!(f64::from_bits(a.data[0].bits), 20.0),
        other => panic!("not a number: {:?}", other),
    }
    let from = Value::Char(Array::new(vec![3], vec!['a', 'b', 'c']));
    let two = Value::Num(Array::scalar(Num::from_nat(2).unwrap()));
    assert_eq!(
        two.choose_rows(&from, false, false, 0, &env).unwrap(),
        Value::Char(Array::new(vec![3, 2], vec!['a', 'b', 'a', 'c', 'b', 'c']))
    );
    assert_eq!(
        two.permute(&from, &env).unwrap(),
        Value::Char(Array::new(
            vec![6, 2],
            vec!['a', 'b', 'b', 'a', 'a', 'c', 'c', 'a', 'b', 'c', 'c', 'b']
        ))
    );
    let bad = Value::Char(Array::scalar('x'));
    let err = bad.choose_rows(&from, false, false, 0, &env).unwrap_err();
    assert_eq!(err.message, "Choose k must be an integer");
    let err = bad.permute(&from, &env).unwrap_err();
    assert_eq!(err.message, "Permute k must be an integer");
    let err = Value::Byte(Array::scalar(60))
        .choose_rows(&Value::Byte(Array::scalar(120)), false, false, 0, &env)
        .unwrap_err();
    assert_eq!(err.message, "Combinatorial explosion");
}

#[test]
fn listings_are_as_long_as_the_counts_say() {
    let env = Uiua::new();
    for n in 0..=6u8 {
        for k in 0..=n as usize {
            for (rev, same) in [(false, false), (false, true), (true, false), (true, true)] {
                let count = combinations(n as usize, k, same, &env).unwrap();
                let out = rows(n).choose_rows(k, rev, same, 100_000, &env).unwrap();
                assert_eq!(out.shape, vec![count, k]);
                assert_eq!(out.data.len(), count * k);
            }
            let count = permutations(n as usize, k, &env).unwrap();
            let out = rows(n).permute(k, &env).unwrap();
            assert_eq!(out.shape, vec![count, k]);
            assert_eq!(out.data.len(), count * k);
        }
    }
}

#[test]
fn larger_tuples_come_in_the_order_of_nested_loops() {
    let env = Uiua::new();
    let n: u8 = 6;
    let mut rising = Vec::new();
    let mut repeating = Vec::new();
    for a in 0..n {
        for b in a..n {
            for c in b..n {
                for d in c..n {
                    repeating.push(vec![a, b, c, d]);
                    if a < b && b < c && c < d {
                        rising.push(vec![a, b, c, d]);
                    }
                }
            }
        }
    }
    let out = rows(n).choose_rows(4, false, false, 1296, &env).unwrap();
    assert_eq!(picked(&out), rising);
    let out = rows(n).choose_rows(4, false, true, 1296, &env).unwrap();
    assert_eq!(picked(&out), repeating);
}

#[test]
fn permutations_list_every_ordered_selection_once() {
    let env = Uiua::new();
    for n in 1..=5u8 {
        for k in 1..=n as usize {
            let out = rows(n).permute(k, &env).unwrap();
            let mut seen = picked(&out);
            for tuple in &seen {
                let mut rows = tuple.clone();
                rows.sort();
                rows.dedup();
                assert_eq!(rows.len(), k);
            }
            let listed = seen.len();
            seen.sort();
            seen.dedup();
            assert_eq!(seen.len(), listed);
            assert_eq!(listed, permutations(n as usize, k, &env).unwrap());
        }
    }
}
