use uiua::array::Array;
use uiua::context::Num;
use uiua::function::{FuncSlice, Function, FunctionId, Primitive, Signature};
use uiua::runtime::Uiua;
use uiua::tuples::{tuples, TuplesPlan};
use uiua::value::Value;

fn function(id: FunctionId, args: usize, outputs: usize) -> Function {
    Function::new(id, Signature::new(args, outputs), FuncSlice { start: 0, len: 1 }, 0)
}

fn byte(b: u8) -> Value {
    Value::Byte(Array::scalar(b))
}

fn bytes(shape: Vec<usize>, data: Vec<u8>) -> Value {
    Value::Byte(Array::new(shape, data))
}

#[test]
fn tuples_checks_the_signature() {
    let mut env = Uiua::new();
    assert_eq!(tuples(&mut env).err().unwrap().message, "Function stack was empty");
    env.push_function(function(FunctionId::Named(0), 1, 2));
    assert_eq!(
        tuples(&mut env).err().unwrap().message,
        "tuples's function must have 1 output, but its signature is |1.2"
    );
    env.push_function(function(FunctionId::Named(0), 3, 1));
    assert_eq!(
        tuples(&mut env).err().unwrap().message,
        "tuples's function must have 1 or 2 arguments, but its signature is |3"
    );
    env.push_function(function(FunctionId::Named(0), 1, 1));
    assert_eq!(
        tuples(&mut env).err().unwrap().message,
        "Stack was empty when getting argument 1"
    );
    env.push_function(function(FunctionId::Named(0), 2, 1));
    env.push(byte(1));
    assert_eq!(
        tuples(&mut env).err().unwrap().message,
        "Stack was empty when getting argument 2"
    );
    env.push_function(function(FunctionId::Named(0), 2, 1));
    env.push(byte(1));
    env.push(byte(2));
    assert_eq!(tuples(&mut env).err().unwrap().message, "Cannot get tuples of scalar");
}

#[test]
fn prefixes_are_given_to_the_function() {
    let mut env = Uiua::new();
    env.fills.byte = Some(9);
    env.push_function(function(FunctionId::Named(0), 1, 1));
    env.push(bytes(vec![3], vec![10, 20, 30]));
    let mut run = match tuples(&mut env).ok().unwrap() {
        TuplesPlan::Prefixes(run) => run,
        _ => panic!("one argument"),
    };
    assert_eq!(env.fills.byte, None);
    let mut seen = Vec::new();
    while let Some(_) = run.next(&mut env) {
        let prefix = env.pop("prefix").unwrap();
        seen.push(prefix.clone());
        env.push(byte(prefix.row_count() as u8));
        run.collect(&mut env).unwrap();
    }
    assert_eq!(
        seen,
        vec![
            bytes(vec![0], vec![]),
            bytes(vec![1], vec![10]),
            bytes(vec![2], vec![10, 20]),
            bytes(vec![3], vec![10, 20, 30])
        ]
    );
    run.finish(&mut env).unwrap();
    assert_eq!(env.stack, vec![bytes(vec![4], vec![0, 1, 2, 3])]);
    assert_eq!(env.fills.byte, Some(9));
}

#[test]
fn prefixes_of_an_array_without_rows() {
    let mut env = Uiua::new();
    env.push_function(function(FunctionId::Named(0), 1, 1));
    env.push(bytes(vec![0, 2], vec![]));
    let mut run = match tuples(&mut env).ok().unwrap() {
        TuplesPlan::Prefixes(run) => run,
        _ => panic!("one argument"),
    };
    assert!(run.next(&mut env).is_some());
    assert_eq!(env.stack, vec![bytes(vec![1, 2], vec![0, 0])]);
    run.collect(&mut env).unwrap();
    assert!(run.next(&mut env).is_none());
    run.finish(&mut env).unwrap();
    assert_eq!(env.stack, vec![bytes(vec![0, 1, 2], vec![])]);
}

#[test]
fn comparisons_list_combinations_without_a_call() {
    for (prim, want) in [
        (Primitive::Lt, vec![10, 20, 10, 30, 20, 30]),
        (Primitive::Gt, vec![20, 10, 30, 10, 30, 20]),
        (Primitive::Le, vec![10, 10, 10, 20, 10, 30, 20, 20, 20, 30, 30, 30]),
        (Primitive::Ne, vec![10, 20, 20, 10, 10, 30, 30, 10, 20, 30, 30, 20]),
    ] {
        let mut env = Uiua::new();
        env.push_function(function(FunctionId::Primitive(prim), 2, 1));
        env.push(bytes(vec![3], vec![10, 20, 30]));
        env.push(byte(2));
        assert!(matches!(tuples(&mut env), Ok(TuplesPlan::Done)));
        let rows = want.len() / 2;
        assert_eq!(env.stack, vec![bytes(vec![rows, 2], want)]);
    }
}

#[test]
fn tuples_of_no_row_and_of_one_row() {
    let f = function(FunctionId::Named(0), 2, 1);
    let mut env = Uiua::new();
    env.push_function(f);
    env.push(bytes(vec![3, 2], vec![1, 2, 3, 4, 5, 6]));
    env.push(byte(0));
    assert!(matches!(tuples(&mut env), Ok(TuplesPlan::Done)));
    assert_eq!(env.stack, vec![bytes(vec![1, 0, 2], vec![])]);
    let mut env = Uiua::new();
    env.push_function(f);
    env.push(bytes(vec![3, 2], vec![1, 2, 3, 4, 5, 6]));
    env.push(byte(1));
    assert!(matches!(tuples(&mut env), Ok(TuplesPlan::Done)));
    assert_eq!(env.stack, vec![bytes(vec![3, 1, 2], vec![1, 2, 3, 4, 5, 6])]);
    let mut env = Uiua::new();
    env.push_function(f);
    env.push(bytes(vec![3], vec![1, 2, 3]));
    env.push(Value::Char(Array::scalar('k')));
    assert_eq!(
        tuples(&mut env).err().unwrap().message,
        "Tuple size must be a natural number"
    );
}

#[test]
fn pairs_follow_the_table() {
    let mut env = Uiua::new();
    env.push_function(function(FunctionId::Named(0), 2, 1));
    env.push(bytes(vec![3], vec![10, 20, 30]));
    env.push(byte(2));
    let run = match tuples(&mut env).ok().unwrap() {
        TuplesPlan::Table(run) => run,
        _ => panic!("pairs"),
    };
    assert_eq!(env.stack, vec![bytes(vec![3], vec![0, 1, 2]), bytes(vec![3], vec![0, 1, 2])]);
    env.stack.clear();
    env.push(bytes(vec![3, 3], vec![0, 1, 0, 0, 0, 2, 0, 0, 0]));
    run.finish(&mut env).unwrap();
    assert_eq!(env.stack, vec![bytes(vec![3, 2], vec![20, 10, 30, 20, 30, 20])]);
}

#[test]
fn tables_are_refused() {
    let start = |table: Value| {
        let mut env = Uiua::new();
        env.push_function(function(FunctionId::Named(0), 2, 1));
        env.push(bytes(vec![2], vec![10, 20]));
        env.push(byte(2));
        let run = match tuples(&mut env).ok().unwrap() {
            TuplesPlan::Table(run) => run,
            _ => panic!("pairs"),
        };
        env.stack.clear();
        env.push(table);
        run.finish(&mut env).err().unwrap().message
    };
    assert_eq!(
        start(bytes(vec![2, 2, 2], vec![0; 8])),
        "tuples's function must return a scalar, but the result is rank-1"
    );
    assert_eq!(
        start(Value::Char(Array::new(vec![2, 2], vec!['a'; 4]))),
        "tuples's function must return an array of naturals"
    );
    assert_eq!(
        start(bytes(vec![2], vec![0, 1])),
        "tuples's function must return an array of naturals"
    );
}

fn natural(v: Value) -> usize {
    match v {
        Value::Num(a) => a.data[0].as_nat().unwrap(),
        Value::Byte(a) => a.data[0] as usize,
        other => panic!("not a number: {:?}", other),
    }
}

#[test]
fn larger_tuples_ask_the_function() {
    let mut env = Uiua::new();
    env.push_function(function(FunctionId::Named(0), 2, 1));
    env.push(bytes(vec![4], vec![10, 20, 30, 40]));
    env.push(byte(3));
    let mut run = match tuples(&mut env).ok().unwrap() {
        TuplesPlan::Sift(run) => run,
        _ => panic!("triples"),
    };
    let mut calls = 0;
    while let Some(_) = run.next(&mut env).unwrap() {
        let j = natural(env.pop("j").unwrap());
        let i = natural(env.pop("i").unwrap());
        calls += 1;
        env.push(byte((i < j) as u8));
        run.answer(&mut env).unwrap();
    }
    assert!(calls >= 64);
    run.finish(&mut env).unwrap();
    assert_eq!(
        env.stack,
        vec![bytes(vec![4, 3], vec![10, 20, 30, 10, 20, 40, 10, 30, 40, 20, 30, 40])]
    );
}

#[test]
fn larger_tuples_are_refused() {
    let mut env = Uiua::new();
    env.execution_limit = 5;
    env.push_function(function(FunctionId::Named(0), 2, 1));
    env.push(bytes(vec![3], vec![10, 20, 30]));
    env.push(Value::Num(Array::scalar(Num::from_nat(3).unwrap())));
    let mut run = match tuples(&mut env).ok().unwrap() {
        TuplesPlan::Sift(run) => run,
        _ => panic!("triples"),
    };
    assert!(run.next(&mut env).unwrap().is_some());
    env.stack.clear();
    env.push(byte(7));
    assert_eq!(
        run.answer(&mut env).err().unwrap().message,
        "tuples of 3 or more must return a boolean"
    );
    let mut steps = 0;
    let message = loop {
        assert!(run.next(&mut env).unwrap().is_some());
        env.stack.clear();
        env.push(byte(0));
        steps += 1;
        if let Err(e) = run.answer(&mut env) {
            break e.message;
        }
    };
    assert_eq!(message, "Maximum execution time exceeded");
    assert_eq!(steps, 5);
}

#[test]
fn giving_up_the_prefixes_sets_the_fills_again() {
    let mut env = Uiua::new();
    env.fills.byte = Some(9);
    env.push_function(function(FunctionId::Named(0), 1, 1));
    env.push(bytes(vec![2], vec![1, 2]));
    let mut run = match tuples(&mut env).ok().unwrap() {
        TuplesPlan::Prefixes(run) => run,
        _ => panic!("one argument"),
    };
    assert!(run.next(&mut env).is_some());
    assert_eq!(env.fills.byte, None);
    env.stack.clear();
    assert_eq!(
        run.collect(&mut env).err().unwrap().message,
        "Stack was empty when getting tuples's function result"
    );
    run.abandon(&mut env);
    assert_eq!(env.fills.byte, Some(9));
    assert!(env.stack.is_empty());
}

#[test]
fn results_that_do_not_join_set_the_fills_again() {
    let mut env = Uiua::new();
    env.fills.byte = Some(9);
    env.push_function(function(FunctionId::Named(0), 1, 1));
    env.push(bytes(vec![1], vec![1]));
    let mut run = match tuples(&mut env).ok().unwrap() {
        TuplesPlan::Prefixes(run) => run,
        _ => panic!("one argument"),
    };
    assert!(run.next(&mut env).is_some());
    env.pop("prefix").unwrap();
    env.push(byte(1));
    run.collect(&mut env).unwrap();
    assert!(run.next(&mut env).is_some());
    env.pop("prefix").unwrap();
    env.push(bytes(vec![2], vec![1, 2]));
    run.collect(&mut env).unwrap();
    assert!(run.next(&mut env).is_none());
    assert!(run.finish(&mut env).is_err());
    assert_eq!(env.fills.byte, Some(9));
    assert!(env.stack.is_empty());
}

#[test]
fn an_array_without_rows_awaits_the_result_of_rows() {
    let mut env = Uiua::new();
    env.push_function(function(FunctionId::Named(0), 1, 1));
    env.push(bytes(vec![0], vec![]));
    let mut run = match tuples(&mut env).ok().unwrap() {
        TuplesPlan::Prefixes(run) => run,
        _ => panic!("one argument"),
    };
    assert!(run.next(&mut env).is_some());
    env.stack.clear();
    assert_eq!(
        run.collect(&mut env).err().unwrap().message,
        "Stack was empty when getting rows' function result"
    );
}

#[test]
fn a_refused_listing_puts_nothing_on_the_stack() {
    for prim in [Primitive::Lt, Primitive::Le, Primitive::Gt, Primitive::Ge, Primitive::Ne] {
        let mut env = Uiua::new();
        env.push_function(function(FunctionId::Primitive(prim), 2, 1));
        env.push(byte(77));
        env.push(bytes(vec![3], vec![10, 20, 30]));
        env.push(byte(5));
        let err = tuples(&mut env).err().unwrap();
        assert!(err.message.starts_with("Cannot "));
        assert!(!err.fill);
        assert_eq!(env.stack, vec![byte(77)]);
        assert!(env.function_stack.is_empty());
    }
    let mut env = Uiua::new();
    env.push_function(function(FunctionId::Named(0), 2, 1));
    env.push(byte(77));
    env.push(byte(1));
    env.push(byte(2));
    assert_eq!(tuples(&mut env).err().unwrap().message, "Cannot get tuples of scalar");
    assert_eq!(env.stack, vec![byte(77)]);
    let mut one = Uiua::new();
    one.push_function(function(FunctionId::Named(0), 2, 1));
    one.push(byte(2));
    assert!(tuples(&mut one).is_err());
    assert!(one.stack.is_empty());
}
