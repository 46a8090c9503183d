use uiua::array::Array;
use uiua::context::Num;
use uiua::dispatch::{switch, switch_finish, try_, try_recover, SwitchPlan};
use uiua::function::{FuncSlice, Function, FunctionId, Signature};
use uiua::runtime::Uiua;
use uiua::value::Value;

fn function(name: usize, args: usize, outputs: usize) -> Function {
    Function::new(
        FunctionId::Named(name),
        Signature::new(args, outputs),
        FuncSlice { start: name, len: 1 },
        name as u64,
    )
}

fn byte(b: u8) -> Value {
    Value::Byte(Array::scalar(b))
}

fn bytes(shape: Vec<usize>, data: Vec<u8>) -> Value {
    Value::Byte(Array::new(shape, data))
}

fn branches(env: &mut Uiua, list: &[Function]) {
    for f in list {
        env.push_function(*f);
    }
}

#[test]
fn scalar_switch_calls_the_chosen_branch() {
    let (f0, f1, f2) = (function(0, 1, 1), function(1, 1, 1), function(2, 1, 1));
    let mut env = Uiua::new();
    branches(&mut env, &[function(9, 0, 0), f0, f1, f2]);
    env.push(byte(42));
    env.push(byte(1));
    match switch(3, Signature::new(1, 1), false, &mut env).unwrap() {
        SwitchPlan::Call { function, copied } => {
            assert_eq!(function, f1);
            assert_eq!(copied, None);
        }
        SwitchPlan::Rows(_) => panic!("scalar selector"),
    }
    assert_eq!(env.stack, vec![byte(42)]);
    assert_eq!(env.function_stack, vec![function(9, 0, 0)]);
}

#[test]
fn scalar_switch_out_of_bounds() {
    let mut env = Uiua::new();
    branches(&mut env, &[function(0, 1, 1), function(1, 1, 1), function(2, 1, 1)]);
    env.push(byte(42));
    env.push(byte(3));
    let err = switch(3, Signature::new(1, 1), false, &mut env).err().unwrap();
    assert_eq!(err.message, "Switch index 3 is out of bounds for switch of size 3");
    assert!(!err.fill);
}

#[test]
fn scalar_switch_discards_unused_arguments() {
    let f0 = function(0, 2, 1);
    let f1 = function(1, 1, 1);
    let mut env = Uiua::new();
    branches(&mut env, &[f0, f1]);
    env.push(byte(7));
    env.push(byte(10));
    env.push(byte(20));
    env.push(Value::Num(Array::scalar(Num::from_nat(1).unwrap())));
    match switch(2, Signature::new(2, 1), true, &mut env).unwrap() {
        SwitchPlan::Call { function, copied } => {
            assert_eq!(function, f1);
            assert_eq!(env.stack, vec![byte(7), byte(20)]);
            switch_finish(copied, &mut env);
        }
        SwitchPlan::Rows(_) => panic!("scalar selector"),
    }
    assert_eq!(env.under_stack.len(), 1);
    assert!(env.function_stack.is_empty());
}

#[test]
fn switch_is_refused() {
    let mut empty = Uiua::new();
    let err = switch(1, Signature::new(0, 0), false, &mut empty).err().unwrap();
    assert_eq!(err.message, "Stack was empty when getting switch index");

    let mut chars = Uiua::new();
    chars.push(Value::Char(Array::scalar('a')));
    let err = switch(1, Signature::new(0, 0), false, &mut chars).err().unwrap();
    assert_eq!(err.message, "Switch index must be an array of naturals");

    let mut missing = Uiua::new();
    missing.push_function(function(0, 0, 0));
    missing.push(byte(1));
    let err = switch(2, Signature::new(0, 0), false, &mut missing).err().unwrap();
    assert_eq!(
        err.message,
        "Function stack was empty when getting switch function. This is a bug in the interpreter."
    );

    let mut unfit = Uiua::new();
    branches(&mut unfit, &[function(0, 1, 1), function(1, 1, 1)]);
    unfit.push(bytes(vec![3], vec![1, 2, 3]));
    unfit.push(bytes(vec![2], vec![0, 1]));
    let err = switch(2, Signature::new(1, 1), false, &mut unfit).err().unwrap();
    assert_eq!(
        err.message,
        "The selector's shape [2] is not compatible with the argument 1's shape [3]"
    );

    let mut short = Uiua::new();
    branches(&mut short, &[function(0, 2, 1), function(1, 2, 1)]);
    short.push(bytes(vec![2], vec![1, 2]));
    short.push(bytes(vec![2], vec![0, 1]));
    let err = switch(2, Signature::new(2, 1), false, &mut short).err().unwrap();
    assert_eq!(err.message, "Stack was empty when getting argument 2");
}

fn call(env: &mut Uiua, f: Function) {
    let x = match env.pop("argument").unwrap() {
        Value::Byte(a) => a.data[0],
        other => panic!("not a byte: {:?}", other),
    };
    let y = if f.id == FunctionId::Named(0) { x + 1 } else { x - 1 };
    env.push(byte(y));
}

#[test]
fn array_switch_calls_a_branch_for_each_element() {
    let (succ, pred) = (function(0, 1, 1), function(1, 1, 1));
    let mut env = Uiua::new();
    branches(&mut env, &[succ, pred]);
    env.push(byte(99));
    env.push(bytes(vec![2], vec![10, 20]));
    env.push(bytes(vec![2], vec![0, 1]));
    let mut plan = match switch(2, Signature::new(1, 1), true, &mut env).unwrap() {
        SwitchPlan::Rows(plan) => plan,
        SwitchPlan::Call { .. } => panic!("array selector"),
    };
    assert_eq!(env.stack, vec![byte(99)]);
    let mut called = Vec::new();
    while let Some(f) = plan.next(&mut env) {
        called.push(f);
        call(&mut env, f);
        plan.collect(&mut env).unwrap();
    }
    assert_eq!(called, vec![succ, pred]);
    plan.finish(&mut env).unwrap();
    assert_eq!(env.stack, vec![byte(99), bytes(vec![2], vec![11, 19])]);
    assert_eq!(env.under_stack, vec![bytes(vec![2], vec![0, 1])]);
    assert!(env.function_stack.is_empty());
}

#[test]
fn array_switch_keeps_trailing_shapes() {
    let (succ, pred) = (function(0, 1, 1), function(1, 1, 1));
    let mut env = Uiua::new();
    branches(&mut env, &[succ, pred]);
    env.push(bytes(vec![2, 2], vec![1, 2, 3, 4]));
    env.push(bytes(vec![2, 2], vec![0, 1, 1, 0]));
    let mut plan = match switch(2, Signature::new(1, 1), false, &mut env).unwrap() {
        SwitchPlan::Rows(plan) => plan,
        SwitchPlan::Call { .. } => panic!("array selector"),
    };
    while let Some(f) = plan.next(&mut env) {
        call(&mut env, f);
        plan.collect(&mut env).unwrap();
    }
    plan.finish(&mut env).unwrap();
    assert_eq!(env.stack, vec![bytes(vec![2, 2], vec![2, 1, 2, 5])]);
    assert!(env.under_stack.is_empty());
}

#[test]
fn array_switch_gives_each_branch_its_arguments() {
    let both = function(0, 2, 1);
    let one = function(1, 1, 1);
    let mut env = Uiua::new();
    branches(&mut env, &[both, one]);
    env.push(bytes(vec![2], vec![5, 6]));
    env.push(bytes(vec![2], vec![7, 8]));
    env.push(bytes(vec![2], vec![0, 1]));
    let plan = match switch(2, Signature::new(2, 1), false, &mut env).unwrap() {
        SwitchPlan::Rows(plan) => plan,
        SwitchPlan::Call { .. } => panic!("array selector"),
    };
    assert_eq!(plan.next(&mut env), Some(both));
    assert_eq!(env.stack, vec![byte(5), byte(7)]);
    let mut second = plan;
    env.stack.clear();
    env.push(byte(0));
    second.collect(&mut env).unwrap();
    assert_eq!(second.next(&mut env), Some(one));
    assert_eq!(env.stack, vec![byte(8)]);
    let err_env = &mut Uiua::new();
    let err = second.collect(err_env).unwrap_err();
    assert_eq!(err.message, "Stack was empty when getting switch output");
}

#[test]
fn try_prepares_and_recovers() {
    let tried = function(0, 2, 1);
    let handler = function(1, 3, 1);
    let mut env = Uiua::new();
    branches(&mut env, &[handler, tried]);
    env.push(byte(1));
    env.push(byte(2));
    env.push(byte(3));
    let plan = try_(&mut env).unwrap();
    assert_eq!(plan.tried, tried);
    assert_eq!(plan.handler, handler);
    assert_eq!(plan.backup, vec![byte(2), byte(3)]);
    assert_eq!(env.stack, vec![byte(1), byte(2), byte(3)]);
    assert!(env.function_stack.is_empty());
    env.stack.truncate(1);
    let next = try_recover(plan, Value::Char(Array::new(vec![2], vec!['n', 'o'])), &mut env);
    assert_eq!(next, handler);
    assert_eq!(
        env.stack,
        vec![byte(1), Value::Char(Array::new(vec![2], vec!['n', 'o'])), byte(2), byte(3)]
    );
}

#[test]
fn try_with_a_smaller_handler() {
    let tried = function(0, 2, 1);
    let handler = function(1, 1, 1);
    let mut env = Uiua::new();
    branches(&mut env, &[handler, tried]);
    env.push(byte(2));
    env.push(byte(3));
    let plan = try_(&mut env).unwrap();
    assert_eq!(plan.backup, vec![byte(3)]);
    env.stack.clear();
    let next = try_recover(plan, byte(0), &mut env);
    assert_eq!(next, handler);
    assert_eq!(env.stack, vec![byte(3)]);
}

#[test]
fn try_is_refused() {
    let mut none = Uiua::new();
    assert_eq!(try_(&mut none).err().unwrap().message, "Function stack was empty");
    let mut one = Uiua::new();
    one.push_function(function(0, 0, 0));
    assert_eq!(try_(&mut one).err().unwrap().message, "Function stack was empty");
    let mut short = Uiua::new();
    branches(&mut short, &[function(1, 0, 0), function(0, 3, 1)]);
    short.push(byte(1));
    short.push(byte(2));
    let err = try_(&mut short).err().unwrap();
    assert_eq!(err.message, "Stack was empty when getting argument 3");
    assert!(short.stack.is_empty());
}

#[test]
fn a_refused_switch_leaves_the_stacks_as_far_as_it_came() {
    let (f0, f1, f2) = (function(0, 1, 1), function(1, 1, 1), function(2, 1, 1));
    let mut env = Uiua::new();
    branches(&mut env, &[f0, f1, f2]);
    env.push(byte(42));
    env.push(byte(3));
    assert!(switch(3, Signature::new(1, 1), true, &mut env).is_err());
    assert_eq!(env.stack, vec![byte(42)]);
    assert_eq!(env.function_stack, vec![f0, f1, f2]);
    assert!(env.under_stack.is_empty());

    let mut chars = Uiua::new();
    branches(&mut chars, &[f0]);
    chars.push(byte(7));
    chars.push(Value::Char(Array::scalar('a')));
    assert!(switch(1, Signature::new(1, 1), false, &mut chars).is_err());
    assert_eq!(chars.stack, vec![byte(7)]);
    assert_eq!(chars.function_stack, vec![f0]);

    let mut excess = Uiua::new();
    branches(&mut excess, &[function(9, 0, 0), function(0, 0, 1)]);
    excess.push(byte(0));
    let err = switch(1, Signature::new(0, 0), false, &mut excess).err().unwrap();
    assert_eq!(err.message, "Stack was empty when discarding excess switch arguments.");
    assert!(excess.stack.is_empty());
    assert_eq!(excess.function_stack, vec![function(9, 0, 0)]);

    let mut unfit = Uiua::new();
    branches(&mut unfit, &[f0, f1]);
    unfit.push(byte(5));
    unfit.push(bytes(vec![3], vec![1, 2, 3]));
    unfit.push(bytes(vec![2, 1], vec![4, 5]));
    unfit.push(bytes(vec![2], vec![0, 1]));
    let err = switch(2, Signature::new(3, 1), false, &mut unfit).err().unwrap();
    assert_eq!(
        err.message,
        "The selector's shape [2] is not compatible with the argument 2's shape [3]"
    );
    assert_eq!(unfit.stack, vec![byte(5)]);
    assert_eq!(unfit.function_stack, vec![f0, f1]);

    let mut short = Uiua::new();
    branches(&mut short, &[f0, f1]);
    short.push(bytes(vec![2], vec![1, 2]));
    short.push(bytes(vec![2], vec![0, 1]));
    assert!(switch(2, Signature::new(2, 1), false, &mut short).is_err());
    assert!(short.stack.is_empty());
    assert_eq!(short.function_stack, vec![f0, f1]);
}

#[test]
fn an_array_switch_looks_at_its_arguments_before_its_branches() {
    let f0 = function(0, 1, 1);
    let mut unfit = Uiua::new();
    branches(&mut unfit, &[f0]);
    unfit.push(bytes(vec![3], vec![1, 2, 3]));
    unfit.push(bytes(vec![2], vec![0, 1]));
    let err = switch(2, Signature::new(1, 1), false, &mut unfit).err().unwrap();
    assert_eq!(
        err.message,
        "The selector's shape [2] is not compatible with the argument 1's shape [3]"
    );
    assert!(unfit.stack.is_empty());
    assert_eq!(unfit.function_stack, vec![f0]);

    let mut none = Uiua::new();
    branches(&mut none, &[f0]);
    none.push(bytes(vec![2], vec![0, 1]));
    let err = switch(2, Signature::new(1, 1), false, &mut none).err().unwrap();
    assert_eq!(err.message, "Stack was empty when getting argument 1");

    let mut few = Uiua::new();
    branches(&mut few, &[f0]);
    few.push(byte(9));
    few.push(bytes(vec![2], vec![7, 8]));
    few.push(bytes(vec![2], vec![0, 1]));
    let err = switch(2, Signature::new(1, 1), false, &mut few).err().unwrap();
    assert_eq!(
        err.message,
        "Function stack was empty when getting switch function. This is a bug in the interpreter."
    );
    assert_eq!(few.stack, vec![byte(9)]);
    assert_eq!(few.function_stack, vec![f0]);

    let mut scalar = Uiua::new();
    branches(&mut scalar, &[f0]);
    scalar.push(byte(9));
    scalar.push(byte(1));
    let err = switch(2, Signature::new(1, 1), false, &mut scalar).err().unwrap();
    assert_eq!(
        err.message,
        "Function stack was empty when getting switch function. This is a bug in the interpreter."
    );
    assert_eq!(scalar.stack, vec![byte(9)]);
    assert_eq!(scalar.function_stack, vec![f0]);
}
