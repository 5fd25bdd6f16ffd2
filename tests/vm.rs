use std::cell::RefCell;

use clox::chunk::{Chunk, OpCode, Span, Value};
use clox::vm::{InterpretResult, Operation, Vm};

fn num(x: f64) -> Value {
    Value { bits: x.to_bits() }
}

fn float(v: Value) -> f64 {
    f64::from_bits(v.bits)
}

fn arith(op: Operation) -> Value {
    match op {
        Operation::Add(a, b) => num(float(a) + float(b)),
        Operation::Subtract(a, b) => num(float(a) - float(b)),
        Operation::Multiply(a, b) => num(float(a) * float(b)),
        Operation::Divide(a, b) => num(float(a) / float(b)),
        Operation::Negate(a) => num(-float(a)),
    }
}

fn at(line: usize) -> Span {
    Span { line, column: 1 }
}

#[test]
fn arithmetic_program_prints_expected_value() {
    let mut chunk = Chunk::new();
    let a = chunk.add_constant(num(1.2));
    chunk.write(OpCode::Constant(a), at(1)).unwrap();
    let b = chunk.add_constant(num(3.4));
    chunk.write(OpCode::Constant(b), at(1)).unwrap();
    chunk.write(OpCode::Add, at(1)).unwrap();
    let c = chunk.add_constant(num(5.6));
    chunk.write(OpCode::Constant(c), at(1)).unwrap();
    chunk.write(OpCode::Divide, at(1)).unwrap();
    chunk.write(OpCode::Negate, at(1)).unwrap();
    chunk.write(OpCode::Return, at(1)).unwrap();
    let mut vm = Vm::new(chunk);
    let (result, value) = vm.interpret(arith);
    assert_eq!(result, InterpretResult::Success);
    assert_eq!(format!("{}", float(value.unwrap())), "-0.8214285714285714");
}

#[test]
fn operand_order_is_left_then_right() {
    let mut chunk = Chunk::new();
    let a = chunk.add_constant(num(10.0));
    let b = chunk.add_constant(num(4.0));
    chunk.write(OpCode::Constant(a), at(1)).unwrap();
    chunk.write(OpCode::Constant(b), at(1)).unwrap();
    chunk.write(OpCode::Subtract, at(1)).unwrap();
    chunk.write(OpCode::Constant(b), at(1)).unwrap();
    chunk.write(OpCode::Multiply, at(1)).unwrap();
    chunk.write(OpCode::Return, at(1)).unwrap();
    let (result, value) = Vm::new(chunk).interpret(arith);
    assert_eq!(result, InterpretResult::Success);
    assert_eq!(float(value.unwrap()), 24.0);
}

#[test]
fn missing_operand_is_runtime_error() {
    let mut chunk = Chunk::new();
    let a = chunk.add_constant(num(1.0));
    chunk.write(OpCode::Constant(a), at(1)).unwrap();
    chunk.write(OpCode::Add, at(1)).unwrap();
    chunk.write(OpCode::Return, at(1)).unwrap();
    assert_eq!(Vm::new(chunk).interpret(arith), (InterpretResult::RuntimeError, None));
}

#[test]
fn return_on_empty_stack_is_runtime_error() {
    let mut chunk = Chunk::new();
    chunk.write(OpCode::Return, at(1)).unwrap();
    assert_eq!(Vm::new(chunk).interpret(arith), (InterpretResult::RuntimeError, None));
}

#[test]
fn running_past_the_end_is_runtime_error() {
    let mut chunk = Chunk::new();
    let a = chunk.add_constant(num(2.0));
    chunk.write(OpCode::Constant(a), at(1)).unwrap();
    chunk.write(OpCode::Negate, at(1)).unwrap();
    assert_eq!(Vm::new(chunk).interpret(arith), (InterpretResult::RuntimeError, None));
    assert_eq!(Vm::new(Chunk::new()).interpret(arith), (InterpretResult::RuntimeError, None));
}

#[test]
fn constant_outside_pool_is_refused() {
    let mut chunk = Chunk::new();
    assert_eq!(chunk.write(OpCode::Constant(0), at(1)), Err(InterpretResult::CompileError));
    assert_eq!(chunk.code().len(), 0);
    assert_eq!(chunk.spans().len(), 0);
    let a = chunk.add_constant(num(1.0));
    assert_eq!(a, 0);
    assert_eq!(chunk.add_constant(num(2.0)), 1);
    assert_eq!(chunk.write(OpCode::Constant(2), at(1)), Err(InterpretResult::CompileError));
    assert_eq!(chunk.write(OpCode::Constant(1), at(3)), Ok(()));
    assert_eq!(chunk.code(), &vec![OpCode::Constant(1)]);
    assert_eq!(chunk.spans(), &vec![at(3)]);
    assert_eq!(chunk.constants().len(), 2);
}

#[test]
fn observer_sees_each_step_and_changes_nothing() {
    let build = || {
        let mut chunk = Chunk::new();
        let a = chunk.add_constant(num(2.0));
        chunk.write(OpCode::Constant(a), at(1)).unwrap();
        chunk.write(OpCode::Negate, at(1)).unwrap();
        chunk.write(OpCode::Return, at(2)).unwrap();
        chunk
    };
    let seen: RefCell<Vec<(usize, Vec<f64>)>> = RefCell::new(vec![]);
    let traced = Vm::new(build()).interpret_traced(arith, |offset: usize, stack: &[Value]| {
        seen.borrow_mut().push((offset, stack.iter().map(|v| float(*v)).collect()));
    });
    let plain = Vm::new(build()).interpret(arith);
    assert_eq!(traced, plain);
    assert_eq!(float(plain.1.unwrap()), -2.0);
    assert_eq!(seen.into_inner(), vec![(0, vec![]), (1, vec![2.0]), (2, vec![-2.0])]);
}
