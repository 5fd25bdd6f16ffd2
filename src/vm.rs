use vstd::prelude::*;

use crate::chunk::{Chunk, ChunkView, OpCode, Value};

verus! {

/// The terminal status of one run.
#[derive(Debug, PartialEq, Eq, Structural, Clone, Copy)]
pub enum InterpretResult {
    Success,
    SyntaxError,
    CompileError,
    RuntimeError,
}

/// An arithmetic request that the machine hands to its host: the operands in
/// order, left first.
#[derive(Debug, PartialEq, Eq, Structural, Clone, Copy)]
pub enum Operation {
    Add(Value, Value),
    Subtract(Value, Value),
    Multiply(Value, Value),
    Divide(Value, Value),
    Negate(Value),
}

/// The outcome of running from instruction `ip` with operand stack `stack`,
/// where `f` gives the result of each arithmetic operation. A missing
/// operand, an out-of-range constant or running past the last instruction
/// ends the run with `RuntimeError`; `Return` ends it with the value it pops.
pub open spec fn run(
    code: Seq<OpCode>,
    constants: Seq<Value>,
    ip: int,
    stack: Seq<Value>,
    f: spec_fn(Operation) -> Value,
) -> (InterpretResult, Option<Value>)
    decreases code.len() - ip,
{
    if ip < 0 || ip >= code.len() {
        (InterpretResult::RuntimeError, None)
    } else {
        let n = stack.len();
        let binary = |op: spec_fn(Value, Value) -> Operation|
            if n >= 2 {
                run(
                    code,
                    constants,
                    ip + 1,
                    stack.subrange(0, n - 2).push(f(op(stack[n - 2], stack[n - 1]))),
                    f,
                )
            } else {
                (InterpretResult::RuntimeError, None)
            };
        match code[ip] {
            OpCode::Constant(i) => if i < constants.len() {
                run(code, constants, ip + 1, stack.push(constants[i as int]), f)
            } else {
                (InterpretResult::RuntimeError, None)
            },
            OpCode::Add => binary(|a, b| Operation::Add(a, b)),
            OpCode::Subtract => binary(|a, b| Operation::Subtract(a, b)),
            OpCode::Multiply => binary(|a, b| Operation::Multiply(a, b)),
            OpCode::Divide => binary(|a, b| Operation::Divide(a, b)),
            OpCode::Negate => if n >= 1 {
                run(code, constants, ip + 1, stack.drop_last().push(f(Operation::Negate(stack[n - 1]))), f)
            } else {
                (InterpretResult::RuntimeError, None)
            },
            OpCode::Return => if n >= 1 {
                (InterpretResult::Success, Some(stack[n - 1]))
            } else {
                (InterpretResult::RuntimeError, None)
            },
        }
    }
}

/// The single result that a deterministic host function gives on `op`.
pub open spec fn host_result<F: Fn(Operation) -> Value>(arith: F) -> spec_fn(Operation) -> Value {
    |op: Operation| choose|v: Value| arith.ensures((op,), v)
}

/// A host function that accepts every operation and gives one result for each.
pub open spec fn host_ready<F: Fn(Operation) -> Value>(arith: F) -> bool {
    &&& forall|op: Operation| arith.requires((op,))
    &&& forall|op: Operation, v: Value, w: Value|
        arith.ensures((op,), v) && arith.ensures((op,), w) ==> v == w
}

pub struct VmView {
    pub chunk: ChunkView,
    pub ip: nat,
    pub stack: Seq<Value>,
}

/// A machine that owns a chunk, an instruction pointer and an operand stack.
pub struct Vm {
    chunk: Chunk,
    ip: usize,
    stack: Vec<Value>,
}

impl View for Vm {
    type V = VmView;

    closed spec fn view(&self) -> VmView {
        VmView { chunk: self.chunk@, ip: self.ip as nat, stack: self.stack@ }
    }
}

impl Vm {
    pub fn new(chunk: Chunk) -> (r: Self)
        ensures
            r@.chunk == chunk@,
            r@.ip == 0,
            r@.stack.len() == 0,
    {
        Vm { chunk, ip: 0, stack: Vec::new() }
    }

    /// Runs the chunk from the current instruction until `Return` completes
    /// (`Success`, with the value it pops) or the run faults (`RuntimeError`,
    /// no value). `arith` computes each arithmetic operation.
    pub fn interpret<F: Fn(Operation) -> Value>(&mut self, arith: F) -> (r: (InterpretResult, Option<Value>))
        requires
            host_ready(arith),
        ensures
            r == run(
                old(self)@.chunk.code,
                old(self)@.chunk.constants,
                old(self)@.ip as int,
                old(self)@.stack,
                host_result(arith),
            ),
            final(self)@.chunk == old(self)@.chunk,
    {
        self.run(arith, |_offset: usize, _stack: &[Value]| {})
    }

    /// Runs as `interpret` does, and before each instruction executes hands
    /// `observe` its offset and the operand stack. What `observe` does has no
    /// effect on the run or its outcome.
    pub fn interpret_traced<F: Fn(Operation) -> Value, G: Fn(usize, &[Value])>(
        &mut self,
        arith: F,
        observe: G,
    ) -> (r: (InterpretResult, Option<Value>))
        requires
            host_ready(arith),
            forall|offset: usize, stack: &[Value]| observe.requires((offset, stack)),
        ensures
            r == run(
                old(self)@.chunk.code,
                old(self)@.chunk.constants,
                old(self)@.ip as int,
                old(self)@.stack,
                host_result(arith),
            ),
            final(self)@.chunk == old(self)@.chunk,
    {
        self.run(arith, observe)
    }

    fn run<F: Fn(Operation) -> Value, G: Fn(usize, &[Value])>(&mut self, arith: F, observe: G) -> (r: (
        InterpretResult,
        Option<Value>,
    ))
        requires
            host_ready(arith),
            forall|offset: usize, stack: &[Value]| observe.requires((offset, stack)),
        ensures
            r == run(
                old(self)@.chunk.code,
                old(self)@.chunk.constants,
                old(self)@.ip as int,
                old(self)@.stack,
                host_result(arith),
            ),
            final(self)@.chunk == old(self)@.chunk,
    {
        let ghost f = host_result(arith);
        let ghost code = self.chunk@.code;
        let ghost constants = self.chunk@.constants;
        let ghost goal = run(code, constants, self.ip as int, self.stack@, f);
        let code_len = self.chunk.code().len();
        let n_constants = self.chunk.constants().len();
        loop
            invariant
                host_ready(arith),
                forall|offset: usize, stack: &[Value]| observe.requires((offset, stack)),
                f == host_result(arith),
                self.chunk@ == old(self)@.chunk,
                code == self.chunk@.code,
                constants == self.chunk@.constants,
                code_len == code.len(),
                n_constants == constants.len(),
                run(code, constants, self.ip as int, self.stack@, f) == goal,
                goal == run(
                    old(self)@.chunk.code,
                    old(self)@.chunk.constants,
                    old(self)@.ip as int,
                    old(self)@.stack,
                    f,
                ),
            decreases code.len() - self.ip,
        {
            if self.ip >= code_len {
                return (InterpretResult::RuntimeError, None);
            }
            observe(self.ip, self.stack.as_slice());
            let instruction = self.chunk.code()[self.ip];
            let ghost ip0 = self.ip as int;
            let ghost s0 = self.stack@;
            self.ip = self.ip + 1;
            let n = self.stack.len();
            match instruction {
                OpCode::Constant(index) => {
                    if index >= n_constants {
                        return (InterpretResult::RuntimeError, None);
                    }
                    let value = self.chunk.constants()[index];
                    self.stack.push(value);
                    proof {
                        assert(run(code, constants, ip0, s0, f) == run(code, constants, ip0 + 1, self.stack@, f));
                    }
                },
                OpCode::Negate => {
                    if n < 1 {
                        return (InterpretResult::RuntimeError, None);
                    }
                    let value = self.stack.pop().unwrap();
                    let result = arith(Operation::Negate(value));
                    proof {
                        assert(f(Operation::Negate(value)) == result);
                    }
                    self.stack.push(result);
                    proof {
                        assert(self.stack@ =~= s0.drop_last().push(f(Operation::Negate(s0[n - 1]))));
                        assert(run(code, constants, ip0, s0, f) == run(code, constants, ip0 + 1, self.stack@, f));
                    }
                },
                OpCode::Return => {
                    if n < 1 {
                        return (InterpretResult::RuntimeError, None);
                    }
                    let value = self.stack.pop().unwrap();
                    return (InterpretResult::Success, Some(value));
                },
                _ => {
                    if n < 2 {
                        return (InterpretResult::RuntimeError, None);
                    }
                    let right = self.stack.pop().unwrap();
                    let left = self.stack.pop().unwrap();
                    let op = match instruction {
                        OpCode::Add => Operation::Add(left, right),
                        OpCode::Subtract => Operation::Subtract(left, right),
                        OpCode::Multiply => Operation::Multiply(left, right),
                        _ => Operation::Divide(left, right),
                    };
                    let result = arith(op);
                    proof {
                        assert(f(op) == result);
                    }
                    self.stack.push(result);
                    proof {
                        assert(self.stack@ =~= s0.subrange(0, n - 2).push(f(op)));
                        assert(run(code, constants, ip0, s0, f) == run(code, constants, ip0 + 1, self.stack@, f));
                    }
                },
            }
        }
    }
}

/// Whether, from instruction `ip` with `depth` operands on the stack, every
/// instruction finds the operands and constants it needs until a `Return`
/// that has a value to pop.
pub open spec fn operands_suffice(code: Seq<OpCode>, n_constants: nat, ip: int, depth: nat) -> bool
    decreases code.len() - ip,
{
    if ip < 0 || ip >= code.len() {
        false
    } else {
        match code[ip] {
            OpCode::Constant(i) => i < n_constants && operands_suffice(code, n_constants, ip + 1, depth + 1),
            OpCode::Negate => depth >= 1 && operands_suffice(code, n_constants, ip + 1, depth),
            OpCode::Return => depth >= 1,
            _ => depth >= 2 && operands_suffice(code, n_constants, ip + 1, (depth - 1) as nat),
        }
    }
}

/// A run whose instructions always find enough operands ends in `Success`
/// with the value that `Return` pops, whatever the arithmetic gives.
pub proof fn lemma_enough_operands_succeed(
    code: Seq<OpCode>,
    constants: Seq<Value>,
    ip: int,
    stack: Seq<Value>,
    f: spec_fn(Operation) -> Value,
)
    requires
        operands_suffice(code, constants.len(), ip, stack.len()),
    ensures
        run(code, constants, ip, stack, f).0 == InterpretResult::Success,
        run(code, constants, ip, stack, f).1 is Some,
    decreases code.len() - ip,
{
    let n = stack.len();
    match code[ip] {
        OpCode::Constant(i) => {
            lemma_enough_operands_succeed(code, constants, ip + 1, stack.push(constants[i as int]), f);
        },
        OpCode::Negate => {
            lemma_enough_operands_succeed(
                code,
                constants,
                ip + 1,
                stack.drop_last().push(f(Operation::Negate(stack[n - 1]))),
                f,
            );
        },
        OpCode::Return => {},
        OpCode::Add => {
            lemma_enough_operands_succeed(
                code,
                constants,
                ip + 1,
                stack.subrange(0, n - 2).push(f(Operation::Add(stack[n - 2], stack[n - 1]))),
                f,
            );
        },
        OpCode::Subtract => {
            lemma_enough_operands_succeed(
                code,
                constants,
                ip + 1,
                stack.subrange(0, n - 2).push(f(Operation::Subtract(stack[n - 2], stack[n - 1]))),
                f,
            );
        },
        OpCode::Multiply => {
            lemma_enough_operands_succeed(
                code,
                constants,
                ip + 1,
                stack.subrange(0, n - 2).push(f(Operation::Multiply(stack[n - 2], stack[n - 1]))),
                f,
            );
        },
        OpCode::Divide => {
            lemma_enough_operands_succeed(
                code,
                constants,
                ip + 1,
                stack.subrange(0, n - 2).push(f(Operation::Divide(stack[n - 2], stack[n - 1]))),
                f,
            );
        },
    }
}

} // verus!
