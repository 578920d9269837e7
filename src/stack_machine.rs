//! A small stack machine over `i32` values.
//!
//! A program is a list of instructions run from first to last. `Push` takes
//! the value in the instruction after it; every other operation pops its
//! right operand, then its left one, and pushes the result. The result of a
//! program is the value left on top of the stack.

use vstd::prelude::*;

verus! {

/// An operation of the machine.
#[derive(Debug, Clone, Copy, PartialEq, Eq, Structural)]
pub enum StackOperation {
    Push,
    Add,
    Sub,
    Mul,
    Div,
}

/// One instruction: an operation, or the value a `Push` takes.
#[derive(Debug, Clone, Copy, PartialEq, Eq, Structural)]
pub enum StackInstruction {
    Operation(StackOperation),
    Data(i32),
}

/// Why a program failed.
#[derive(Debug, Clone, Copy, PartialEq, Eq, Structural)]
pub enum StackError {
    /// An operation needed a value that was not there: an operand on the
    /// stack, the value after a `Push`, or a result at the end.
    EmptyStack,
    /// `Push` was followed by an operation instead of a value.
    ExpectedData,
    /// A value stood where an operation was due.
    ExpectedOperation,
    /// The result does not fit in an `i32`.
    Overflow,
    /// Division by zero.
    DivisionByZero,
}

/// `left op right`, with the checks the machine makes.
pub open spec fn apply(op: StackOperation, left: i32, right: i32) -> Result<i32, StackError> {
    let r = match op {
        StackOperation::Add => left.checked_add(right),
        StackOperation::Sub => left.checked_sub(right),
        StackOperation::Mul => left.checked_mul(right),
        _ => left.checked_div(right),
    };
    if op == StackOperation::Div && right == 0 {
        Err(StackError::DivisionByZero)
    } else {
        match r {
            Some(v) => Ok(v),
            None => Err(StackError::Overflow),
        }
    }
}

/// The stack after running `instrs` on `stack`, or the first error.
pub open spec fn run(instrs: Seq<StackInstruction>, stack: Seq<i32>) -> Result<Seq<i32>, StackError>
    decreases instrs.len(),
{
    if instrs.len() == 0 {
        Ok(stack)
    } else {
        match instrs[0] {
            StackInstruction::Data(_) => Err(StackError::ExpectedOperation),
            StackInstruction::Operation(StackOperation::Push) => if instrs.len() < 2 {
                Err(StackError::EmptyStack)
            } else {
                match instrs[1] {
                    StackInstruction::Data(v) => run(instrs.subrange(2, instrs.len() as int), stack.push(v)),
                    _ => Err(StackError::ExpectedData),
                }
            },
            StackInstruction::Operation(op) => if stack.len() < 2 {
                Err(StackError::EmptyStack)
            } else {
                match apply(op, stack[stack.len() - 2], stack[stack.len() - 1]) {
                    Ok(v) => run(instrs.drop_first(), stack.subrange(0, stack.len() - 2).push(v)),
                    Err(e) => Err(e),
                }
            },
        }
    }
}

/// The value a program leaves on top of the stack.
pub open spec fn result_of(instrs: Seq<StackInstruction>, stack: Seq<i32>) -> Result<i32, StackError> {
    match run(instrs, stack) {
        Ok(s) => if s.len() == 0 {
            Err(StackError::EmptyStack)
        } else {
            Ok(s.last())
        },
        Err(e) => Err(e),
    }
}

/// Runs `instructions` on a stack that starts as `stack_values` (its last
/// element on top) and returns the value left on top.
pub fn execute(instructions: Vec<StackInstruction>, stack_values: Vec<i32>) -> (r: Result<i32, StackError>)
    ensures
        r == result_of(instructions@, stack_values@),
{
    let mut stack = stack_values;
    let mut i: usize = 0;
    assert(instructions@.subrange(0, instructions.len() as int) =~= instructions@);
    while i < instructions.len()
        invariant
            i <= instructions.len(),
            run(instructions@, stack_values@) == run(instructions@.subrange(i as int, instructions.len() as int), stack@),
        decreases instructions.len() - i,
    {
        let ghost rest = instructions@.subrange(i as int, instructions.len() as int);
        assert(rest[0] == instructions@[i as int]);
        match instructions[i] {
            StackInstruction::Data(_) => {
                return Err(StackError::ExpectedOperation);
            },
            StackInstruction::Operation(StackOperation::Push) => {
                if i + 1 >= instructions.len() {
                    return Err(StackError::EmptyStack);
                }
                assert(rest[1] == instructions@[i + 1]);
                match instructions[i + 1] {
                    StackInstruction::Data(value) => {
                        stack.push(value);
                        assert(rest.subrange(2, rest.len() as int) =~= instructions@.subrange(i + 2, instructions.len() as int));
                        i += 2;
                    },
                    _ => {
                        return Err(StackError::ExpectedData);
                    },
                }
            },
            StackInstruction::Operation(op) => {
                let ghost s0 = stack@;
                let left = match stack.pop() {
                    Some(v) => v,
                    None => {
                        return Err(StackError::EmptyStack);
                    },
                };
                let right = match stack.pop() {
                    Some(v) => v,
                    None => {
                        return Err(StackError::EmptyStack);
                    },
                };
                let value = match apply_op(op, right, left) {
                    Ok(v) => v,
                    Err(e) => {
                        return Err(e);
                    },
                };
                stack.push(value);
                assert(stack@ =~= s0.subrange(0, s0.len() - 2).push(value));
                assert(rest.drop_first() =~= instructions@.subrange(i + 1, instructions.len() as int));
                i += 1;
            },
        }
    }
    assert(instructions@.subrange(i as int, instructions.len() as int) =~= Seq::<StackInstruction>::empty());
    match stack.last() {
        Some(v) => Ok(*v),
        None => Err(StackError::EmptyStack),
    }
}

/// `left op right` for an operation other than `Push`.
fn apply_op(op: StackOperation, left: i32, right: i32) -> (r: Result<i32, StackError>)
    requires
        op != StackOperation::Push,
    ensures
        r == apply(op, left, right),
{
    let r = match op {
        StackOperation::Add => left.checked_add(right),
        StackOperation::Sub => left.checked_sub(right),
        StackOperation::Mul => left.checked_mul(right),
        _ => left.checked_div(right),
    };
    if op == StackOperation::Div && right == 0 {
        Err(StackError::DivisionByZero)
    } else {
        match r {
            Some(v) => Ok(v),
            None => Err(StackError::Overflow),
        }
    }
}

} // verus!
