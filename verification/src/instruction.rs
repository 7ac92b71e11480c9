//! The instruction tree that a round walks, and the numbering that makes a
//! tree of a script as it is written.

use vstd::prelude::*;

verus! {

/// An instruction of a script. `node` tells the instructions of one script
/// apart; it is what the trace records of an instruction.
#[derive(Debug, PartialEq, Eq)]
pub enum Instruction {
    /// Does nothing.
    Null,
    /// Asks the host to perform a call and waits for its answer.
    Call { node: u32 },
    /// Walks the first instruction and, where it completed, the second.
    Sequence(Box<Instruction>, Box<Instruction>),
    /// Walks the first instruction and, only where it failed, the second.
    Xor { node: u32, first: Box<Instruction>, second: Box<Instruction> },
    /// Walks `body` once for every one of `iterations` elements.
    Fold { node: u32, iterations: u32, body: Box<Instruction> },
}

/// A script as it is written: the instructions without their numbers.
#[derive(Debug, PartialEq, Eq)]
pub enum Shape {
    /// Does nothing.
    Null,
    /// A call.
    Call,
    /// Two instructions, one after the other.
    Sequence(Box<Shape>, Box<Shape>),
    /// Two instructions, the second for where the first failed.
    Xor(Box<Shape>, Box<Shape>),
    /// An instruction for every one of `iterations` elements.
    Fold { iterations: u32, body: Box<Shape> },
}

/// How many instructions of a shape are given a number: the calls, the
/// alternatives and the folds.
pub open spec fn numbers_needed(shape: Shape) -> nat
    decreases shape,
{
    match shape {
        Shape::Null => 0,
        Shape::Call => 1,
        Shape::Sequence(first, second) => numbers_needed(*first) + numbers_needed(*second),
        Shape::Xor(first, second) => 1 + numbers_needed(*first) + numbers_needed(*second),
        Shape::Fold { body, .. } => 1 + numbers_needed(*body),
    }
}

/// The instruction that a shape becomes when its instructions are numbered
/// from `next` on, in the order in which they are written: an instruction
/// before the instructions inside it, the first of two before the second.
pub open spec fn numbered(shape: Shape, next: nat) -> Instruction
    decreases shape,
{
    match shape {
        Shape::Null => Instruction::Null,
        Shape::Call => Instruction::Call { node: next as u32 },
        Shape::Sequence(first, second) => Instruction::Sequence(
            Box::new(numbered(*first, next)),
            Box::new(numbered(*second, next + numbers_needed(*first))),
        ),
        Shape::Xor(first, second) => Instruction::Xor {
            node: next as u32,
            first: Box::new(numbered(*first, next + 1)),
            second: Box::new(numbered(*second, next + 1 + numbers_needed(*first))),
        },
        Shape::Fold { iterations, body } => Instruction::Fold {
            node: next as u32,
            iterations,
            body: Box::new(numbered(*body, next + 1)),
        },
    }
}

/// Numbers the instructions of `shape` from `next` on and hands out the
/// first number that is left. There must be numbers enough.
pub fn number_from(shape: &Shape, next: u32) -> (done: Option<(Instruction, u32)>)
    ensures
        match done {
            Some((instruction, left)) => {
                &&& next + numbers_needed(*shape) <= u32::MAX
                &&& instruction == numbered(*shape, next as nat)
                &&& left == next + numbers_needed(*shape)
            },
            None => next + numbers_needed(*shape) > u32::MAX,
        },
    decreases *shape,
{
    match shape {
        Shape::Null => Some((Instruction::Null, next)),
        Shape::Call => {
            if next == u32::MAX {
                None
            } else {
                Some((Instruction::Call { node: next }, next + 1))
            }
        },
        Shape::Sequence(first, second) => {
            let (head, then) = match number_from(first, next) {
                Some(done) => done,
                None => {
                    return None;
                },
            };
            match number_from(second, then) {
                Some((tail, left)) => Some((Instruction::Sequence(Box::new(head), Box::new(tail)), left)),
                None => None,
            }
        },
        Shape::Xor(first, second) => {
            if next == u32::MAX {
                return None;
            }
            let (head, then) = match number_from(first, next + 1) {
                Some(done) => done,
                None => {
                    return None;
                },
            };
            match number_from(second, then) {
                Some((tail, left)) => Some(
                    (
                        Instruction::Xor { node: next, first: Box::new(head), second: Box::new(tail) },
                        left,
                    ),
                ),
                None => None,
            }
        },
        Shape::Fold { iterations, body } => {
            if next == u32::MAX {
                return None;
            }
            match number_from(body, next + 1) {
                Some((inner, left)) => Some(
                    (
                        Instruction::Fold { node: next, iterations: *iterations, body: Box::new(inner) },
                        left,
                    ),
                ),
                None => None,
            }
        },
    }
}

/// The script that a shape stands for: its instructions numbered from 0 on
/// in the order in which they are written. A shape with more instructions
/// than there are numbers is no script.
pub fn number_script(shape: &Shape) -> (script: Option<Instruction>)
    ensures
        match script {
            Some(instruction) => numbers_needed(*shape) <= u32::MAX && instruction == numbered(
                *shape,
                0,
            ),
            None => numbers_needed(*shape) > u32::MAX,
        },
{
    match number_from(shape, 0) {
        Some((instruction, _)) => Some(instruction),
        None => None,
    }
}

} // verus!
