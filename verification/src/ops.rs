use vstd::prelude::*;

verus! {

/// The four ways two pool numbers can be combined.
#[derive(Eq, PartialEq, Structural, Clone, Copy, Debug)]
pub enum Operations {
    Add,
    Subtract,
    Multiply,
    Divide,
}

/// One reduction step: the numbers `n0` and `n1` were consumed from the pool
/// and replaced by `result`, read as `n1 operation n0 = result`.
#[derive(Eq, PartialEq, Structural, Clone, Copy, Debug)]
pub struct PuzzleEquation {
    /// The number consumed that comes earlier in the pool's ascending order.
    pub n0: u32,
    /// The number consumed that comes later in the pool's ascending order.
    pub n1: u32,
    /// How the two numbers were combined.
    pub operation: Operations,
    /// The value of `n1 operation n0`.
    pub result: u32,
}

/// What combining `b` with `a` (as `b operation a`) yields, or `None` where
/// the operation is inapplicable: a subtraction that would go negative, a
/// division by zero or one leaving a remainder, or a result that does not
/// fit in `u32`.
pub open spec fn op_result(operation: Operations, a: u32, b: u32) -> Option<u32> {
    match operation {
        Operations::Add => if a + b <= u32::MAX {
            Some((a + b) as u32)
        } else {
            None
        },
        Operations::Subtract => if a <= b {
            Some((b - a) as u32)
        } else {
            None
        },
        Operations::Multiply => if a * b <= u32::MAX {
            Some((a * b) as u32)
        } else {
            None
        },
        Operations::Divide => if a != 0 && b % a == 0 {
            Some((b / a) as u32)
        } else {
            None
        },
    }
}

} // verus!
