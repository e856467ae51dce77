//! The four arithmetic operations on 32-bit integers, and a search for the
//! ways of combining five digits with four operations, from left to right,
//! into a target value.
use vstd::prelude::*;

verus! {

/// An arithmetic operation.
#[derive(Debug, Clone, Copy, PartialEq, Eq, Structural)]
pub enum OP {
    SOMMA,
    DIFFERENZA,
    PRODOTTO,
    DIVISIONE,
}

/// The error of an operation; no operation gives it.
#[derive(Debug, Clone)]
pub struct OpError;

/// Integer division rounded towards zero, as Rust divides.
pub open spec fn trunc_div(x: int, d: int) -> int {
    if x == 0 {
        0
    } else if x > 0 && d > 0 {
        x / d
    } else if x < 0 && d < 0 {
        (x * -1) / (d * -1)
    } else if x < 0 {
        ((x * -1) / d) * -1
    } else {
        (x / (d * -1)) * -1
    }
}

/// The exact result of applying `op` to `a` and `b`, where it is defined
/// (no division by zero).
pub open spec fn apply(op: OP, a: int, b: int) -> Option<int> {
    match op {
        OP::SOMMA => Some(a + b),
        OP::DIFFERENZA => Some(a - b),
        OP::PRODOTTO => Some(a * b),
        OP::DIVISIONE => if b == 0 {
            None
        } else {
            Some(trunc_div(a, b))
        },
    }
}

/// Whether `op` applied to `a` and `b` gives a 32-bit result.
pub open spec fn fits_op(op: OP, a: int, b: int) -> bool {
    match apply(op, a, b) {
        Some(v) => i32::MIN <= v <= i32::MAX,
        None => false,
    }
}

impl OP {
    /// The symbol of the operation: every operation reads as `+`.
    pub fn value(&self) -> (s: &'static str)
        ensures
            s@ == seq!['+'],
    {
        let s = "+";
        proof {
            reveal_strlit("+");
        }
        s
    }

    /// The result of the operation on `a` and `b`, which must fit in 32
    /// bits (and for a division, `b` must not be zero).
    pub fn op(&self, a: &i32, b: &i32) -> (r: Result<i32, OpError>)
        requires
            fits_op(*self, *a as int, *b as int),
        ensures
            r matches Ok(v) && Some(v as int) == apply(*self, *a as int, *b as int),
    {
        Ok(match self {
            OP::SOMMA => *a + *b,
            OP::DIFFERENZA => *a - *b,
            OP::PRODOTTO => *a * *b,
            OP::DIVISIONE => a.checked_div(*b).unwrap(),
        })
    }
}

} // verus!
