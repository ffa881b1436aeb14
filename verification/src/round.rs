//! Problems and rounds: the operands, the operator, and the raw timed answer.

use vstd::prelude::*;

verus! {

/// Largest operand a problem may carry. Operands are drawn from ranges of the
/// form `1..10^digits` with at most nine digits, so every operand fits here
/// and products of two operands fit comfortably in an `i64`.
pub const MAX_OPERAND: i64 = 1_000_000_000;

/// The four recognised operators. Dispatch is by this tag, never by a raw
/// symbol string, so an unknown operator cannot reach the scoring formulas.
#[derive(Clone, Copy, PartialEq, Eq, Structural, Debug)]
pub enum Op {
    Add,
    Sub,
    Mul,
    Div,
}

/// The operator a symbol stands for, if it is recognised.
pub open spec fn op_of_symbol(b: u8) -> Option<Op> {
    if b == 43 {
        Option::Some(Op::Add)
    } else if b == 45 {
        Option::Some(Op::Sub)
    } else if b == 42 {
        Option::Some(Op::Mul)
    } else if b == 47 {
        Option::Some(Op::Div)
    } else {
        Option::None
    }
}

impl Op {
    /// The display symbol of the operator, as a single ASCII byte.
    pub fn symbol_byte(self) -> (b: u8)
        ensures
            op_of_symbol(b) == Option::Some(self),
    {
        match self {
            Op::Add => 43,
            Op::Sub => 45,
            Op::Mul => 42,
            Op::Div => 47,
        }
    }
}

/// The true result of applying `op` to `a` and `b`. Division truncates,
/// which for positive operands agrees with machine division.
pub open spec fn eval_op_spec(op: Op, a: int, b: int) -> int
    recommends
        b != 0,
{
    match op {
        Op::Add => a + b,
        Op::Sub => a - b,
        Op::Mul => a * b,
        Op::Div => a / b,
    }
}

/// One arithmetic problem: two operands and an operator tag.
#[derive(Clone, Copy, PartialEq, Eq, Structural, Debug)]
pub struct Problem {
    pub a: i64,
    pub b: i64,
    pub op: Op,
}

impl Problem {
    /// Operands lie in `1..=MAX_OPERAND`, as the generator draws them.
    pub open spec fn wf(self) -> bool {
        &&& 1 <= self.a <= MAX_OPERAND
        &&& 1 <= self.b <= MAX_OPERAND
    }

    pub open spec fn answer_spec(self) -> int {
        eval_op_spec(self.op, self.a as int, self.b as int)
    }

    /// Computes the problem's true answer.
    pub fn answer(&self) -> (r: i64)
        requires
            self.wf(),
        ensures
            r == self.answer_spec(),
    {
        let a = self.a;
        let b = self.b;
        match self.op {
            Op::Add => a + b,
            Op::Sub => a - b,
            Op::Mul => {
                proof {
                    assert(a * b <= 1_000_000_000_000_000_000 && 1 <= a * b)
                        by (nonlinear_arith)
                        requires
                            1 <= a <= 1_000_000_000,
                            1 <= b <= 1_000_000_000,
                    ;
                }
                a * b
            },
            Op::Div => a / b,
        }
    }
}

/// The mathematical content of a round: the problem, the bytes the user
/// typed, and the two clock readings bracketing the answer.
#[verifier::ext_equal]
pub struct RoundView {
    pub problem: Problem,
    pub input: Seq<u8>,
    pub start: u64,
    pub end: u64,
}

/// One problem-presentation-and-answer cycle: the problem, the raw line the
/// user typed, and monotonic nanosecond timestamps taken before and after
/// the answer was read.
pub struct Round {
    pub problem: Problem,
    pub input: Vec<u8>,
    pub start: u64,
    pub end: u64,
}

impl View for Round {
    type V = RoundView;

    open spec fn view(&self) -> RoundView {
        RoundView { problem: self.problem, input: self.input@, start: self.start, end: self.end }
    }
}

impl RoundView {
    pub open spec fn wf(self) -> bool {
        &&& self.problem.wf()
        &&& self.start <= self.end
    }

    /// Elapsed answer time in nanoseconds.
    pub open spec fn elapsed_ns(self) -> u64 {
        (self.end - self.start) as u64
    }
}

impl Round {
    pub open spec fn wf(self) -> bool {
        self@.wf()
    }
}

} // verus!
