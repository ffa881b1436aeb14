//! Problem generation: level configuration, operator selection, and the
//! random drawing of operands and operators.

use vstd::prelude::*;

use rand::Rng;

use crate::multiplier::{lemma_pow10_increases, pow10};
use crate::round::{op_of_symbol, Op, Problem, MAX_OPERAND};

verus! {

/// A level descriptor: candidate operator symbols (one ASCII byte each),
/// operand digit widths -- each operand is drawn from `1..10^digits` --
/// and a timeout value.
pub struct Level {
    pub functions: Vec<u8>,
    pub operands_digits: Vec<u64>,
    pub timeout: i64,
}

/// The operators a symbol list maps to, in order, with unrecognised
/// symbols discarded rather than rejected.
pub open spec fn ops_of_symbols(syms: Seq<u8>) -> Seq<Op>
    decreases syms.len(),
{
    if syms.len() == 0 {
        Seq::empty()
    } else {
        let front = ops_of_symbols(syms.drop_last());
        match op_of_symbol(syms.last()) {
            Option::Some(op) => front.push(op),
            Option::None => front,
        }
    }
}

pub proof fn lemma_ops_of_symbols_len(syms: Seq<u8>)
    ensures
        ops_of_symbols(syms).len() <= syms.len(),
    decreases syms.len(),
{
    if syms.len() > 0 {
        lemma_ops_of_symbols_len(syms.drop_last());
    }
}

/// Fatal level-configuration defects that abort setup.
#[derive(Clone, Copy, PartialEq, Eq, Structural, Debug)]
pub enum SetupError {
    /// Fewer than two operand ranges were configured.
    MissingOperandRange,
    /// An operand digit width is zero or too wide for the operand bound.
    BadDigits,
    /// No configured symbol maps to a recognised operator.
    NoOperators,
}

/// A configured game: the candidate operators and the exclusive upper
/// bounds the two operands are drawn under.
pub struct Game {
    pub ops: Vec<Op>,
    pub max_a: i64,
    pub max_b: i64,
}

impl Game {
    pub open spec fn wf(self) -> bool {
        &&& 1 <= self.ops@.len() <= 0x7fff_ffff
        &&& 10 <= self.max_a <= MAX_OPERAND
        &&& 10 <= self.max_b <= MAX_OPERAND
    }
}

/// Computes a power of ten as an operand bound.
fn pow10_i64(d: u64) -> (r: i64)
    requires
        1 <= d <= 9,
    ensures
        r == pow10(d as nat),
        10 <= r <= 1_000_000_000,
{
    let mut p: i64 = 1;
    let mut i: u64 = 0;
    while i < d
        invariant
            i <= d <= 9,
            p == pow10(i as nat),
        decreases d - i,
    {
        proof {
            lemma_pow10_increases(i as nat, 8);
            assert(pow10(8) == 100_000_000) by {
                reveal_with_fuel(pow10, 9);
            }
        }
        p = p * 10;
        i = i + 1;
    }
    proof {
        lemma_pow10_increases(1, d as nat);
        lemma_pow10_increases(d as nat, 9);
        assert(pow10(1) == 10 && pow10(9) == 1_000_000_000) by {
            reveal_with_fuel(pow10, 10);
        }
    }
    p
}

/// Builds a game from a level descriptor: maps each configured symbol to
/// its operator, discarding unrecognised symbols, and turns the first two
/// digit widths into operand ranges. A level without two usable operand
/// ranges or without any recognised operator is a fatal configuration
/// error.
pub fn setup_game(l: &Level) -> (r: Result<Game, SetupError>)
    requires
        l.functions@.len() <= 0x7fff_ffff,
    ensures
        r is Ok <==> {
            &&& l.operands_digits@.len() >= 2
            &&& 1 <= l.operands_digits@[0] <= 9
            &&& 1 <= l.operands_digits@[1] <= 9
            &&& ops_of_symbols(l.functions@).len() >= 1
        },
        r matches Result::Ok(g) ==> {
            &&& g.wf()
            &&& g.ops@ == ops_of_symbols(l.functions@)
            &&& g.max_a == pow10(l.operands_digits@[0] as nat)
            &&& g.max_b == pow10(l.operands_digits@[1] as nat)
        },
        r == Result::<Game, SetupError>::Err(SetupError::MissingOperandRange) <==> l
            .operands_digits@.len() < 2,
        r == Result::<Game, SetupError>::Err(SetupError::BadDigits) <==> (l.operands_digits@.len()
            >= 2 && !(1 <= l.operands_digits@[0] <= 9 && 1 <= l.operands_digits@[1] <= 9)),
{
    if l.operands_digits.len() < 2 {
        return Result::Err(SetupError::MissingOperandRange);
    }
    let d0 = l.operands_digits[0];
    let d1 = l.operands_digits[1];
    if d0 < 1 || d0 > 9 || d1 < 1 || d1 > 9 {
        return Result::Err(SetupError::BadDigits);
    }
    let max_a = pow10_i64(d0);
    let max_b = pow10_i64(d1);
    let mut ops: Vec<Op> = Vec::new();
    let mut i: usize = 0;
    proof {
        assert(l.functions@.subrange(0, 0) =~= Seq::<u8>::empty());
    }
    while i < l.functions.len()
        invariant
            i <= l.functions@.len() <= 0x7fff_ffff,
            ops@ == ops_of_symbols(l.functions@.subrange(0, i as int)),
        decreases l.functions@.len() - i,
    {
        let b = l.functions[i];
        proof {
            assert(l.functions@.subrange(0, (i + 1) as int).drop_last() =~= l.functions@.subrange(
                0,
                i as int,
            ));
            assert(l.functions@.subrange(0, (i + 1) as int).last() == l.functions@[i as int]);
            lemma_ops_of_symbols_len(l.functions@.subrange(0, i as int));
        }
        if b == 43 {
            ops.push(Op::Add);
        } else if b == 45 {
            ops.push(Op::Sub);
        } else if b == 42 {
            ops.push(Op::Mul);
        } else if b == 47 {
            ops.push(Op::Div);
        }
        i = i + 1;
    }
    proof {
        assert(l.functions@.subrange(0, l.functions@.len() as int) =~= l.functions@);
        lemma_ops_of_symbols_len(l.functions@);
    }
    if ops.len() == 0 {
        return Result::Err(SetupError::NoOperators);
    }
    Result::Ok(Game { ops, max_a, max_b })
}

/// Relies on rand::thread_rng and rand::Rng::gen_range: a uniform sample
/// from the half-open range `lo..hi`, which panics only when the range is
/// empty.
#[verifier::external_body]
fn sample_range(lo: i64, hi: i64) -> (r: i64)
    requires
        lo < hi,
    ensures
        lo <= r < hi,
{
    rand::thread_rng().gen_range(lo..hi)
}

/// Draws a fresh problem: each operand uniformly from its configured
/// range, the operator uniformly from the configured candidates.
pub fn random_problem(g: &Game) -> (p: Problem)
    requires
        g.wf(),
    ensures
        p.wf(),
        g.ops@.contains(p.op),
        1 <= p.a < g.max_a,
        1 <= p.b < g.max_b,
{
    let a = sample_range(1, g.max_a);
    let b = sample_range(1, g.max_b);
    let idx = sample_range(0, g.ops.len() as i64) as usize;
    let op = g.ops[idx];
    proof {
        assert(g.ops@[idx as int] == op);
        assert(g.ops@.contains(op));
    }
    Problem { a, b, op }
}

} // verus!
