//! The intermediate representation that the compiler passes rewrite and the
//! interpreter executes.

pub use crate::brackets::reset_bracket;
pub use crate::compiler::compile_code;
pub use crate::dead_store::remove_pointless_code_alteration;
pub use crate::folding::compress_foldable_opcodes;
pub use crate::loops::{
    find_lowest_level_loops, find_transform_if_multi_loop, is_simple_loop, loop_transformations,
};
pub use crate::scanning::gen_scanning_ops;
pub use crate::splice::replace_segments;
pub use crate::tokenizer::tokenize_instructions;
use vstd::prelude::*;

verus! {

/// One instruction of the intermediate representation.
#[derive(Debug, Copy, Clone, PartialEq, Eq, Structural)]
pub enum Opcode {
    /// Add `delta` to the current cell.
    Change { delta: i32 },
    /// Add `delta` to the data pointer.
    Move { delta: i32 },
    /// Emit the current cell `count` times.
    PutChar { count: usize },
    /// Read a byte into the current cell, `count` times.
    ReadChar { count: usize },
    /// Jump to `target` if the current cell is zero.
    JumpIfZero { target: usize },
    /// Jump to `target` if the current cell is not zero.
    JumpIfNonZero { target: usize },
    /// Overwrite the current cell with `value`.
    SetTo { value: i32 },
    /// Move the data pointer by `step` until it rests on a zero cell.
    ScanBy { step: i32 },
    /// Add `factor` times the current cell to the cell `offset` away.
    Multi { offset: i32, factor: i32 },
}

impl Opcode {
    /// An opening bracket.
    pub open spec fn is_open(self) -> bool {
        self is JumpIfZero
    }

    /// A closing bracket.
    pub open spec fn is_close(self) -> bool {
        self is JumpIfNonZero
    }

    /// Either bracket.
    pub open spec fn is_bracket(self) -> bool {
        self.is_open() || self.is_close()
    }
}

/// The absolute value of an integer.
pub open spec fn magnitude_of(x: int) -> int {
    if x < 0 {
        -x
    } else {
        x
    }
}

impl Opcode {
    /// The size of the argument that the passes add to others: the absolute
    /// value of a delta or of a value, a count as it is, and zero for the rest.
    pub open spec fn magnitude(self) -> int {
        match self {
            Opcode::Change { delta } => magnitude_of(delta as int),
            Opcode::Move { delta } => magnitude_of(delta as int),
            Opcode::SetTo { value } => magnitude_of(value as int),
            Opcode::PutChar { count } => count as int,
            Opcode::ReadChar { count } => count as int,
            _ => 0,
        }
    }
}

/// The sum of the magnitudes of the first `n` opcodes.
pub open spec fn weight(p: Seq<Opcode>, n: int) -> int
    decreases n,
{
    if n <= 0 {
        0
    } else {
        weight(p, n - 1) + p[n - 1].magnitude()
    }
}

/// The sum of the magnitudes of all opcodes. While it stays within `i32`, no
/// sum that a pass forms can overflow.
pub open spec fn total_weight(p: Seq<Opcode>) -> int {
    weight(p, p.len() as int)
}

/// Weight looks at no more than the magnitudes of the opcodes before `n`.
pub proof fn lemma_weight_agree(a: Seq<Opcode>, b: Seq<Opcode>, n: int)
    requires
        0 <= n <= a.len(),
        n <= b.len(),
        forall|k: int| 0 <= k < n ==> (#[trigger] a[k]).magnitude() == b[k].magnitude(),
    ensures
        weight(a, n) == weight(b, n),
    decreases n,
{
    if n > 0 {
        lemma_weight_agree(a, b, n - 1);
    }
}

/// Weight grows with the prefix, from zero.
pub proof fn lemma_weight_monotone(p: Seq<Opcode>, i: int, j: int)
    requires
        0 <= i <= j,
    ensures
        0 <= weight(p, i) <= weight(p, j),
    decreases j,
{
    if j > 0 {
        if i < j {
            lemma_weight_monotone(p, i, j - 1);
        } else {
            lemma_weight_monotone(p, i - 1, j - 1);
        }
    }
}

/// The weight of a sequence with one more opcode.
pub proof fn lemma_weight_push(p: Seq<Opcode>, op: Opcode)
    ensures
        total_weight(p.push(op)) == total_weight(p) + op.magnitude(),
        op.magnitude() >= 0,
        total_weight(p) >= 0,
{
    lemma_weight_agree(p.push(op), p, p.len() as int);
    lemma_weight_monotone(p, 0, p.len() as int);
}

/// The weight of a prefix is the weight up to its end.
pub proof fn lemma_weight_take(p: Seq<Opcode>, n: int)
    requires
        0 <= n <= p.len(),
    ensures
        total_weight(p.take(n)) == weight(p, n),
        0 <= weight(p, n) <= total_weight(p),
{
    lemma_weight_agree(p.take(n), p, n);
    lemma_weight_monotone(p, n, p.len() as int);
    lemma_weight_monotone(p, 0, n);
}

/// Weight adds up over a concatenation.
pub proof fn lemma_weight_concat(a: Seq<Opcode>, b: Seq<Opcode>)
    ensures
        total_weight(a + b) == total_weight(a) + total_weight(b),
    decreases b.len(),
{
    if b.len() == 0 {
        assert(a + b == a);
    } else {
        lemma_weight_concat(a, b.drop_last());
        assert((a + b.drop_last()).push(b.last()) == a + b);
        lemma_weight_push(a + b.drop_last(), b.last());
        assert(b.drop_last().push(b.last()) == b);
        lemma_weight_push(b.drop_last(), b.last());
    }
}

} // verus!
