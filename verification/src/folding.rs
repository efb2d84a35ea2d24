//! The peephole folder: runs of one foldable kind of opcode become a single
//! opcode that carries the sum of their arguments, and a run that sums to zero
//! disappears.

use crate::brackets::{
    closes_matched, depth, lemma_closes_matched_push, lemma_closes_matched_take, total_depth,
};
use crate::opcodes::{lemma_weight_push, total_weight, Opcode};
use vstd::prelude::*;

verus! {

/// Whether `op`, arriving behind `last`, is folded into it: both are of the
/// same kind, and that kind is one of the four that count.
pub open spec fn merges(last: Opcode, op: Opcode) -> bool {
    ||| last is Change && op is Change
    ||| last is Move && op is Move
    ||| last is PutChar && op is PutChar
    ||| last is ReadChar && op is ReadChar
}

/// The sum of the arguments of two opcodes of one foldable kind.
pub open spec fn arg_sum(last: Opcode, op: Opcode) -> int {
    match (last, op) {
        (Opcode::Change { delta: a }, Opcode::Change { delta: b }) => a + b,
        (Opcode::Move { delta: a }, Opcode::Move { delta: b }) => a + b,
        (Opcode::PutChar { count: a }, Opcode::PutChar { count: b }) => a + b,
        (Opcode::ReadChar { count: a }, Opcode::ReadChar { count: b }) => a + b,
        _ => 0,
    }
}

/// Whether the sum of the two arguments can be held by the opcode.
pub open spec fn sum_fits(last: Opcode, op: Opcode) -> bool {
    match last {
        Opcode::Change { .. } | Opcode::Move { .. } => i32::MIN <= arg_sum(last, op) <= i32::MAX,
        _ => arg_sum(last, op) <= usize::MAX,
    }
}

/// The opcode of the kind of `last` whose argument is the sum of both.
pub open spec fn merged(last: Opcode, op: Opcode) -> Opcode {
    match last {
        Opcode::Change { .. } => Opcode::Change { delta: arg_sum(last, op) as i32 },
        Opcode::Move { .. } => Opcode::Move { delta: arg_sum(last, op) as i32 },
        Opcode::PutChar { .. } => Opcode::PutChar { count: arg_sum(last, op) as usize },
        Opcode::ReadChar { .. } => Opcode::ReadChar { count: arg_sum(last, op) as usize },
        _ => op,
    }
}

/// The output after one more opcode: it is folded into the one emitted last
/// if that is of its kind, and the pair vanishes if the sum is zero.
pub open spec fn fold_step(acc: Seq<Opcode>, op: Opcode) -> Seq<Opcode> {
    if acc.len() > 0 && merges(acc.last(), op) {
        if arg_sum(acc.last(), op) == 0 {
            acc.drop_last()
        } else {
            acc.drop_last().push(merged(acc.last(), op))
        }
    } else {
        acc.push(op)
    }
}

/// The folded form of a sequence.
pub open spec fn fold(s: Seq<Opcode>) -> Seq<Opcode>
    decreases s.len(),
{
    if s.len() == 0 {
        Seq::empty()
    } else {
        fold_step(fold(s.drop_last()), s.last())
    }
}

/// Every sum that folding `s` forms can be held by its opcode.
pub open spec fn fold_fits(s: Seq<Opcode>) -> bool
    decreases s.len(),
{
    s.len() == 0 || {
        let acc = fold(s.drop_last());
        &&& fold_fits(s.drop_last())
        &&& acc.len() > 0 && merges(acc.last(), s.last()) ==> sum_fits(acc.last(), s.last())
    }
}

/// No opcode of `s` would be folded into the one before it.
pub open spec fn settled(s: Seq<Opcode>) -> bool {
    forall|i: int| 0 < i < s.len() ==> !#[trigger] merges(s[i - 1], s[i])
}

/// What fits for a sequence fits for each of its prefixes.
pub proof fn lemma_fold_fits_prefix(s: Seq<Opcode>, n: int)
    requires
        fold_fits(s),
        0 <= n <= s.len(),
    ensures
        fold_fits(s.take(n)),
    decreases s.len(),
{
    if n == s.len() {
        assert(s.take(n) == s);
    } else {
        lemma_fold_fits_prefix(s.drop_last(), n);
        assert(s.drop_last().take(n) == s.take(n));
    }
}

/// Folding leaves nothing that could be folded again.
pub proof fn lemma_fold_settled(s: Seq<Opcode>)
    ensures
        settled(fold(s)),
    decreases s.len(),
{
    if s.len() > 0 {
        let acc = fold(s.drop_last());
        let out = fold(s);
        lemma_fold_settled(s.drop_last());
        assert forall|i: int| 0 < i < out.len() implies !#[trigger] merges(out[i - 1], out[i]) by {
            if i < acc.len() - 1 {
                assert(!merges(acc[i - 1], acc[i]));
            } else if i == acc.len() - 1 {
                assert(!merges(acc[i - 1], acc[i]));
            }
        }
    }
}

/// A sequence in which nothing can be folded is its own folded form.
pub proof fn lemma_fold_of_settled(s: Seq<Opcode>)
    requires
        settled(s),
    ensures
        fold(s) == s,
    decreases s.len(),
{
    if s.len() > 0 {
        let front = s.drop_last();
        assert forall|i: int| 0 < i < front.len() implies !#[trigger] merges(
            front[i - 1],
            front[i],
        ) by {
            assert(!merges(s[i - 1], s[i]));
        }
        lemma_fold_of_settled(front);
        if front.len() > 0 {
            assert(!merges(s[s.len() - 2], s[s.len() - 1]));
        }
        assert(front.push(s.last()) == s);
    }
}

/// Folding is idempotent: folding a folded sequence changes nothing.
pub proof fn lemma_fold_idempotent(s: Seq<Opcode>)
    ensures
        fold(fold(s)) == fold(s),
{
    lemma_fold_settled(s);
    lemma_fold_of_settled(fold(s));
}

/// A folded sequence folds without forming any sum.
pub proof fn lemma_settled_fits(s: Seq<Opcode>)
    requires
        settled(s),
    ensures
        fold_fits(s),
    decreases s.len(),
{
    if s.len() > 0 {
        let front = s.drop_last();
        assert forall|i: int| 0 < i < front.len() implies !#[trigger] merges(
            front[i - 1],
            front[i],
        ) by {
            assert(!merges(s[i - 1], s[i]));
        }
        lemma_settled_fits(front);
        lemma_fold_of_settled(front);
        if front.len() > 0 {
            assert(!merges(s[s.len() - 2], s[s.len() - 1]));
        }
    }
}

/// Folding never lengthens a sequence.
pub proof fn lemma_fold_len(s: Seq<Opcode>)
    ensures
        fold(s).len() <= s.len(),
    decreases s.len(),
{
    if s.len() > 0 {
        lemma_fold_len(s.drop_last());
    }
}

/// Merges each run of `Change`, `Move`, `PutChar` or `ReadChar` into one
/// opcode with the summed argument, and drops a run whose sum is zero.
pub fn compress_foldable_opcodes(opcodes: Vec<Opcode>) -> (output: Vec<Opcode>)
    requires
        fold_fits(opcodes@),
    ensures
        output@ == fold(opcodes@),
        output@.len() <= opcodes@.len(),
        settled(output@),
{
    let mut output: Vec<Opcode> = Vec::new();
    let mut i: usize = 0;
    while i < opcodes.len()
        invariant
            i <= opcodes.len(),
            fold_fits(opcodes@),
            output@ == fold(opcodes@.take(i as int)),
        decreases opcodes.len() - i,
    {
        let opcode = opcodes[i];
        proof {
            assert(opcodes@.take(i + 1).drop_last() == opcodes@.take(i as int));
            lemma_fold_fits_prefix(opcodes@, i + 1);
        }
        let n = output.len();
        if n == 0 {
            output.push(opcode);
        } else {
            let last = output[n - 1];
            match opcode {
                Opcode::Change { delta: arg1 } => match last {
                    Opcode::Change { delta: arg2 } => {
                        output.pop();
                        if arg2 + arg1 != 0 {
                            output.push(Opcode::Change { delta: arg2 + arg1 });
                        }
                    },
                    _ => output.push(opcode),
                },
                Opcode::Move { delta: arg1 } => match last {
                    Opcode::Move { delta: arg2 } => {
                        output.pop();
                        if arg2 + arg1 != 0 {
                            output.push(Opcode::Move { delta: arg2 + arg1 });
                        }
                    },
                    _ => output.push(opcode),
                },
                Opcode::PutChar { count: arg1 } => match last {
                    Opcode::PutChar { count: arg2 } => {
                        output.pop();
                        if arg2 + arg1 != 0 {
                            output.push(Opcode::PutChar { count: arg2 + arg1 });
                        }
                    },
                    _ => output.push(opcode),
                },
                Opcode::ReadChar { count: arg1 } => match last {
                    Opcode::ReadChar { count: arg2 } => {
                        output.pop();
                        if arg2 + arg1 != 0 {
                            output.push(Opcode::ReadChar { count: arg2 + arg1 });
                        }
                    },
                    _ => output.push(opcode),
                },
                _ => output.push(opcode),
            }
        }
        i += 1;
    }
    proof {
        assert(opcodes@.take(i as int) == opcodes@);
        lemma_fold_len(opcodes@);
        lemma_fold_settled(opcodes@);
    }
    output
}

/// While the weight of a sequence stays within `i32`, folding it forms no
/// sum that overflows, and does not add to the weight.
pub proof fn lemma_fold_bounds(s: Seq<Opcode>)
    requires
        total_weight(s) <= i32::MAX,
    ensures
        fold_fits(s),
        total_weight(fold(s)) <= total_weight(s),
    decreases s.len(),
{
    if s.len() > 0 {
        let front = s.drop_last();
        let op = s.last();
        assert(front.push(op) == s);
        lemma_weight_push(front, op);
        lemma_fold_bounds(front);
        let acc = fold(front);
        if acc.len() > 0 && merges(acc.last(), op) {
            assert(acc.drop_last().push(acc.last()) == acc);
            lemma_weight_push(acc.drop_last(), acc.last());
            if arg_sum(acc.last(), op) != 0 {
                lemma_weight_push(acc.drop_last(), merged(acc.last(), op));
            }
        } else {
            lemma_weight_push(acc, op);
        }
    }
}

/// Folding keeps the closes of a sequence matched and its depth.
pub proof fn lemma_fold_depth(s: Seq<Opcode>)
    requires
        closes_matched(s),
    ensures
        closes_matched(fold(s)),
        total_depth(fold(s)) == total_depth(s),
    decreases s.len(),
{
    if s.len() > 0 {
        let front = s.drop_last();
        let op = s.last();
        assert(front == s.take(s.len() - 1));
        lemma_closes_matched_take(s, s.len() - 1);
        lemma_fold_depth(front);
        let acc = fold(front);
        assert(depth(s, s.len() as int) >= 0);
        if acc.len() > 0 && merges(acc.last(), op) {
            assert(acc.drop_last() == acc.take(acc.len() - 1));
            lemma_closes_matched_take(acc, acc.len() - 1);
            if arg_sum(acc.last(), op) != 0 {
                lemma_closes_matched_push(acc.drop_last(), merged(acc.last(), op));
            }
        } else {
            lemma_closes_matched_push(acc, op);
        }
    }
}

} // verus!
