//! The dead-store eliminator: a write that the next opcode overwrites is
//! dropped, and a constant write followed by a change becomes one constant
//! write.

use crate::brackets::{
    closes_matched, depth, lemma_closes_matched_push, lemma_closes_matched_take, total_depth,
};
use crate::opcodes::{lemma_weight_push, total_weight, Opcode};
use vstd::prelude::*;

verus! {

/// What takes the place of `last` and of `op` arriving behind it, if the
/// pair is one that the pass rewrites: a `SetTo` replaces a `Change` or a
/// `SetTo` before it, and a `Change` is added into a `SetTo` before it.
pub open spec fn stored(last: Opcode, op: Opcode) -> Option<Opcode> {
    match (last, op) {
        (Opcode::Change { .. }, Opcode::SetTo { .. }) => Some(op),
        (Opcode::SetTo { .. }, Opcode::SetTo { .. }) => Some(op),
        (Opcode::SetTo { value }, Opcode::Change { delta }) => Some(
            Opcode::SetTo { value: (value + delta) as i32 },
        ),
        _ => None,
    }
}

/// The output after one more opcode: it is rewritten together with the one
/// emitted last, or else appended.
pub open spec fn store_step(acc: Seq<Opcode>, op: Opcode) -> Seq<Opcode> {
    if acc.len() > 0 && stored(acc.last(), op) is Some {
        acc.drop_last().push(stored(acc.last(), op)->Some_0)
    } else {
        acc.push(op)
    }
}

/// The sequence with its dead stores removed.
pub open spec fn without_dead_stores(s: Seq<Opcode>) -> Seq<Opcode>
    decreases s.len(),
{
    if s.len() == 0 {
        Seq::empty()
    } else {
        store_step(without_dead_stores(s.drop_last()), s.last())
    }
}

/// Whether the one sum that a step may form can be held by a `SetTo`.
pub open spec fn store_step_fits(acc: Seq<Opcode>, op: Opcode) -> bool {
    acc.len() > 0 ==> (acc.last() matches Opcode::SetTo { value } ==> (op matches Opcode::Change {
        delta,
    } ==> i32::MIN <= value + delta <= i32::MAX))
}

/// Every sum that the pass forms on `s` can be held by a `SetTo`.
pub open spec fn stores_fit(s: Seq<Opcode>) -> bool
    decreases s.len(),
{
    s.len() == 0 || {
        &&& stores_fit(s.drop_last())
        &&& store_step_fits(without_dead_stores(s.drop_last()), s.last())
    }
}

/// What fits for a sequence fits for each of its prefixes.
pub proof fn lemma_stores_fit_prefix(s: Seq<Opcode>, n: int)
    requires
        stores_fit(s),
        0 <= n <= s.len(),
    ensures
        stores_fit(s.take(n)),
    decreases s.len(),
{
    if n == s.len() {
        assert(s.take(n) == s);
    } else {
        lemma_stores_fit_prefix(s.drop_last(), n);
        assert(s.drop_last().take(n) == s.take(n));
    }
}

/// The pass never lengthens a sequence, and keeps it empty only if it was.
pub proof fn lemma_dead_stores_len(s: Seq<Opcode>)
    ensures
        without_dead_stores(s).len() <= s.len(),
        s.len() > 0 ==> without_dead_stores(s).len() > 0,
    decreases s.len(),
{
    if s.len() > 0 {
        lemma_dead_stores_len(s.drop_last());
    }
}

/// Drops each `Change` or `SetTo` that a `SetTo` directly overwrites, and
/// folds a `Change` that directly follows a `SetTo` into it.
pub fn remove_pointless_code_alteration(opcodes: Vec<Opcode>) -> (output: Vec<Opcode>)
    requires
        stores_fit(opcodes@),
    ensures
        output@ == without_dead_stores(opcodes@),
        output@.len() <= opcodes@.len(),
{
    let mut output: Vec<Opcode> = Vec::new();
    let mut i: usize = 0;
    while i < opcodes.len()
        invariant
            i <= opcodes.len(),
            stores_fit(opcodes@),
            output@ == without_dead_stores(opcodes@.take(i as int)),
        decreases opcodes.len() - i,
    {
        let opcode = opcodes[i];
        proof {
            assert(opcodes@.take(i + 1).drop_last() == opcodes@.take(i as int));
            lemma_stores_fit_prefix(opcodes@, i + 1);
        }
        let n = output.len();
        if n == 0 {
            output.push(opcode);
        } else {
            let last = output[n - 1];
            match opcode {
                Opcode::SetTo { .. } => match last {
                    Opcode::Change { .. } => {
                        output.pop();
                        output.push(opcode);
                    },
                    Opcode::SetTo { .. } => {
                        output.pop();
                        output.push(opcode);
                    },
                    _ => output.push(opcode),
                },
                Opcode::Change { delta } => match last {
                    Opcode::SetTo { value } => {
                        output.pop();
                        output.push(Opcode::SetTo { value: value + delta });
                    },
                    _ => output.push(opcode),
                },
                _ => output.push(opcode),
            }
        }
        i += 1;
    }
    proof {
        assert(opcodes@.take(i as int) == opcodes@);
        lemma_dead_stores_len(opcodes@);
    }
    output
}

/// While the weight of a sequence stays within `i32`, the pass forms no sum
/// that overflows, and does not add to the weight.
pub proof fn lemma_dead_stores_bounds(s: Seq<Opcode>)
    requires
        total_weight(s) <= i32::MAX,
    ensures
        stores_fit(s),
        total_weight(without_dead_stores(s)) <= total_weight(s),
    decreases s.len(),
{
    if s.len() > 0 {
        let front = s.drop_last();
        let op = s.last();
        assert(front.push(op) == s);
        lemma_weight_push(front, op);
        lemma_dead_stores_bounds(front);
        let acc = without_dead_stores(front);
        if acc.len() > 0 && stored(acc.last(), op) is Some {
            assert(acc.drop_last().push(acc.last()) == acc);
            lemma_weight_push(acc.drop_last(), acc.last());
            lemma_weight_push(acc.drop_last(), stored(acc.last(), op)->Some_0);
        } else {
            lemma_weight_push(acc, op);
        }
    }
}

/// The pass keeps the closes of a sequence matched and its depth.
pub proof fn lemma_dead_stores_depth(s: Seq<Opcode>)
    requires
        closes_matched(s),
    ensures
        closes_matched(without_dead_stores(s)),
        total_depth(without_dead_stores(s)) == total_depth(s),
    decreases s.len(),
{
    if s.len() > 0 {
        let front = s.drop_last();
        let op = s.last();
        assert(front == s.take(s.len() - 1));
        lemma_closes_matched_take(s, s.len() - 1);
        lemma_dead_stores_depth(front);
        let acc = without_dead_stores(front);
        assert(depth(s, s.len() as int) >= 0);
        if acc.len() > 0 && stored(acc.last(), op) is Some {
            assert(acc.drop_last() == acc.take(acc.len() - 1));
            lemma_closes_matched_take(acc, acc.len() - 1);
            lemma_closes_matched_push(acc.drop_last(), stored(acc.last(), op)->Some_0);
        } else {
            lemma_closes_matched_push(acc, op);
        }
    }
}

} // verus!
