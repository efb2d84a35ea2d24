//! Bracket structure of an opcode sequence: nesting depth, balance, the
//! pairing invariant on jump targets, and the pass that establishes it.

use crate::opcodes::{lemma_weight_agree, total_weight, Opcode};
use crate::pairing::{lemma_paired_balanced, lemma_pairing_unique};
use vstd::prelude::*;

verus! {

/// What the opcode at the end of a prefix adds to the nesting depth.
pub open spec fn depth_change(op: Opcode) -> int {
    if op.is_open() {
        1
    } else if op.is_close() {
        -1
    } else {
        0
    }
}

/// Nesting depth after the first `n` opcodes: opens minus closes.
pub open spec fn depth(p: Seq<Opcode>, n: int) -> int
    decreases n,
{
    if n <= 0 {
        0
    } else {
        depth(p, n - 1) + depth_change(p[n - 1])
    }
}

/// Nesting depth at the end of the sequence.
pub open spec fn total_depth(p: Seq<Opcode>) -> int {
    depth(p, p.len() as int)
}

/// Every close has an earlier open left for it.
pub open spec fn closes_matched(p: Seq<Opcode>) -> bool {
    forall|n: int| 0 <= n <= p.len() ==> #[trigger] depth(p, n) >= 0
}

/// Every close has an earlier open left for it, and no open is left over.
pub open spec fn balanced(p: Seq<Opcode>) -> bool {
    closes_matched(p) && total_depth(p) == 0
}

/// Two sequences differ at most in the targets of their brackets.
pub open spec fn same_shape(a: Seq<Opcode>, b: Seq<Opcode>) -> bool {
    &&& a.len() == b.len()
    &&& forall|i: int|
        0 <= i < a.len() ==> {
            &&& (#[trigger] a[i]).is_open() == b[i].is_open()
            &&& a[i].is_close() == b[i].is_close()
            &&& !a[i].is_bracket() ==> a[i] == b[i]
        }
}

/// The open at `i`, if there is one, names a close behind it that names it
/// back.
pub open spec fn open_paired(p: Seq<Opcode>, i: int) -> bool {
    p[i] matches Opcode::JumpIfZero { target } ==> i < target < p.len() && p[target as int] == (
    Opcode::JumpIfNonZero { target: i as usize })
}

/// The close at `j`, if there is one, names an open before it that names it
/// back.
pub open spec fn close_paired(p: Seq<Opcode>, j: int) -> bool {
    p[j] matches Opcode::JumpIfNonZero { target } ==> target < j && p[target as int] == (
    Opcode::JumpIfZero { target: j as usize })
}

/// If opens stand at `i` and at `k`, and the second inside the loop of the
/// first, then the loop of the second closes inside it too.
pub open spec fn nests(p: Seq<Opcode>, i: int, k: int) -> bool {
    p[i] matches Opcode::JumpIfZero { target: outer } ==> (p[k] matches Opcode::JumpIfZero {
        target: inner,
    } ==> k < outer ==> inner < outer)
}

/// The pairing invariant: each open names the close that names it back, each
/// close names the open that names it back, and pairs nest.
pub open spec fn well_paired(p: Seq<Opcode>) -> bool {
    &&& forall|i: int| 0 <= i < p.len() ==> #[trigger] open_paired(p, i)
    &&& forall|j: int| 0 <= j < p.len() ==> #[trigger] close_paired(p, j)
    &&& forall|i: int, k: int| 0 <= i < k < p.len() ==> #[trigger] nests(p, i, k)
}

/// From `k` on, depth stays above `floor` up to `c`, where a close brings it
/// down to `floor`.
pub open spec fn first_return(code: Seq<Opcode>, k: int, floor: int, c: int) -> bool {
    &&& k <= c < code.len()
    &&& code[c].is_close()
    &&& depth(code, c + 1) == floor
    &&& forall|j: int| k <= j <= c ==> #[trigger] depth(code, j) > floor
}

/// From `k` on, depth stays above `floor` to the end.
pub open spec fn no_return(code: Seq<Opcode>, k: int, floor: int) -> bool {
    forall|j: int| k <= j <= code.len() ==> #[trigger] depth(code, j) > floor
}

/// A program in which every jump target is the index of the partner by
/// depth.
#[verifier::opaque]
pub open spec fn matched(p: Seq<Opcode>) -> bool {
    &&& well_paired(p)
    &&& forall|i: int|
        0 <= i < p.len() ==> (#[trigger] p[i] matches Opcode::JumpIfZero { target }
            ==> first_return(p, i + 1, depth(p, i), target as int))
}

/// The output and the stack of pending opens after the first `n` opcodes
/// have been resolved: an open is emitted with a placeholder target and
/// stacked; a close takes the open on top of the stack as its target and
/// becomes the target of that open; any other opcode is copied.
pub open spec fn resolved_upto(p: Seq<Opcode>, n: int) -> (Seq<Opcode>, Seq<usize>)
    decreases n,
{
    if n <= 0 {
        (Seq::empty(), Seq::empty())
    } else {
        let (ops, pending) = resolved_upto(p, n - 1);
        if p[n - 1].is_open() {
            (ops.push(Opcode::JumpIfZero { target: 0 }), pending.push((n - 1) as usize))
        } else if p[n - 1].is_close() && pending.len() > 0 {
            (
                ops.push(Opcode::JumpIfNonZero { target: pending.last() }).update(
                    pending.last() as int,
                    Opcode::JumpIfZero { target: (n - 1) as usize },
                ),
                pending.drop_last(),
            )
        } else {
            (ops.push(p[n - 1]), pending)
        }
    }
}

/// The sequence with every jump target recomputed from the brackets.
pub open spec fn resolved(p: Seq<Opcode>) -> Seq<Opcode> {
    resolved_upto(p, p.len() as int).0
}

/// Depth looks at no more than the kinds of the brackets before `n`.
pub proof fn lemma_depth_agree(a: Seq<Opcode>, b: Seq<Opcode>, n: int)
    requires
        0 <= n <= a.len(),
        n <= b.len(),
        forall|k: int| 0 <= k < n ==> depth_change(#[trigger] a[k]) == depth_change(b[k]),
    ensures
        depth(a, n) == depth(b, n),
    decreases n,
{
    if n > 0 {
        lemma_depth_agree(a, b, n - 1);
    }
}

/// Depth does not change over a stretch without brackets.
pub proof fn lemma_depth_flat(p: Seq<Opcode>, i: int, j: int)
    requires
        0 <= i <= j <= p.len(),
        forall|b: int| i <= b < j ==> !(#[trigger] p[b]).is_bracket(),
    ensures
        depth(p, j) == depth(p, i),
    decreases j - i,
{
    if i < j {
        lemma_depth_flat(p, i, j - 1);
    }
}

/// Depth adds up over a concatenation.
pub proof fn lemma_depth_concat(a: Seq<Opcode>, b: Seq<Opcode>, k: int)
    requires
        0 <= k <= b.len(),
    ensures
        depth(a + b, a.len() + k) == depth(a, a.len() as int) + depth(b, k),
    decreases k,
{
    if k > 0 {
        lemma_depth_concat(a, b, k - 1);
        assert((a + b)[a.len() + k - 1] == b[k - 1]);
    } else {
        lemma_depth_agree(a + b, a, a.len() as int);
    }
}

/// A prefix of a sequence whose closes are matched has its closes matched,
/// and ends at the depth that the sequence has there.
pub proof fn lemma_closes_matched_take(p: Seq<Opcode>, n: int)
    requires
        closes_matched(p),
        0 <= n <= p.len(),
    ensures
        closes_matched(p.take(n)),
        total_depth(p.take(n)) == depth(p, n),
{
    assert forall|m: int| 0 <= m <= n implies #[trigger] depth(p.take(n), m) >= 0 by {
        lemma_depth_agree(p.take(n), p, m);
        assert(depth(p, m) >= 0);
    }
    lemma_depth_agree(p.take(n), p, n);
}

/// One more opcode keeps the closes matched unless it closes below zero.
pub proof fn lemma_closes_matched_push(p: Seq<Opcode>, op: Opcode)
    requires
        closes_matched(p),
        total_depth(p) + depth_change(op) >= 0,
    ensures
        closes_matched(p.push(op)),
        total_depth(p.push(op)) == total_depth(p) + depth_change(op),
{
    let q = p.push(op);
    lemma_depth_agree(q, p, p.len() as int);
    assert forall|m: int| 0 <= m <= q.len() implies #[trigger] depth(q, m) >= 0 by {
        if m <= p.len() {
            lemma_depth_agree(q, p, m);
            assert(depth(p, m) >= 0);
        }
    }
}

/// Two sequences of one shape have the same depths.
pub proof fn lemma_same_shape_depth(a: Seq<Opcode>, b: Seq<Opcode>, n: int)
    requires
        same_shape(a, b),
        0 <= n <= a.len(),
    ensures
        depth(a, n) == depth(b, n),
{
    assert forall|k: int| 0 <= k < n implies depth_change(#[trigger] a[k]) == depth_change(
        b[k],
    ) by {
        assert(a[k].is_open() == b[k].is_open());
    }
    lemma_depth_agree(a, b, n);
}

/// Two sequences of one shape have the same weight.
pub proof fn lemma_same_shape_weight(a: Seq<Opcode>, b: Seq<Opcode>)
    requires
        same_shape(a, b),
    ensures
        total_weight(a) == total_weight(b),
{
    assert forall|k: int| 0 <= k < a.len() implies (#[trigger] a[k]).magnitude()
        == b[k].magnitude() by {
        assert(a[k].is_open() == b[k].is_open());
    }
    lemma_weight_agree(a, b, a.len() as int);
}

/// A sequence of the shape of a balanced one is balanced.
pub proof fn lemma_same_shape_balanced(a: Seq<Opcode>, b: Seq<Opcode>)
    requires
        same_shape(a, b),
        balanced(b),
    ensures
        balanced(a),
{
    assert forall|n: int| 0 <= n <= a.len() implies #[trigger] depth(a, n) >= 0 by {
        lemma_same_shape_depth(a, b, n);
        assert(depth(b, n) >= 0);
    }
    lemma_same_shape_depth(a, b, a.len() as int);
}

proof fn lemma_resolved_upto_shape(p: Seq<Opcode>, n: int)
    requires
        0 <= n <= p.len() <= usize::MAX,
    ensures
        resolved_upto(p, n).0.len() == n,
        same_shape(resolved_upto(p, n).0, p.take(n)),
        forall|k: int|
            0 <= k < resolved_upto(p, n).1.len() ==> (#[trigger] resolved_upto(p, n).1[k]) < n
                && resolved_upto(p, n).0[resolved_upto(p, n).1[k] as int].is_open(),
    decreases n,
{
    if n > 0 {
        lemma_resolved_upto_shape(p, n - 1);
        let (ops, pending) = resolved_upto(p, n - 1);
        let (next, left) = resolved_upto(p, n);
        assert(p.take(n) == p.take(n - 1).push(p[n - 1]));
        assert forall|i: int| 0 <= i < n implies {
            &&& (#[trigger] next[i]).is_open() == p.take(n)[i].is_open()
            &&& next[i].is_close() == p.take(n)[i].is_close()
            &&& !next[i].is_bracket() ==> next[i] == p.take(n)[i]
        } by {
            if i < n - 1 {
                assert(ops[i].is_open() == p.take(n - 1)[i].is_open());
                if pending.len() > 0 {
                    assert(pending[pending.len() - 1] < n - 1);
                }
            }
        }
        assert forall|k: int| 0 <= k < left.len() implies (#[trigger] left[k]) < n && next[(left[
            k
        ]) as int].is_open() by {
            if k < pending.len() {
                assert(pending[k] < n - 1);
                if pending.len() > 0 {
                    assert(pending[pending.len() - 1] < n - 1);
                }
            }
        }
    }
}

/// Resolving the jump targets changes nothing but the jump targets.
pub proof fn lemma_resolved_shape(p: Seq<Opcode>)
    requires
        p.len() <= usize::MAX,
    ensures
        same_shape(resolved(p), p),
{
    lemma_resolved_upto_shape(p, p.len() as int);
    assert(p.take(p.len() as int) == p);
}

/// The open at `i` is either still on the stack, with the placeholder
/// target, or names a close that names it back.
spec fn open_settled(ops: Seq<Opcode>, stack: Seq<usize>, i: int) -> bool {
    ops[i] matches Opcode::JumpIfZero { target } ==> if target == 0 {
        stack.contains(i as usize)
    } else {
        i < target < ops.len() && ops[target as int] == (Opcode::JumpIfNonZero {
            target: i as usize,
        })
    }
}

/// The close at `j` names an earlier open that names it back.
spec fn close_settled(ops: Seq<Opcode>, j: int) -> bool {
    ops[j] matches Opcode::JumpIfNonZero { target } ==> target < j && ops[target as int] == (
    Opcode::JumpIfZero { target: j as usize })
}

/// An open inside a paired loop is itself paired, and closes first.
spec fn nested(ops: Seq<Opcode>, i: int, k: int) -> bool {
    ops[i] matches Opcode::JumpIfZero { target: outer } ==> (ops[k] matches Opcode::JumpIfZero {
        target: inner,
    } ==> k < outer ==> inner != 0 && inner < outer)
}

/// The stack holds, in increasing order, opens that still carry the
/// placeholder target.
spec fn stack_pending(ops: Seq<Opcode>, stack: Seq<usize>) -> bool {
    &&& forall|k: int|
        0 <= k < stack.len() ==> (#[trigger] stack[k]) < ops.len() && ops[stack[k] as int] == (
        Opcode::JumpIfZero { target: 0 })
    &&& forall|k: int, l: int| 0 <= k < l < stack.len() ==> stack[k] < stack[l]
}

/// What holds of the output and the stack of pending opens between two steps
/// of the resolution.
spec fn partly_paired(ops: Seq<Opcode>, stack: Seq<usize>) -> bool {
    &&& stack_pending(ops, stack)
    &&& forall|i: int| 0 <= i < ops.len() ==> #[trigger] open_settled(ops, stack, i)
    &&& forall|j: int| 0 <= j < ops.len() ==> #[trigger] close_settled(ops, j)
    &&& forall|i: int, k: int| 0 <= i < k < ops.len() ==> #[trigger] nested(ops, i, k)
}

proof fn lemma_step_plain(ops: Seq<Opcode>, stack: Seq<usize>, op: Opcode)
    requires
        partly_paired(ops, stack),
        !op.is_bracket(),
    ensures
        partly_paired(ops.push(op), stack),
{
    let next = ops.push(op);
    assert forall|i: int| 0 <= i < next.len() implies #[trigger] open_settled(next, stack, i) by {
        if i < ops.len() {
            assert(open_settled(ops, stack, i));
        }
    }
    assert forall|j: int| 0 <= j < next.len() implies #[trigger] close_settled(next, j) by {
        if j < ops.len() {
            assert(close_settled(ops, j));
        }
    }
    assert forall|i: int, k: int| 0 <= i < k < next.len() implies #[trigger] nested(
        next,
        i,
        k,
    ) by {
        if k < ops.len() {
            assert(nested(ops, i, k));
        }
    }
}

proof fn lemma_step_open(ops: Seq<Opcode>, stack: Seq<usize>)
    requires
        partly_paired(ops, stack),
        ops.len() <= usize::MAX,
    ensures
        partly_paired(
            ops.push(Opcode::JumpIfZero { target: 0 }),
            stack.push(ops.len() as usize),
        ),
{
    let pos = ops.len() as usize;
    let next = ops.push(Opcode::JumpIfZero { target: 0 });
    let pending = stack.push(pos);
    assert forall|i: int| 0 <= i < next.len() implies #[trigger] open_settled(
        next,
        pending,
        i,
    ) by {
        if i < ops.len() {
            assert(open_settled(ops, stack, i));
            if stack.contains(i as usize) {
                let k = choose|k: int| 0 <= k < stack.len() && stack[k] == i as usize;
                assert(pending[k] == i as usize);
            }
        } else {
            assert(pending[stack.len() as int] == pos);
        }
    }
    assert forall|j: int| 0 <= j < next.len() implies #[trigger] close_settled(next, j) by {
        if j < ops.len() {
            assert(close_settled(ops, j));
        }
    }
    assert forall|i: int, k: int| 0 <= i < k < next.len() implies #[trigger] nested(
        next,
        i,
        k,
    ) by {
        assert(open_settled(ops, stack, i));
        if k < ops.len() {
            assert(nested(ops, i, k));
        }
    }
}

proof fn lemma_step_close(ops: Seq<Opcode>, stack: Seq<usize>)
    requires
        partly_paired(ops, stack),
        stack.len() > 0,
        ops.len() <= usize::MAX,
    ensures
        partly_paired(
            ops.push(Opcode::JumpIfNonZero { target: stack.last() }).update(
                stack.last() as int,
                Opcode::JumpIfZero { target: ops.len() as usize },
            ),
            stack.drop_last(),
        ),
{
    let pos = ops.len() as usize;
    let open = stack.last();
    let next = ops.push(Opcode::JumpIfNonZero { target: open }).update(
        open as int,
        Opcode::JumpIfZero { target: pos },
    );
    let pending = stack.drop_last();
    assert(stack[stack.len() - 1] == open);
    assert forall|k: int| 0 <= k < pending.len() implies (#[trigger] pending[k]) < next.len()
        && next[pending[k] as int] == (Opcode::JumpIfZero { target: 0 }) by {
        assert(stack[k] < stack[stack.len() - 1]);
    }
    assert forall|i: int| 0 <= i < next.len() implies #[trigger] open_settled(
        next,
        pending,
        i,
    ) by {
        if i < ops.len() && i != open {
            assert(open_settled(ops, stack, i));
            if let Opcode::JumpIfZero { target } = ops[i] {
                if target == 0 {
                    let k = choose|k: int| 0 <= k < stack.len() && stack[k] == i as usize;
                    assert(pending[k] == i as usize);
                }
            }
        }
    }
    assert forall|j: int| 0 <= j < next.len() implies #[trigger] close_settled(next, j) by {
        if j < ops.len() && j != open {
            assert(close_settled(ops, j));
        }
    }
    assert forall|i: int, k: int| 0 <= i < k < next.len() implies #[trigger] nested(
        next,
        i,
        k,
    ) by {
        if k < ops.len() {
            assert(nested(ops, i, k));
            assert(open_settled(ops, stack, i));
            assert(open_settled(ops, stack, k));
            if i == open {
                if let Opcode::JumpIfZero { target } = ops[k] {
                    if target == 0 {
                        let l = choose|l: int| 0 <= l < stack.len() && stack[l] == k as usize;
                        if l < stack.len() - 1 {
                            assert(stack[l] < stack[stack.len() - 1]);
                        }
                    }
                }
            }
        }
    }
}

proof fn lemma_all_paired(ops: Seq<Opcode>)
    requires
        partly_paired(ops, Seq::<usize>::empty()),
    ensures
        well_paired(ops),
{
    assert forall|i: int| 0 <= i < ops.len() implies #[trigger] open_paired(ops, i) by {
        assert(open_settled(ops, Seq::<usize>::empty(), i));
    }
    assert forall|j: int| 0 <= j < ops.len() implies #[trigger] close_paired(ops, j) by {
        assert(close_settled(ops, j));
    }
    assert forall|i: int, k: int| 0 <= i < k < ops.len() implies #[trigger] nests(ops, i, k) by {
        assert(nested(ops, i, k));
    }
}

proof fn lemma_resolved_upto_paired(p: Seq<Opcode>, n: int)
    requires
        closes_matched(p),
        0 <= n <= p.len() <= usize::MAX,
    ensures
        resolved_upto(p, n).0.len() == n,
        resolved_upto(p, n).1.len() == depth(p, n),
        partly_paired(resolved_upto(p, n).0, resolved_upto(p, n).1),
    decreases n,
{
    if n > 0 {
        lemma_resolved_upto_paired(p, n - 1);
        let (ops, pending) = resolved_upto(p, n - 1);
        assert(depth(p, n) >= 0);
        if p[n - 1].is_open() {
            lemma_step_open(ops, pending);
        } else if p[n - 1].is_close() {
            lemma_step_close(ops, pending);
        } else {
            lemma_step_plain(ops, pending, p[n - 1]);
        }
    }
}

/// Resolving the jump targets of a balanced sequence establishes the
/// pairing invariant.
pub proof fn lemma_resolved_paired(p: Seq<Opcode>)
    requires
        balanced(p),
        p.len() <= usize::MAX,
    ensures
        well_paired(resolved(p)),
{
    lemma_resolved_upto_paired(p, p.len() as int);
    assert(resolved_upto(p, p.len() as int).1 == Seq::<usize>::empty());
    lemma_all_paired(resolved(p));
}

/// Recomputes every jump target from the bracket structure alone.
pub fn reset_bracket(opcodes: Vec<Opcode>) -> (ops: Vec<Opcode>)
    requires
        balanced(opcodes@),
    ensures
        ops@ == resolved(opcodes@),
        same_shape(ops@, opcodes@),
        well_paired(ops@),
        balanced(ops@),
{
    let mut pos: usize = 0;
    let mut ops: Vec<Opcode> = Vec::new();
    let mut loop_stack: Vec<usize> = Vec::new();
    while pos < opcodes.len()
        invariant
            pos <= opcodes.len(),
            ops.len() == pos,
            balanced(opcodes@),
            loop_stack.len() == depth(opcodes@, pos as int),
            same_shape(ops@, opcodes@.take(pos as int)),
            partly_paired(ops@, loop_stack@),
            (ops@, loop_stack@) == resolved_upto(opcodes@, pos as int),
        decreases opcodes.len() - pos,
    {
        let curr = opcodes[pos];
        proof {
            assert(depth(opcodes@, pos + 1) == depth(opcodes@, pos as int) + depth_change(curr));
            assert(opcodes@.take(pos + 1) == opcodes@.take(pos as int).push(curr));
        }
        match curr {
            Opcode::JumpIfZero { .. } => {
                proof {
                    lemma_step_open(ops@, loop_stack@);
                }
                ops.push(Opcode::JumpIfZero { target: 0 });
                loop_stack.push(pos);
            },
            Opcode::JumpIfNonZero { .. } => {
                proof {
                    assert(depth(opcodes@, pos + 1) >= 0);
                    lemma_step_close(ops@, loop_stack@);
                }
                let open_instr = loop_stack[loop_stack.len() - 1];
                loop_stack.pop();
                ops.push(Opcode::JumpIfNonZero { target: open_instr });
                ops.set(open_instr, Opcode::JumpIfZero { target: pos });
            },
            _ => {
                proof {
                    lemma_step_plain(ops@, loop_stack@, curr);
                }
                ops.push(curr);
            },
        }
        pos += 1;
    }
    proof {
        assert(opcodes@.take(pos as int) == opcodes@);
        assert(loop_stack@ == Seq::<usize>::empty());
        lemma_all_paired(ops@);
        lemma_same_shape_balanced(ops@, opcodes@);
    }
    ops
}

/// Whether the brackets of a program are balanced.
pub fn brackets_are_balanced(opcodes: &Vec<Opcode>) -> (ok: bool)
    ensures
        ok == balanced(opcodes@),
{
    let mut open_count: usize = 0;
    let mut pos: usize = 0;
    while pos < opcodes.len()
        invariant
            pos <= opcodes.len(),
            open_count == depth(opcodes@, pos as int),
            open_count <= pos,
            forall|n: int| 0 <= n <= pos ==> #[trigger] depth(opcodes@, n) >= 0,
        decreases opcodes.len() - pos,
    {
        match opcodes[pos] {
            Opcode::JumpIfZero { .. } => {
                open_count += 1;
            },
            Opcode::JumpIfNonZero { .. } => {
                if open_count == 0 {
                    assert(depth(opcodes@, pos + 1) < 0);
                    return false;
                }
                open_count -= 1;
            },
            _ => {},
        }
        pos += 1;
    }
    open_count == 0
}

/// The jump targets of a balanced program, resolved.
fn resolved_copy(opcodes: &Vec<Opcode>) -> (settled: Vec<Opcode>)
    requires
        balanced(opcodes@),
    ensures
        settled@ == resolved(opcodes@),
        settled.len() == opcodes.len(),
{
    let mut copy: Vec<Opcode> = Vec::new();
    let mut pos: usize = 0;
    while pos < opcodes.len()
        invariant
            pos <= opcodes.len(),
            copy@ == opcodes@.take(pos as int),
        decreases opcodes.len() - pos,
    {
        copy.push(opcodes[pos]);
        assert(opcodes@.take(pos + 1) == opcodes@.take(pos as int).push(opcodes@[pos as int]));
        pos += 1;
    }
    assert(opcodes@.take(pos as int) == opcodes@);
    reset_bracket(copy)
}

/// A balanced program satisfies the pairing invariant just when resolving
/// its jump targets changes none of them.
pub proof fn lemma_paired_iff_resolved(p: Seq<Opcode>)
    requires
        balanced(p),
        p.len() <= usize::MAX,
    ensures
        well_paired(p) <==> resolved(p) == p,
{
    lemma_resolved_paired(p);
    if well_paired(p) {
        lemma_resolved_shape(p);
        lemma_pairing_unique(resolved(p), p);
    }
}

/// Whether two programs are the same.
fn same_opcodes(a: &Vec<Opcode>, b: &Vec<Opcode>) -> (same: bool)
    ensures
        same == (a@ == b@),
{
    if a.len() != b.len() {
        return false;
    }
    let mut at: usize = 0;
    while at < a.len()
        invariant
            at <= a.len(),
            a.len() == b.len(),
            forall|k: int| 0 <= k < at ==> a@[k] == b@[k],
        decreases a.len() - at,
    {
        if a[at] != b[at] {
            return false;
        }
        at += 1;
    }
    assert(a@ =~= b@);
    true
}

/// Whether a program satisfies the pairing invariant on its jump targets.
pub fn check_jump_targets(opcodes: &Vec<Opcode>) -> (ok: bool)
    ensures
        ok == well_paired(opcodes@),
{
    assert(opcodes@.len() == opcodes.len());
    if brackets_are_balanced(opcodes) {
        let settled = resolved_copy(opcodes);
        proof {
            lemma_paired_iff_resolved(opcodes@);
        }
        same_opcodes(&settled, opcodes)
    } else {
        proof {
            if well_paired(opcodes@) {
                lemma_paired_balanced(opcodes@);
            }
        }
        false
    }
}

} // verus!
