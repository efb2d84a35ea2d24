//! What the pairing invariant says by depth: the target of an open is where
//! the depth first returns to what it was before the open. So the invariant
//! leaves no choice of targets.

use crate::brackets::{
    balanced, close_paired, depth, first_return, lemma_resolved_paired, lemma_same_shape_depth,
    matched, nests, open_paired, resolved, same_shape, well_paired,
};
use crate::opcodes::Opcode;
use vstd::prelude::*;

verus! {

/// The pairing invariant, held back from the prover until it is asked for.
#[verifier::opaque]
spec fn paired(p: Seq<Opcode>) -> bool {
    well_paired(p)
}

/// The target of an open of `p`.
spec fn partner(p: Seq<Opcode>, i: int) -> int {
    p[i]->JumpIfZero_target as int
}

/// What the invariant says of the open at `i`.
proof fn lemma_pair_of_open(p: Seq<Opcode>, i: int)
    requires
        paired(p),
        0 <= i < p.len(),
        p[i].is_open(),
    ensures
        i < partner(p, i) < p.len(),
        p[partner(p, i)] == (Opcode::JumpIfNonZero { target: i as usize }),
{
    reveal(paired);
    assert(open_paired(p, i));
}

/// What the invariant says of the close at `j`.
proof fn lemma_pair_of_close(p: Seq<Opcode>, j: int)
    requires
        paired(p),
        0 <= j < p.len(),
        p[j].is_close(),
    ensures
        0 <= p[j]->JumpIfNonZero_target < j,
        p[p[j]->JumpIfNonZero_target as int] == (Opcode::JumpIfZero { target: j as usize }),
{
    reveal(paired);
    assert(close_paired(p, j));
}

/// What the invariant says of an open inside a loop.
proof fn lemma_nesting(p: Seq<Opcode>, i: int, k: int)
    requires
        paired(p),
        0 <= i < k < p.len(),
        p[i].is_open(),
        p[k].is_open(),
        k < partner(p, i),
    ensures
        partner(p, k) < partner(p, i),
{
    reveal(paired);
    assert(nests(p, i, k));
}

/// `j` is a place in the body of the loop that opens at `i`, outside every
/// loop of the body: the depth is one more than before the open and has been
/// more since, and every loop that opened in between has closed.
spec fn inside(p: Seq<Opcode>, i: int, j: int) -> bool {
    &&& depth(p, j) == depth(p, i) + 1
    &&& forall|m: int| i < m <= j ==> #[trigger] depth(p, m) > depth(p, i)
    &&& forall|o: int| i < o < j && (#[trigger] p[o]).is_open() ==> partner(p, o) < j
}

/// The depth first returns to what it was before an open at the partner of
/// the open.
proof fn lemma_span(p: Seq<Opcode>, i: int)
    requires
        paired(p),
        0 <= i < p.len(),
        p[i].is_open(),
    ensures
        first_return(p, i + 1, depth(p, i), partner(p, i)),
    decreases partner(p, i) - i, partner(p, i) - i + 1,
{
    lemma_pair_of_open(p, i);
    let t = partner(p, i);
    assert(depth(p, i + 1) == depth(p, i) + 1);
    assert(inside(p, i, i + 1));
    lemma_walk(p, i, i + 1);
    assert(depth(p, t + 1) == depth(p, t) - 1);
}

/// From a place in the body of a loop, outside every loop of the body, the
/// way leads to the close of the loop.
proof fn lemma_walk(p: Seq<Opcode>, i: int, j: int)
    requires
        paired(p),
        0 <= i < p.len(),
        p[i].is_open(),
        i < j <= partner(p, i) < p.len(),
        inside(p, i, j),
    ensures
        inside(p, i, partner(p, i)),
    decreases partner(p, i) - i, partner(p, i) - j,
{
    let t = partner(p, i);
    if j < t {
        assert(depth(p, j + 1) == depth(p, j) + crate::brackets::depth_change(p[j]));
        if p[j].is_open() {
            lemma_nesting(p, i, j);
            lemma_pair_of_open(p, j);
            let u = partner(p, j);
            lemma_span(p, j);
            assert(inside(p, i, u + 1)) by {
                assert forall|m: int| i < m <= u + 1 implies #[trigger] depth(p, m) > depth(
                    p,
                    i,
                ) by {
                    if j < m <= u {
                        assert(depth(p, m) > depth(p, j));
                    }
                }
                assert forall|o: int| i < o < u + 1 && (#[trigger] p[o]).is_open() implies partner(
                    p,
                    o,
                ) < u + 1 by {
                    if j < o {
                        lemma_nesting(p, j, o);
                    }
                }
            }
            lemma_walk(p, i, u + 1);
        } else if p[j].is_close() {
            lemma_pair_of_close(p, j);
            let o = p[j]->JumpIfNonZero_target as int;
            if o < i {
                lemma_nesting(p, o, i);
            }
            assert(p[o].is_open());
            assert(false);
        } else {
            assert(inside(p, i, j + 1));
            lemma_walk(p, i, j + 1);
        }
    }
}

/// `j` is a place outside every loop: the depth is zero and has not been
/// less, and every loop that opened before has closed.
spec fn outside(p: Seq<Opcode>, j: int) -> bool {
    &&& depth(p, j) == 0
    &&& forall|m: int| 0 <= m <= j ==> #[trigger] depth(p, m) >= 0
    &&& forall|o: int| 0 <= o < j && (#[trigger] p[o]).is_open() ==> partner(p, o) < j
}

/// From a place outside every loop, the way leads to the end of the program.
proof fn lemma_walk_outside(p: Seq<Opcode>, j: int)
    requires
        paired(p),
        0 <= j <= p.len() <= usize::MAX,
        outside(p, j),
    ensures
        outside(p, p.len() as int),
    decreases p.len() - j,
{
    if j < p.len() {
        assert(depth(p, j + 1) == depth(p, j) + crate::brackets::depth_change(p[j]));
        if p[j].is_open() {
            lemma_pair_of_open(p, j);
            let u = partner(p, j);
            lemma_span(p, j);
            assert(outside(p, u + 1)) by {
                assert forall|m: int| 0 <= m <= u + 1 implies #[trigger] depth(p, m) >= 0 by {
                    if j < m <= u {
                        assert(depth(p, m) > depth(p, j));
                    }
                }
                assert forall|o: int| 0 <= o < u + 1 && (#[trigger] p[o]).is_open() implies partner(
                    p,
                    o,
                ) < u + 1 by {
                    if j < o {
                        lemma_nesting(p, j, o);
                    }
                }
            }
            lemma_walk_outside(p, u + 1);
        } else if p[j].is_close() {
            lemma_pair_of_close(p, j);
            let o = p[j]->JumpIfNonZero_target as int;
            assert(p[o].is_open());
            assert(false);
        } else {
            assert(outside(p, j + 1));
            lemma_walk_outside(p, j + 1);
        }
    }
}

/// A program that satisfies the pairing invariant has balanced brackets.
pub proof fn lemma_paired_balanced(p: Seq<Opcode>)
    requires
        well_paired(p),
        p.len() <= usize::MAX,
    ensures
        balanced(p),
{
    assert(paired(p)) by {
        reveal(paired);
    }
    assert(outside(p, 0));
    lemma_walk_outside(p, 0);
}

/// The depth of a sequence returns to a level for the first time in one
/// place only.
pub proof fn lemma_first_return_unique(p: Seq<Opcode>, k: int, floor: int, a: int, b: int)
    requires
        first_return(p, k, floor, a),
        first_return(p, k, floor, b),
    ensures
        a == b,
{
    if a < b {
        assert(depth(p, a + 1) > floor);
    } else if b < a {
        assert(depth(p, b + 1) > floor);
    }
}

/// In a program that satisfies the pairing invariant, the target of each
/// open is the index at which the depth first returns to what it was before
/// the open.
pub proof fn lemma_paired_matched(p: Seq<Opcode>)
    requires
        well_paired(p),
    ensures
        matched(p),
{
    assert(paired(p)) by {
        reveal(paired);
    }
    assert forall|i: int| 0 <= i < p.len() implies (#[trigger] p[i] matches Opcode::JumpIfZero {
        target,
    } ==> first_return(p, i + 1, depth(p, i), target as int)) by {
        if p[i].is_open() {
            lemma_span(p, i);
        }
    }
    reveal(matched);
}

/// The pairing invariant leaves no choice: two programs that satisfy it and
/// differ at most in their jump targets are the same.
pub proof fn lemma_pairing_unique(a: Seq<Opcode>, b: Seq<Opcode>)
    requires
        well_paired(a),
        well_paired(b),
        same_shape(a, b),
        a.len() <= usize::MAX,
    ensures
        a == b,
{
    lemma_paired_matched(a);
    lemma_paired_matched(b);
    assert forall|i: int| 0 <= i < a.len() implies a[i] == b[i] by {
        assert(a[i].is_open() == b[i].is_open());
        if a[i].is_open() {
            lemma_same_target(a, b, i);
        } else if a[i].is_close() {
            assert(close_paired(a, i));
            assert(close_paired(b, i));
            let o = a[i]->JumpIfNonZero_target as int;
            assert(a[o].is_open() == b[o].is_open());
            lemma_same_target(a, b, o);
            assert(open_paired(b, o));
        }
    }
    assert(a =~= b);
}

/// Two matched programs of one shape carry the same target on each open.
proof fn lemma_same_target(a: Seq<Opcode>, b: Seq<Opcode>, i: int)
    requires
        matched(a),
        matched(b),
        same_shape(a, b),
        0 <= i < a.len(),
        a[i].is_open(),
    ensures
        a[i] == b[i],
{
    assert(a[i].is_open() == b[i].is_open());
    lemma_matched_open(a, i);
    lemma_matched_open(b, i);
    let t = a[i]->JumpIfZero_target as int;
    let u = b[i]->JumpIfZero_target as int;
    assert(first_return(a, i + 1, depth(a, i), u)) by {
        lemma_same_shape_depth(a, b, i);
        lemma_same_shape_depth(a, b, u + 1);
        assert(a[u].is_close() == b[u].is_close());
        assert forall|j: int| i + 1 <= j <= u implies #[trigger] depth(a, j) > depth(a, i) by {
            lemma_same_shape_depth(a, b, j);
            assert(depth(b, j) > depth(b, i));
        }
    }
    lemma_first_return_unique(a, i + 1, depth(a, i), t, u);
}

/// Resolving the jump targets of a balanced sequence gives each bracket the
/// index of its partner by depth.
pub proof fn lemma_resolved_matched(p: Seq<Opcode>)
    requires
        balanced(p),
        p.len() <= usize::MAX,
    ensures
        matched(resolved(p)),
{
    lemma_resolved_paired(p);
    lemma_paired_matched(resolved(p));
}

/// What the open at `i` of a matched program carries: the index of a close
/// behind it that carries `i`, and where the depth first returns.
pub proof fn lemma_matched_open(p: Seq<Opcode>, i: int)
    requires
        matched(p),
        0 <= i < p.len(),
        p[i].is_open(),
    ensures
        i < p[i]->JumpIfZero_target < p.len(),
        p[p[i]->JumpIfZero_target as int] == (Opcode::JumpIfNonZero { target: i as usize }),
        first_return(p, i + 1, depth(p, i), p[i]->JumpIfZero_target as int),
{
    reveal(matched);
    assert(open_paired(p, i));
}

} // verus!
