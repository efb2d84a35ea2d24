//! The loop-shape transformer: innermost loops whose body is a balanced
//! multiply-accumulate shape, or a plain clear, are reduced to arithmetic.

use crate::brackets::{
    balanced, depth, lemma_depth_agree, lemma_depth_concat, lemma_depth_flat, reset_bracket,
    resolved, same_shape, well_paired,
};
use crate::opcodes::{
    lemma_weight_agree, lemma_weight_concat, lemma_weight_monotone, total_weight, weight, Opcode,
};
use crate::splice::{
    contents, lemma_ordered_apart, lemma_ordered_replaced, ranges_ordered, replace_segments,
    resume_at, spliced, spliced_upto,
};
use vstd::prelude::*;

verus! {

/// No bracket stands strictly between `i` and `j`.
pub open spec fn bracket_free(p: Seq<Opcode>, i: int, j: int) -> bool {
    forall|b: int| i < b < j ==> !(#[trigger] p[b]).is_bracket()
}

/// `i` and `j` are the open and the close of a loop that holds no other loop.
pub open spec fn innermost(p: Seq<Opcode>, i: int, j: int) -> bool {
    &&& 0 <= i < j < p.len()
    &&& p[i].is_open()
    &&& p[j].is_close()
    &&& bracket_free(p, i, j)
}

/// The innermost loops of a program, each as the indices of its open and of
/// its close, in the order in which they stand.
pub fn find_lowest_level_loops(opcodes: &Vec<Opcode>) -> (loops: Vec<(usize, usize)>)
    ensures
        forall|k: int|
            0 <= k < loops.len() ==> innermost(
                opcodes@,
                (#[trigger] loops[k]).0 as int,
                loops[k].1 as int,
            ),
        forall|k: int, l: int|
            0 <= k < l < loops.len() ==> (#[trigger] loops[k]).1 < (#[trigger] loops[l]).0,
        forall|i: int, j: int|
            innermost(opcodes@, i, j) ==> exists|k: int|
                0 <= k < loops.len() && (#[trigger] loops[k]).0 == i && loops[k].1 == j,
{
    let mut loops: Vec<(usize, usize)> = Vec::new();
    let mut last_open: Option<usize> = None;
    let mut pos: usize = 0;
    while pos < opcodes.len()
        invariant
            pos <= opcodes.len(),
            forall|k: int|
                0 <= k < loops.len() ==> innermost(
                    opcodes@,
                    (#[trigger] loops[k]).0 as int,
                    loops[k].1 as int,
                ) && loops[k].1 < pos,
            forall|k: int, l: int|
                0 <= k < l < loops.len() ==> (#[trigger] loops[k]).1 < (#[trigger] loops[l]).0,
            forall|i: int, j: int|
                innermost(opcodes@, i, j) && j < pos ==> exists|k: int|
                    0 <= k < loops.len() && (#[trigger] loops[k]).0 == i && loops[k].1 == j,
            match last_open {
                Some(i) => i < pos && opcodes@[i as int].is_open() && bracket_free(
                    opcodes@,
                    i as int,
                    pos as int,
                ),
                None => forall|i: int|
                    0 <= i < pos && (#[trigger] opcodes@[i]).is_open() ==> !bracket_free(
                        opcodes@,
                        i,
                        pos as int,
                    ),
            },
        decreases opcodes.len() - pos,
    {
        let ghost found = loops@;
        match opcodes[pos] {
            Opcode::JumpIfZero { .. } => {
                last_open = Some(pos);
            },
            Opcode::JumpIfNonZero { .. } => {
                match last_open {
                    Some(start) => {
                        loops.push((start, pos));
                        proof {
                            assert forall|i: int, j: int|
                                innermost(opcodes@, i, j) && j < pos + 1 implies exists|k: int|
                                0 <= k < loops.len() && (#[trigger] loops[k]).0 == i
                                    && loops[k].1 == j by {
                                if j < pos {
                                    let k = choose|k: int|
                                        0 <= k < found.len() && (#[trigger] found[k]).0 == i
                                            && found[k].1 == j;
                                    assert(loops[k] == found[k]);
                                } else {
                                    if i < start {
                                        assert(opcodes@[start as int].is_bracket());
                                    } else if i > start {
                                        assert(opcodes@[i].is_bracket());
                                    }
                                    assert(loops[found.len() as int] == (start, pos));
                                }
                            }
                        }
                    },
                    None => {
                        proof {
                            assert forall|i: int, j: int|
                                innermost(opcodes@, i, j) && j < pos + 1 implies exists|k: int|
                                0 <= k < loops.len() && (#[trigger] loops[k]).0 == i
                                    && loops[k].1 == j by {
                                if j == pos {
                                    assert(opcodes@[i].is_open());
                                    assert(!bracket_free(opcodes@, i, pos as int));
                                }
                            }
                        }
                    },
                }
                last_open = None;
                proof {
                    assert forall|i: int|
                        0 <= i < pos + 1 && (#[trigger] opcodes@[i]).is_open() implies !bracket_free(
                        opcodes@,
                        i,
                        pos + 1,
                    ) by {
                        assert(opcodes@[pos as int].is_bracket());
                    }
                }
            },
            _ => {
                proof {
                    match last_open {
                        Some(i) => {},
                        None => {
                            assert forall|i: int|
                                0 <= i < pos + 1 && (#[trigger] opcodes@[i]).is_open() implies !bracket_free(
                                opcodes@,
                                i,
                                pos + 1,
                            ) by {
                                assert(!bracket_free(opcodes@, i, pos as int));
                                let b = choose|b: int|
                                    i < b < pos && (#[trigger] opcodes@[b]).is_bracket();
                                assert(opcodes@[b].is_bracket());
                            }
                        },
                    }
                }
            },
        }
        pos += 1;
    }
    loops
}

/// The sum of the deltas of the `Move` opcodes of a body.
pub open spec fn net_movement(body: Seq<Opcode>) -> int
    decreases body.len(),
{
    if body.len() == 0 {
        0
    } else {
        net_movement(body.drop_last()) + match body.last() {
            Opcode::Move { delta } => delta as int,
            _ => 0,
        }
    }
}

/// A body of `Move` and `Change` opcodes alone that leaves the data pointer
/// where it was.
pub open spec fn simple_body(body: Seq<Opcode>) -> bool {
    &&& forall|i: int| 0 <= i < body.len() ==> (#[trigger] body[i]) is Move || body[i] is Change
    &&& net_movement(body) == 0
}

/// The opcodes strictly between `start` and `end`.
pub open spec fn loop_body(p: Seq<Opcode>, start: int, end: int) -> Seq<Opcode> {
    p.subrange(start + 1, end)
}

proof fn lemma_net_movement_bound(body: Seq<Opcode>)
    ensures
        -0x8000_0000 * body.len() <= net_movement(body) <= 0x8000_0000 * body.len(),
    decreases body.len(),
{
    if body.len() > 0 {
        lemma_net_movement_bound(body.drop_last());
    }
}

/// Whether the loop from `start` to `end` only moves and changes, and ends
/// each round where it began.
pub fn is_simple_loop(opcodes: &Vec<Opcode>, start: usize, end: usize) -> (simple: bool)
    requires
        start < end <= opcodes.len(),
    ensures
        simple == simple_body(loop_body(opcodes@, start as int, end as int)),
{
    let ghost body = loop_body(opcodes@, start as int, end as int);
    let mut movement: i128 = 0;
    let mut i: usize = start + 1;
    while i < end
        invariant
            start < i <= end <= opcodes.len(),
            body == loop_body(opcodes@, start as int, end as int),
            movement == net_movement(body.take(i - start - 1)),
            forall|k: int|
                0 <= k < i - start - 1 ==> (#[trigger] body[k]) is Move || body[k] is Change,
        decreases end - i,
    {
        proof {
            let upto = body.take(i - start);
            assert(upto.drop_last() == body.take(i - start - 1));
            assert(upto.last() == opcodes@[i as int]);
            lemma_net_movement_bound(body.take(i - start - 1));
        }
        match opcodes[i] {
            Opcode::Move { delta } => {
                movement = movement + delta as i128;
            },
            Opcode::Change { .. } => {},
            _ => {
                assert(!(body[i - start - 1] is Move || body[i - start - 1] is Change));
                return false;
            },
        }
        i += 1;
    }
    assert(body.take(end - start - 1) == body);
    movement == 0
}

/// Where the first `Move` of an alternating body stands: at 1 if the body
/// begins with the change of the counter, at 0 if it ends with it.
pub open spec fn first_move(body: Seq<Opcode>) -> int {
    if body[0] is Change {
        1
    } else {
        0
    }
}

/// A body of four, six or eight opcodes in which `Move` and `Change`
/// alternate.
pub open spec fn alternating(body: Seq<Opcode>) -> bool {
    &&& body.len() == 4 || body.len() == 6 || body.len() == 8
    &&& forall|i: int|
        0 <= i < body.len() ==> if i % 2 == first_move(body) {
            (#[trigger] body[i]) is Move
        } else {
            body[i] is Change
        }
}

/// The change that an alternating body applies to the counter cell itself:
/// its first opcode, or else its last.
pub open spec fn counter_step(body: Seq<Opcode>) -> int {
    if first_move(body) == 1 {
        body[0]->Change_delta as int
    } else {
        body[body.len() - 1]->Change_delta as int
    }
}

/// How many cells other than the counter an alternating body adds to.
pub open spec fn target_count(body: Seq<Opcode>) -> int {
    body.len() / 2 - 1
}

/// How far from the counter the `k`-th target lies (counted from 1): the sum
/// of the first `k` moves.
pub open spec fn target_offset(body: Seq<Opcode>, k: int) -> int
    decreases k,
{
    if k <= 0 {
        0
    } else {
        target_offset(body, k - 1) + body[first_move(body) + 2 * (k - 1)]->Move_delta
    }
}

/// What the `k`-th target gains for each unit that the counter held: the
/// change applied to it, negated where the counter counts upwards.
pub open spec fn target_factor(body: Seq<Opcode>, k: int) -> int {
    let added = body[first_move(body) + 2 * (k - 1) + 1]->Change_delta as int;
    if counter_step(body) == -1 {
        added
    } else {
        -added
    }
}

/// The `k`-th target is a cell other than the counter, and its `Multi` can be
/// written down.
pub open spec fn target_ok(body: Seq<Opcode>, k: int) -> bool {
    &&& target_offset(body, k) != 0
    &&& i32::MIN <= target_offset(body, k) <= i32::MAX
    &&& i32::MIN <= target_factor(body, k) <= i32::MAX
}

/// The `Multi` that stands for the `k`-th target.
pub open spec fn target_multi(body: Seq<Opcode>, k: int) -> Opcode {
    Opcode::Multi { offset: target_offset(body, k) as i32, factor: target_factor(body, k) as i32 }
}

/// A multiply-accumulate body: alternating, with a counter that steps by one
/// and up to three targets, none of them the counter.
pub open spec fn multiply_body(body: Seq<Opcode>) -> bool {
    &&& alternating(body)
    &&& counter_step(body) == 1 || counter_step(body) == -1
    &&& forall|k: int| 1 <= k <= target_count(body) ==> #[trigger] target_ok(body, k)
}

/// What a multiply-accumulate loop is reduced to: one `Multi` for each
/// target, then the clearing of the counter.
pub open spec fn multiply_reduction(body: Seq<Opcode>) -> Seq<Opcode> {
    Seq::new(target_count(body) as nat, |k: int| target_multi(body, k + 1)).push(
        Opcode::SetTo { value: 0 },
    )
}

/// A body that is one step of the counter and nothing else.
pub open spec fn clear_body(body: Seq<Opcode>) -> bool {
    body.len() == 1 && (body[0] == (Opcode::Change { delta: 1i32 }) || body[0] == (Opcode::Change {
        delta: -1i32,
    }))
}

/// The catalogue of loop shapes: what replaces a loop with the given body,
/// brackets included, if anything does.
pub open spec fn loop_rewrite(body: Seq<Opcode>) -> Option<Seq<Opcode>> {
    if !simple_body(body) {
        None
    } else if clear_body(body) {
        Some(seq![Opcode::SetTo { value: 0 }])
    } else if multiply_body(body) {
        Some(multiply_reduction(body))
    } else {
        None
    }
}

/// The replacement for the loop from `start` to `end` if its body is in the
/// catalogue of shapes, and `None` if it is not.
pub fn find_transform_if_multi_loop(opcodes: &Vec<Opcode>, start: usize, end: usize) -> (found:
    Option<Vec<Opcode>>)
    requires
        start < end <= opcodes.len(),
    ensures
        match found {
            Some(replacement) => loop_rewrite(loop_body(opcodes@, start as int, end as int))
                == Some(replacement@),
            None => loop_rewrite(loop_body(opcodes@, start as int, end as int)) is None,
        },
{
    let ghost body = loop_body(opcodes@, start as int, end as int);
    if !is_simple_loop(opcodes, start, end) {
        return None;
    }
    let first = start + 1;
    let len = end - first;
    if len == 1 {
        return match opcodes[first] {
            Opcode::Change { delta } => {
                if delta == 1 || delta == -1 {
                    let mut replacement: Vec<Opcode> = Vec::new();
                    replacement.push(Opcode::SetTo { value: 0 });
                    assert(replacement@ == seq![Opcode::SetTo { value: 0 }]);
                    Some(replacement)
                } else {
                    None
                }
            },
            _ => None,
        };
    }
    if len != 4 && len != 6 && len != 8 {
        return None;
    }
    let base: usize = match opcodes[first] {
        Opcode::Change { .. } => 1,
        _ => 0,
    };
    assert(base == first_move(body));
    // Move and Change must alternate.
    let mut i: usize = 0;
    while i < len
        invariant
            i <= len,
            len == body.len(),
            first + len == end <= opcodes.len(),
            body == loop_body(opcodes@, start as int, end as int),
            first == start + 1,
            base == first_move(body),
            base <= 1,
            simple_body(body),
            forall|t: int|
                0 <= t < i ==> if t % 2 == base as int {
                    (#[trigger] body[t]) is Move
                } else {
                    body[t] is Change
                },
        decreases len - i,
    {
        let is_move = match opcodes[first + i] {
            Opcode::Move { .. } => true,
            _ => false,
        };
        assert(body[i as int] == opcodes@[first + i]);
        if is_move != (i % 2 == base) {
            assert(!alternating(body));
            return None;
        }
        i += 1;
    }
    assert(alternating(body));
    let counter = match opcodes[if base == 1 { first } else { end - 1 }] {
        Opcode::Change { delta } => delta,
        _ => 0,
    };
    assert(body[0] == opcodes@[first as int]);
    assert(body[len - 1] == opcodes@[end - 1]);
    assert(len % 2 == 0);
    assert(counter == counter_step(body));
    if counter != 1 && counter != -1 {
        return None;
    }
    let targets = len / 2 - 1;
    let mut replacement: Vec<Opcode> = Vec::new();
    let mut offset: i64 = 0;
    let mut k: usize = 0;
    while k < targets
        invariant
            k <= targets <= 3,
            targets == target_count(body),
            len == body.len(),
            len == 2 * targets + 2,
            first + len == end <= opcodes.len(),
            body == loop_body(opcodes@, start as int, end as int),
            first == start + 1,
            base == first_move(body),
            base <= 1,
            alternating(body),
            counter == counter_step(body),
            counter == 1 || counter == -1,
            offset == target_offset(body, k as int),
            -0x8000_0000 * k <= offset <= 0x8000_0000 * k,
            forall|t: int| 1 <= t <= k ==> #[trigger] target_ok(body, t),
            replacement@ == Seq::new(k as nat, |t: int| target_multi(body, t + 1)),
        decreases targets - k,
    {
        let at = first + base + 2 * k;
        assert(body[base + 2 * k] == opcodes@[at as int]);
        assert(body[base + 2 * k + 1] == opcodes@[at + 1]);
        assert(body[base + 2 * k] is Move);
        assert(body[base + 2 * k + 1] is Change);
        let moved = match opcodes[at] {
            Opcode::Move { delta } => delta,
            _ => 0,
        };
        let added = match opcodes[at + 1] {
            Opcode::Change { delta } => delta,
            _ => 0,
        };
        offset = offset + moved as i64;
        assert(offset == target_offset(body, k + 1));
        assert(added == body[first_move(body) + 2 * ((k + 1) - 1) + 1]->Change_delta);
        if offset == 0 || offset < -0x8000_0000 || offset > 0x7fff_ffff {
            assert(!target_ok(body, k + 1));
            return None;
        }
        if counter == 1 && added == i32::MIN {
            assert(!target_ok(body, k + 1));
            return None;
        }
        let factor = if counter == -1 {
            added
        } else {
            -added
        };
        assert(factor == target_factor(body, k + 1));
        assert(target_ok(body, k + 1));
        let ghost before = replacement@;
        replacement.push(Opcode::Multi { offset: offset as i32, factor });
        assert(replacement@ == Seq::new((k + 1) as nat, |t: int| target_multi(body, t + 1)));
        k += 1;
    }
    replacement.push(Opcode::SetTo { value: 0 });
    assert(multiply_body(body));
    assert(!clear_body(body));
    Some(replacement)
}

/// The index of the last bracket before `n`, or -1 if there is none.
pub open spec fn last_bracket(p: Seq<Opcode>, n: int) -> int
    decreases n,
{
    if n <= 0 {
        -1
    } else if p[n - 1].is_bracket() {
        n - 1
    } else {
        last_bracket(p, n - 1)
    }
}

/// The close at `j` ends an innermost loop that the catalogue reduces.
pub open spec fn closes_reducible(p: Seq<Opcode>, j: int) -> bool {
    let i = last_bracket(p, j);
    &&& p[j].is_close()
    &&& i >= 0
    &&& p[i].is_open()
    &&& loop_rewrite(loop_body(p, i, j)) is Some
}

/// What the transformer makes of the first `n` opcodes: at the close of a
/// loop that the catalogue reduces, what it made of the opcodes before the
/// loop, followed by the reduction; anywhere else, one more opcode copied.
pub open spec fn reduced_prefix(p: Seq<Opcode>, n: int) -> Seq<Opcode>
    decreases n,
{
    if n <= 0 {
        Seq::empty()
    } else if closes_reducible(p, n - 1) {
        let i = last_bracket(p, n - 1);
        proof {
            lemma_last_bracket(p, n - 1);
        }
        reduced_prefix(p, i) + loop_rewrite(loop_body(p, i, n - 1))->Some_0
    } else {
        reduced_prefix(p, n - 1).push(p[n - 1])
    }
}

/// The program with every reducible innermost loop reduced.
pub open spec fn loops_reduced(p: Seq<Opcode>) -> Seq<Opcode> {
    reduced_prefix(p, p.len() as int)
}

/// The last bracket before `n` is a bracket before `n`, with none behind it.
pub proof fn lemma_last_bracket(p: Seq<Opcode>, n: int)
    ensures
        -1 <= last_bracket(p, n),
        n > 0 ==> last_bracket(p, n) < n,
        last_bracket(p, n) >= 0 ==> p[last_bracket(p, n)].is_bracket(),
        forall|b: int| last_bracket(p, n) < b < n ==> !(#[trigger] p[b]).is_bracket(),
    decreases n,
{
    if n > 0 && !p[n - 1].is_bracket() {
        lemma_last_bracket(p, n - 1);
    }
}

/// An innermost loop is a close whose last bracket before it is an open.
pub proof fn lemma_innermost_last_bracket(p: Seq<Opcode>, i: int, j: int)
    requires
        0 <= j < p.len(),
    ensures
        innermost(p, i, j) <==> p[j].is_close() && last_bracket(p, j) == i && i >= 0
            && p[i].is_open(),
{
    lemma_last_bracket(p, j);
    let last = last_bracket(p, j);
    if innermost(p, i, j) {
        assert(p[i].is_bracket());
        if last > i {
            assert(p[last].is_bracket());
        }
    }
}

/// A reduction holds no bracket.
pub proof fn lemma_rewrite_flat(body: Seq<Opcode>)
    requires
        loop_rewrite(body) is Some,
    ensures
        forall|k: int|
            0 <= k < loop_rewrite(body)->Some_0.len() ==> !(#[trigger] loop_rewrite(
                body,
            )->Some_0[k]).is_bracket(),
{
}

/// The ranges and replacements that the transformer hands to the splicer:
/// exactly the innermost loops that the catalogue reduces, in order, each
/// with its reduction.
pub open spec fn is_plan(p: Seq<Opcode>, from: Seq<(usize, usize)>, to: Seq<Seq<Opcode>>) -> bool {
    &&& from.len() == to.len()
    &&& forall|k: int|
        0 <= k < from.len() ==> innermost(p, (#[trigger] from[k]).0 as int, from[k].1 as int)
            && loop_rewrite(loop_body(p, from[k].0 as int, from[k].1 as int)) == Some(to[k])
    &&& forall|k: int, l: int|
        0 <= k < l < from.len() ==> (#[trigger] from[k]).1 < (#[trigger] from[l]).0
    &&& forall|i: int, j: int|
        innermost(p, i, j) && loop_rewrite(loop_body(p, i, j)) is Some ==> exists|k: int|
            0 <= k < from.len() && (#[trigger] from[k]).0 == i && from[k].1 == j
}

proof fn lemma_plan_prefix(
    p: Seq<Opcode>,
    from: Seq<(usize, usize)>,
    to: Seq<Seq<Opcode>>,
    n: int,
    k: int,
)
    requires
        is_plan(p, from, to),
        0 <= k <= from.len(),
        resume_at(from, k) <= n <= p.len(),
        k < from.len() ==> n <= from[k].0,
    ensures
        reduced_prefix(p, n) == spliced_upto(p, from, to, k) + p.subrange(resume_at(from, k), n),
    decreases n,
{
    if n == resume_at(from, k) {
        if k > 0 {
            let i = from[k - 1].0 as int;
            let j = from[k - 1].1 as int;
            assert(innermost(p, i, j));
            lemma_innermost_last_bracket(p, i, j);
            assert(closes_reducible(p, j));
            if k - 1 > 0 {
                assert(from[k - 2].1 < from[k - 1].0);
            }
            lemma_plan_prefix(p, from, to, i, k - 1);
            assert(p.subrange(resume_at(from, k), n) == Seq::<Opcode>::empty());
            assert(reduced_prefix(p, n) == spliced_upto(p, from, to, k) + p.subrange(
                resume_at(from, k),
                n,
            ));
        } else {
            assert(p.subrange(0, 0) == Seq::<Opcode>::empty());
        }
    } else {
        let j = n - 1;
        if closes_reducible(p, j) {
            let i = last_bracket(p, j);
            lemma_innermost_last_bracket(p, i, j);
            assert(innermost(p, i, j));
            let found = choose|found: int|
                0 <= found < from.len() && (#[trigger] from[found]).0 == i && from[found].1 == j;
            if found < k {
                if found < k - 1 {
                    assert(from[found].1 < from[k - 1].0);
                }
                assert(from[k - 1].0 <= from[k - 1].1) by {
                    assert(innermost(p, from[k - 1].0 as int, from[k - 1].1 as int));
                }
                assert(false);
            } else {
                if found > k {
                    assert(from[k].1 < from[found].0);
                }
                assert(from[k].0 <= from[k].1) by {
                    assert(innermost(p, from[k].0 as int, from[k].1 as int));
                }
                assert(false);
            }
        }
        lemma_plan_prefix(p, from, to, n - 1, k);
        assert(p.subrange(resume_at(from, k), n) == p.subrange(resume_at(from, k), n - 1).push(
            p[n - 1],
        ));
    }
}

/// Splicing by the transformer's plan gives the reduced program.
pub proof fn lemma_plan_spliced(p: Seq<Opcode>, from: Seq<(usize, usize)>, to: Seq<Seq<Opcode>>)
    requires
        is_plan(p, from, to),
    ensures
        spliced(p, from, to) == loops_reduced(p),
{
    let m = from.len() as int;
    if m > 0 {
        assert(innermost(p, from[m - 1].0 as int, from[m - 1].1 as int));
    }
    lemma_plan_prefix(p, from, to, p.len() as int, m);
}

proof fn lemma_reduced_depth(p: Seq<Opcode>, n: int)
    requires
        0 <= n <= p.len(),
        forall|m: int| 0 <= m <= p.len() ==> #[trigger] depth(p, m) >= 0,
    ensures
        depth(reduced_prefix(p, n), reduced_prefix(p, n).len() as int) == depth(p, n),
        forall|m: int|
            0 <= m <= reduced_prefix(p, n).len() ==> #[trigger] depth(reduced_prefix(p, n), m)
                >= 0,
    decreases n,
{
    let r = reduced_prefix(p, n);
    if n <= 0 {
    } else if closes_reducible(p, n - 1) {
        let j = n - 1;
        let i = last_bracket(p, j);
        lemma_last_bracket(p, j);
        lemma_reduced_depth(p, i);
        let front = reduced_prefix(p, i);
        let w = loop_rewrite(loop_body(p, i, j))->Some_0;
        lemma_rewrite_flat(loop_body(p, i, j));
        assert(r == front + w);
        assert forall|m: int| 0 <= m <= r.len() implies #[trigger] depth(r, m) >= 0 by {
            if m <= front.len() {
                lemma_depth_agree(r, front, m);
            } else {
                lemma_depth_concat(front, w, m - front.len());
                lemma_depth_flat(w, 0, m - front.len());
            }
            assert(depth(p, i) >= 0);
        }
        lemma_depth_concat(front, w, w.len() as int);
        lemma_depth_flat(w, 0, w.len() as int);
        lemma_depth_flat(p, i + 1, j);
        assert(depth(p, j + 1) == depth(p, j) - 1);
        assert(depth(p, i + 1) == depth(p, i) + 1);
    } else {
        lemma_reduced_depth(p, n - 1);
        let front = reduced_prefix(p, n - 1);
        assert forall|m: int| 0 <= m <= r.len() implies #[trigger] depth(r, m) >= 0 by {
            if m <= front.len() {
                lemma_depth_agree(r, front, m);
            } else {
                lemma_depth_agree(r, front, front.len() as int);
                assert(depth(p, n) >= 0);
            }
        }
        lemma_depth_agree(r, front, front.len() as int);
    }
}

/// Reducing loops keeps a balanced program balanced.
pub proof fn lemma_reduced_balanced(p: Seq<Opcode>)
    requires
        balanced(p),
    ensures
        balanced(loops_reduced(p)),
{
    lemma_reduced_depth(p, p.len() as int);
}

/// A reduction weighs nothing.
pub proof fn lemma_rewrite_weight(body: Seq<Opcode>)
    requires
        loop_rewrite(body) is Some,
    ensures
        total_weight(loop_rewrite(body)->Some_0) == 0,
{
    let w = loop_rewrite(body)->Some_0;
    let zeros = Seq::new(w.len(), |k: int| Opcode::SetTo { value: 0 });
    lemma_weight_agree(w, zeros, w.len() as int);
    lemma_zero_weight(zeros, zeros.len() as int);
}

proof fn lemma_zero_weight(p: Seq<Opcode>, n: int)
    requires
        0 <= n <= p.len(),
        forall|k: int| 0 <= k < p.len() ==> (#[trigger] p[k]).magnitude() == 0,
    ensures
        weight(p, n) == 0,
    decreases n,
{
    if n > 0 {
        lemma_zero_weight(p, n - 1);
    }
}

proof fn lemma_reduced_prefix_weight(p: Seq<Opcode>, n: int)
    requires
        0 <= n <= p.len(),
    ensures
        total_weight(reduced_prefix(p, n)) <= weight(p, n),
    decreases n,
{
    if n <= 0 {
    } else if closes_reducible(p, n - 1) {
        let i = last_bracket(p, n - 1);
        lemma_last_bracket(p, n - 1);
        lemma_reduced_prefix_weight(p, i);
        let w = loop_rewrite(loop_body(p, i, n - 1))->Some_0;
        lemma_rewrite_weight(loop_body(p, i, n - 1));
        lemma_weight_concat(reduced_prefix(p, i), w);
        lemma_weight_monotone(p, i, n);
    } else {
        lemma_reduced_prefix_weight(p, n - 1);
        let front = reduced_prefix(p, n - 1);
        lemma_weight_agree(front.push(p[n - 1]), front, front.len() as int);
    }
}

/// Reducing loops does not add to the weight of a program.
pub proof fn lemma_reduced_weight(p: Seq<Opcode>)
    ensures
        total_weight(loops_reduced(p)) <= total_weight(p),
{
    lemma_reduced_prefix_weight(p, p.len() as int);
}

proof fn lemma_reduced_prefix_len(p: Seq<Opcode>, n: int)
    requires
        0 <= n <= p.len(),
    ensures
        reduced_prefix(p, n).len() <= n,
    decreases n,
{
    if n <= 0 {
    } else if closes_reducible(p, n - 1) {
        let i = last_bracket(p, n - 1);
        lemma_last_bracket(p, n - 1);
        lemma_reduced_prefix_len(p, i);
    } else {
        lemma_reduced_prefix_len(p, n - 1);
    }
}

/// Reducing loops never lengthens a program.
pub proof fn lemma_reduced_len(p: Seq<Opcode>)
    ensures
        loops_reduced(p).len() <= p.len(),
{
    lemma_reduced_prefix_len(p, p.len() as int);
}

/// Whether the catalogue reduces the `u`-th of the given loops.
spec fn reducible(p: Seq<Opcode>, loops: Seq<(usize, usize)>, u: int) -> bool {
    loop_rewrite(loop_body(p, loops[u].0 as int, loops[u].1 as int)) is Some
}

/// The `k`-th range chosen so far is the loop that `picks[k]` names, and its
/// replacement is what the catalogue gives for it.
spec fn pick_ok(
    p: Seq<Opcode>,
    loops: Seq<(usize, usize)>,
    from: Seq<(usize, usize)>,
    to: Seq<Seq<Opcode>>,
    picks: Seq<int>,
    t: int,
    k: int,
) -> bool {
    &&& 0 <= picks[k] < t
    &&& from[k] == loops[picks[k]]
    &&& loop_rewrite(loop_body(p, from[k].0 as int, from[k].1 as int)) == Some(to[k])
}

/// What holds once the first `t` loops have been looked at: the ranges
/// chosen are, in order, those of them that the catalogue reduces.
spec fn picked(
    p: Seq<Opcode>,
    loops: Seq<(usize, usize)>,
    from: Seq<(usize, usize)>,
    to: Seq<Seq<Opcode>>,
    picks: Seq<int>,
    t: int,
) -> bool {
    &&& from.len() == to.len()
    &&& from.len() == picks.len()
    &&& forall|k: int| 0 <= k < picks.len() ==> #[trigger] pick_ok(p, loops, from, to, picks, t, k)
    &&& forall|k: int, l: int|
        0 <= k < l < picks.len() ==> #[trigger] picks[k] < #[trigger] picks[l]
    &&& forall|u: int|
        0 <= u < t && #[trigger] reducible(p, loops, u) ==> exists|k: int|
            0 <= k < picks.len() && #[trigger] picks[k] == u
}

proof fn lemma_pick(
    p: Seq<Opcode>,
    loops: Seq<(usize, usize)>,
    from: Seq<(usize, usize)>,
    to: Seq<Seq<Opcode>>,
    picks: Seq<int>,
    t: int,
    r: Seq<Opcode>,
)
    requires
        picked(p, loops, from, to, picks, t),
        0 <= t < loops.len(),
        loop_rewrite(loop_body(p, loops[t].0 as int, loops[t].1 as int)) == Some(r),
    ensures
        picked(p, loops, from.push(loops[t]), to.push(r), picks.push(t), t + 1),
{
    let from2 = from.push(loops[t]);
    let to2 = to.push(r);
    let picks2 = picks.push(t);
    assert forall|k: int| 0 <= k < picks2.len() implies #[trigger] pick_ok(
        p,
        loops,
        from2,
        to2,
        picks2,
        t + 1,
        k,
    ) by {
        if k < picks.len() {
            assert(pick_ok(p, loops, from, to, picks, t, k));
        }
    }
    assert forall|k: int, l: int| 0 <= k < l < picks2.len() implies #[trigger] picks2[k]
        < #[trigger] picks2[l] by {
        assert(pick_ok(p, loops, from, to, picks, t, k));
        if l < picks.len() {
            assert(picks[k] < picks[l]);
        }
    }
    assert forall|u: int| 0 <= u < t + 1 && #[trigger] reducible(p, loops, u) implies exists|
        k: int,
    | 0 <= k < picks2.len() && #[trigger] picks2[k] == u by {
        if u < t {
            let k = choose|k: int| 0 <= k < picks.len() && #[trigger] picks[k] == u;
            assert(picks2[k] == u);
        } else {
            assert(picks2[picks.len() as int] == u);
        }
    }
}

proof fn lemma_skip(
    p: Seq<Opcode>,
    loops: Seq<(usize, usize)>,
    from: Seq<(usize, usize)>,
    to: Seq<Seq<Opcode>>,
    picks: Seq<int>,
    t: int,
)
    requires
        picked(p, loops, from, to, picks, t),
        0 <= t < loops.len(),
        loop_rewrite(loop_body(p, loops[t].0 as int, loops[t].1 as int)) is None,
    ensures
        picked(p, loops, from, to, picks, t + 1),
{
    assert forall|k: int| 0 <= k < picks.len() implies #[trigger] pick_ok(
        p,
        loops,
        from,
        to,
        picks,
        t + 1,
        k,
    ) by {
        assert(pick_ok(p, loops, from, to, picks, t, k));
    }
    assert forall|u: int| 0 <= u < t + 1 && #[trigger] reducible(p, loops, u) implies exists|
        k: int,
    | 0 <= k < picks.len() && #[trigger] picks[k] == u by {
        assert(u < t);
    }
}

proof fn lemma_picked_plan(
    p: Seq<Opcode>,
    loops: Seq<(usize, usize)>,
    from: Seq<(usize, usize)>,
    to: Seq<Seq<Opcode>>,
    picks: Seq<int>,
)
    requires
        picked(p, loops, from, to, picks, loops.len() as int),
        forall|k: int|
            0 <= k < loops.len() ==> innermost(
                p,
                (#[trigger] loops[k]).0 as int,
                loops[k].1 as int,
            ),
        forall|k: int, l: int|
            0 <= k < l < loops.len() ==> (#[trigger] loops[k]).1 < (#[trigger] loops[l]).0,
        forall|i: int, j: int|
            innermost(p, i, j) ==> exists|k: int|
                0 <= k < loops.len() && (#[trigger] loops[k]).0 == i && loops[k].1 == j,
    ensures
        is_plan(p, from, to),
{
    let t = loops.len() as int;
    assert forall|k: int| 0 <= k < from.len() implies innermost(
        p,
        (#[trigger] from[k]).0 as int,
        from[k].1 as int,
    ) && loop_rewrite(loop_body(p, from[k].0 as int, from[k].1 as int)) == Some(to[k]) by {
        assert(pick_ok(p, loops, from, to, picks, t, k));
        assert(innermost(p, loops[picks[k]].0 as int, loops[picks[k]].1 as int));
    }
    assert forall|k: int, l: int| 0 <= k < l < from.len() implies (#[trigger] from[k]).1 < (
    #[trigger] from[l]).0 by {
        assert(pick_ok(p, loops, from, to, picks, t, k));
        assert(pick_ok(p, loops, from, to, picks, t, l));
        assert(picks[k] < picks[l]);
        assert(loops[picks[k]].1 < loops[picks[l]].0);
    }
    assert forall|i: int, j: int|
        innermost(p, i, j) && loop_rewrite(loop_body(p, i, j)) is Some implies exists|k: int|
        0 <= k < from.len() && (#[trigger] from[k]).0 == i && from[k].1 == j by {
        let u = choose|u: int|
            0 <= u < loops.len() && (#[trigger] loops[u]).0 == i && loops[u].1 == j;
        assert(reducible(p, loops, u));
        let k = choose|k: int| 0 <= k < picks.len() && #[trigger] picks[k] == u;
        assert(pick_ok(p, loops, from, to, picks, t, k));
        assert(from[k].0 == i && from[k].1 == j);
    }
}

/// Reduces every innermost loop whose body the catalogue of shapes holds,
/// and resolves the jump targets of what remains.
pub fn loop_transformations(opcodes: Vec<Opcode>) -> (result: Vec<Opcode>)
    requires
        balanced(opcodes@),
    ensures
        result@ == resolved(loops_reduced(opcodes@)),
        same_shape(result@, loops_reduced(opcodes@)),
        well_paired(result@),
        balanced(result@),
{
    let lll = find_lowest_level_loops(&opcodes);
    let mut regions_to_replace: Vec<(usize, usize)> = Vec::new();
    let mut replacements: Vec<Vec<Opcode>> = Vec::new();
    let ghost mut picks: Seq<int> = Seq::empty();
    let mut t: usize = 0;
    while t < lll.len()
        invariant
            t <= lll.len(),
            forall|k: int|
                0 <= k < lll.len() ==> innermost(
                    opcodes@,
                    (#[trigger] lll[k]).0 as int,
                    lll[k].1 as int,
                ),
            picked(opcodes@, lll@, regions_to_replace@, contents(replacements@), picks, t as int),
        decreases lll.len() - t,
    {
        let (x, y) = lll[t];
        assert(innermost(opcodes@, lll[t as int].0 as int, lll[t as int].1 as int));
        let repl = find_transform_if_multi_loop(&opcodes, x, y);
        match repl {
            Some(replacement) => {
                proof {
                    lemma_pick(
                        opcodes@,
                        lll@,
                        regions_to_replace@,
                        contents(replacements@),
                        picks,
                        t as int,
                        replacement@,
                    );
                    picks = picks.push(t as int);
                    assert(contents(replacements@.push(replacement)) == contents(
                        replacements@,
                    ).push(replacement@));
                }
                regions_to_replace.push((x, y));
                replacements.push(replacement);
            },
            None => {
                proof {
                    lemma_skip(
                        opcodes@,
                        lll@,
                        regions_to_replace@,
                        contents(replacements@),
                        picks,
                        t as int,
                    );
                }
            },
        }
        t += 1;
    }
    proof {
        let from = regions_to_replace@;
        let to = contents(replacements@);
        lemma_picked_plan(opcodes@, lll@, from, to, picks);
        lemma_plan_spliced(opcodes@, from, to);
        lemma_reduced_balanced(opcodes@);
        assert forall|k: int| 0 <= k < from.len() implies (#[trigger] from[k]).0 <= from[k].1
            < opcodes@.len() by {
            assert(innermost(opcodes@, from[k].0 as int, from[k].1 as int));
        }
        assert(ranges_ordered(from, opcodes@.len() as int));
        lemma_ordered_apart(from, opcodes@.len() as int);
        lemma_ordered_replaced(opcodes@, from, to);
    }
    let spliced_code = replace_segments(opcodes, regions_to_replace, replacements);
    reset_bracket(spliced_code)
}

} // verus!
