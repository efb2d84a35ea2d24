//! The segment splicer: replaces index ranges of an opcode sequence by other
//! opcode sequences and copies the rest.

use crate::opcodes::Opcode;
use vstd::prelude::*;

verus! {

/// The ranges lie inside a sequence of length `len`, and no two of them
/// overlap.
pub open spec fn ranges_apart(from: Seq<(usize, usize)>, len: int) -> bool {
    &&& forall|k: int| 0 <= k < from.len() ==> (#[trigger] from[k]).0 <= from[k].1 < len
    &&& forall|k: int, l: int|
        0 <= k < from.len() && 0 <= l < from.len() && k != l ==> (#[trigger] from[k]).1 < (
        #[trigger] from[l]).0 || from[l].1 < from[k].0
}

/// The ranges lie inside a sequence of length `len`, in increasing order and
/// apart from each other.
pub open spec fn ranges_ordered(from: Seq<(usize, usize)>, len: int) -> bool {
    &&& forall|k: int| 0 <= k < from.len() ==> (#[trigger] from[k]).0 <= from[k].1 < len
    &&& forall|k: int, l: int|
        0 <= k < l < from.len() ==> (#[trigger] from[k]).1 < (#[trigger] from[l]).0
}

/// The index of the last of the first `n` ranges that starts at `i`, or -1
/// if none of them does.
pub open spec fn range_starting_at(from: Seq<(usize, usize)>, i: int, n: int) -> int
    decreases n,
{
    if n <= 0 {
        -1
    } else if from[n - 1].0 == i {
        n - 1
    } else {
        range_starting_at(from, i, n - 1)
    }
}

/// The output from index `i` on: where a range starts that lies in the
/// sequence, its replacement and then the output from behind the range on;
/// anywhere else, the opcode and then the output from the next index on.
pub open spec fn replaced_from(
    p: Seq<Opcode>,
    from: Seq<(usize, usize)>,
    to: Seq<Seq<Opcode>>,
    i: int,
) -> Seq<Opcode>
    decreases p.len() - i,
{
    if i < 0 || i >= p.len() {
        Seq::empty()
    } else {
        let k = range_starting_at(from, i, from.len() as int);
        if k >= 0 && i <= from[k].1 < p.len() {
            to[k] + replaced_from(p, from, to, from[k].1 + 1)
        } else {
            seq![p[i]] + replaced_from(p, from, to, i + 1)
        }
    }
}

/// The sequence with each range replaced by the replacement that stands at
/// the place of the range, and everything else kept. The order in which the
/// ranges are given plays no part.
pub open spec fn replaced(p: Seq<Opcode>, from: Seq<(usize, usize)>, to: Seq<Seq<Opcode>>) -> Seq<
    Opcode,
> {
    replaced_from(p, from, to, 0)
}

/// Where copying resumes behind the first `k` ranges.
pub open spec fn resume_at(from: Seq<(usize, usize)>, k: int) -> int {
    if k <= 0 {
        0
    } else {
        from[k - 1].1 + 1
    }
}

/// For ranges in order, the output up to and including the replacement of
/// the `k`-th range: what came before, the opcodes between the ranges, and
/// the replacement.
pub open spec fn spliced_upto(
    p: Seq<Opcode>,
    from: Seq<(usize, usize)>,
    to: Seq<Seq<Opcode>>,
    k: int,
) -> Seq<Opcode>
    decreases k,
{
    if k <= 0 {
        Seq::empty()
    } else {
        spliced_upto(p, from, to, k - 1) + p.subrange(resume_at(from, k - 1), from[k - 1].0 as int)
            + to[k - 1]
    }
}

/// For ranges in order, the sequence with each range replaced and everything
/// else kept, read from the left.
pub open spec fn spliced(p: Seq<Opcode>, from: Seq<(usize, usize)>, to: Seq<Seq<Opcode>>) -> Seq<
    Opcode,
> {
    spliced_upto(p, from, to, from.len() as int) + p.subrange(
        resume_at(from, from.len() as int),
        p.len() as int,
    )
}

/// The contents of each replacement.
pub open spec fn contents(to: Seq<Vec<Opcode>>) -> Seq<Seq<Opcode>> {
    Seq::new(to.len(), |k: int| to[k]@)
}

/// What the search for a range that starts at `i` finds.
pub proof fn lemma_range_starting_at(from: Seq<(usize, usize)>, i: int, n: int)
    requires
        0 <= n <= from.len(),
    ensures
        -1 <= range_starting_at(from, i, n) < n,
        range_starting_at(from, i, n) >= 0 ==> from[range_starting_at(from, i, n)].0 == i,
        forall|j: int|
            0 <= j < n && (#[trigger] from[j]).0 == i ==> range_starting_at(from, i, n) >= j,
    decreases n,
{
    if n > 0 {
        lemma_range_starting_at(from, i, n - 1);
    }
}

/// Ranges in order are apart.
pub proof fn lemma_ordered_apart(from: Seq<(usize, usize)>, len: int)
    requires
        ranges_ordered(from, len),
    ensures
        ranges_apart(from, len),
{
    assert forall|k: int, l: int|
        0 <= k < from.len() && 0 <= l < from.len() && k != l implies (#[trigger] from[k]).1 < (
    #[trigger] from[l]).0 || from[l].1 < from[k].0 by {
        if k < l {
            assert(from[k].1 < from[l].0);
        } else {
            assert(from[l].1 < from[k].0);
        }
    }
}

/// For ranges in order, what has been put out before index `i` and what is
/// put out from `i` on make up the whole.
proof fn lemma_ordered_from(
    p: Seq<Opcode>,
    from: Seq<(usize, usize)>,
    to: Seq<Seq<Opcode>>,
    i: int,
    k: int,
)
    requires
        from.len() == to.len(),
        ranges_ordered(from, p.len() as int),
        0 <= k <= from.len(),
        resume_at(from, k) <= i <= p.len(),
        k < from.len() ==> i <= from[k].0,
    ensures
        spliced_upto(p, from, to, k) + p.subrange(resume_at(from, k), i) + replaced_from(
            p,
            from,
            to,
            i,
        ) == spliced(p, from, to),
    decreases p.len() - i,
{
    let m = from.len() as int;
    let done = spliced_upto(p, from, to, k);
    let gap = p.subrange(resume_at(from, k), i);
    if i >= p.len() {
        if k < m {
            assert(from[k].0 <= from[k].1 < p.len());
        }
        assert(done + gap + Seq::<Opcode>::empty() == done + gap);
    } else {
        let found = range_starting_at(from, i, m);
        lemma_range_starting_at(from, i, m);
        if k < m && i == from[k].0 {
            assert(found >= k);
            if found > k {
                assert(from[k].1 < from[found].0);
            }
            assert(found == k);
            assert(from[k].0 <= from[k].1 < p.len());
            if k + 1 < m {
                assert(from[k].1 < from[k + 1].0);
            }
            lemma_ordered_from(p, from, to, from[k].1 + 1, k + 1);
            let next = from[k].1 + 1;
            assert(p.subrange(next, next) == Seq::<Opcode>::empty());
            assert(spliced_upto(p, from, to, k + 1) + p.subrange(next, next) + replaced_from(
                p,
                from,
                to,
                next,
            ) == done + gap + (to[k] + replaced_from(p, from, to, next)));
        } else {
            if found >= 0 {
                assert(from[found].0 <= from[found].1 < p.len());
                if found < k {
                    if found < k - 1 {
                        assert(from[found].1 < from[k - 1].0);
                    }
                    assert(from[k - 1].0 <= from[k - 1].1 < p.len());
                } else {
                    if found > k {
                        assert(from[k].1 < from[found].0);
                    }
                    assert(from[k].0 <= from[k].1 < p.len());
                }
                assert(false);
            }
            lemma_ordered_from(p, from, to, i + 1, k);
            assert(p.subrange(resume_at(from, k), i + 1) == gap.push(p[i]));
            assert(done + gap.push(p[i]) + replaced_from(p, from, to, i + 1) == done + gap + (
            seq![p[i]] + replaced_from(p, from, to, i + 1)));
        }
    }
}

/// For ranges in order, the output is the output read from the left.
pub proof fn lemma_ordered_replaced(
    p: Seq<Opcode>,
    from: Seq<(usize, usize)>,
    to: Seq<Seq<Opcode>>,
)
    requires
        from.len() == to.len(),
        ranges_ordered(from, p.len() as int),
    ensures
        replaced(p, from, to) == spliced(p, from, to),
{
    if from.len() > 0 {
        assert(from[0].0 <= from[0].1 < p.len());
    }
    lemma_ordered_from(p, from, to, 0, 0);
    assert(p.subrange(0, 0) == Seq::<Opcode>::empty());
    assert(Seq::<Opcode>::empty() + Seq::<Opcode>::empty() + replaced(p, from, to) == replaced(
        p,
        from,
        to,
    ));
}

/// `k` stands somewhere in `order`.
pub open spec fn listed(order: Seq<usize>, k: int) -> bool {
    exists|r: int| 0 <= r < order.len() && #[trigger] order[r] == k
}

/// `order` lists every index of `from` once, by the start of its range.
pub open spec fn orders(order: Seq<usize>, from: Seq<(usize, usize)>) -> bool {
    &&& order.len() == from.len()
    &&& forall|r: int| 0 <= r < order.len() ==> (#[trigger] order[r]) < from.len()
    &&& forall|r: int, s: int|
        0 <= r < s < order.len() ==> (#[trigger] order[r]) != (#[trigger] order[s])
    &&& forall|k: int| 0 <= k < from.len() ==> #[trigger] listed(order, k)
    &&& forall|r: int, s: int|
        0 <= r < s < order.len() ==> from[(#[trigger] order[r]) as int].0 <= from[(
        #[trigger] order[s]) as int].0
}

/// Ranges that are apart start at different places.
proof fn lemma_starts_differ(from: Seq<(usize, usize)>, len: int, k: int, l: int)
    requires
        ranges_apart(from, len),
        0 <= k < from.len(),
        0 <= l < from.len(),
        from[k].0 == from[l].0,
    ensures
        k == l,
{
    if k != l {
        assert(from[k].1 < from[l].0 || from[l].1 < from[k].0);
        assert(from[k].0 <= from[k].1);
        assert(from[l].0 <= from[l].1);
    }
}

/// `sorted` and `sorted_to` hold the ranges and their replacements in the
/// order that `order` gives.
pub open spec fn reordered(
    from: Seq<(usize, usize)>,
    to: Seq<Seq<Opcode>>,
    order: Seq<usize>,
    sorted: Seq<(usize, usize)>,
    sorted_to: Seq<Seq<Opcode>>,
) -> bool {
    &&& sorted.len() == from.len()
    &&& sorted_to.len() == from.len()
    &&& forall|r: int|
        0 <= r < sorted.len() ==> (#[trigger] sorted[r]) == from[order[r] as int] && sorted_to[r]
            == to[order[r] as int]
}

/// The output does not depend on the order in which the ranges are given.
proof fn lemma_reordered_from(
    p: Seq<Opcode>,
    from: Seq<(usize, usize)>,
    to: Seq<Seq<Opcode>>,
    order: Seq<usize>,
    sorted: Seq<(usize, usize)>,
    sorted_to: Seq<Seq<Opcode>>,
    i: int,
)
    requires
        from.len() == to.len(),
        ranges_apart(from, p.len() as int),
        orders(order, from),
        reordered(from, to, order, sorted, sorted_to),
    ensures
        replaced_from(p, sorted, sorted_to, i) == replaced_from(p, from, to, i),
    decreases p.len() - i,
{
    if 0 <= i < p.len() {
        let m = from.len() as int;
        let here = range_starting_at(from, i, m);
        let there = range_starting_at(sorted, i, m);
        lemma_range_starting_at(from, i, m);
        lemma_range_starting_at(sorted, i, m);
        if here >= 0 {
            assert(listed(order, here));
            let r = choose|r: int| 0 <= r < order.len() && #[trigger] order[r] == here;
            assert(sorted[r] == from[order[r] as int]);
            assert(there >= r);
        }
        if there >= 0 {
            assert(sorted[there] == from[order[there] as int]);
            let k = order[there] as int;
            assert(from[k].0 == i);
            assert(here >= k);
            lemma_starts_differ(from, p.len() as int, here, k);
            if i <= from[here].1 < p.len() {
                lemma_reordered_from(p, from, to, order, sorted, sorted_to, from[here].1 + 1);
            } else {
                lemma_reordered_from(p, from, to, order, sorted, sorted_to, i + 1);
            }
        } else {
            lemma_reordered_from(p, from, to, order, sorted, sorted_to, i + 1);
        }
    }
}

/// Ranges that are apart, listed by their starts, are in order.
proof fn lemma_sorted_ordered(
    from: Seq<(usize, usize)>,
    order: Seq<usize>,
    sorted: Seq<(usize, usize)>,
    len: int,
)
    requires
        ranges_apart(from, len),
        orders(order, from),
        sorted.len() == from.len(),
        forall|r: int| 0 <= r < sorted.len() ==> #[trigger] sorted[r] == from[order[r] as int],
    ensures
        ranges_ordered(sorted, len),
{
    assert forall|r: int| 0 <= r < sorted.len() implies (#[trigger] sorted[r]).0 <= sorted[r].1
        < len by {
        assert(from[order[r] as int].0 <= from[order[r] as int].1 < len);
    }
    assert forall|r: int, s: int| 0 <= r < s < sorted.len() implies (#[trigger] sorted[r]).1 < (
    #[trigger] sorted[s]).0 by {
        let k = order[r] as int;
        let l = order[s] as int;
        assert(k != l);
        assert(from[k].0 <= from[l].0);
        assert(from[k].1 < from[l].0 || from[l].1 < from[k].0);
        assert(from[l].0 <= from[l].1);
    }
}

/// The indices of the ranges, listed by the start of each range.
fn sorted_order(from: &Vec<(usize, usize)>) -> (order: Vec<usize>)
    ensures
        orders(order@, from@),
{
    let mut order: Vec<usize> = Vec::new();
    let mut n: usize = 0;
    while n < from.len()
        invariant
            n <= from.len(),
            order.len() == n,
            forall|r: int| 0 <= r < order.len() ==> (#[trigger] order[r]) < n,
            forall|r: int, s: int|
                0 <= r < s < order.len() ==> (#[trigger] order[r]) != (#[trigger] order[s]),
            forall|k: int| 0 <= k < n ==> #[trigger] listed(order@, k),
            forall|r: int, s: int|
                0 <= r < s < order.len() ==> from[(#[trigger] order[r]) as int].0 <= from[(
                #[trigger] order[s]) as int].0,
        decreases from.len() - n,
    {
        let start = from[n].0;
        let mut at: usize = 0;
        while at < order.len() && from[order[at]].0 <= start
            invariant
                at <= order.len(),
                order.len() == n,
                n < from.len(),
                start == from[n as int].0,
                forall|r: int| 0 <= r < order.len() ==> (#[trigger] order[r]) < n,
                forall|r: int| 0 <= r < at ==> from[(#[trigger] order[r]) as int].0 <= start,
            decreases order.len() - at,
        {
            at += 1;
        }
        let ghost before = order@;
        order.insert(at, n);
        proof {
            let after = order@;
            assert(after == before.insert(at as int, n));
            assert forall|r: int| 0 <= r < after.len() implies #[trigger] after[r] == if r < at {
                before[r]
            } else if r == at {
                n
            } else {
                before[r - 1]
            } by {}
            assert forall|k: int| 0 <= k < n + 1 implies #[trigger] listed(after, k) by {
                if k < n {
                    assert(listed(before, k));
                    let r = choose|r: int| 0 <= r < before.len() && #[trigger] before[r] == k;
                    if r < at {
                        assert(after[r] == k);
                    } else {
                        assert(after[r + 1] == k);
                    }
                } else {
                    assert(after[at as int] == k);
                }
            }
            assert forall|r: int, s: int| 0 <= r < s < after.len() implies (#[trigger] after[r])
                != (#[trigger] after[s]) && from[after[r] as int].0 <= from[after[s] as int].0 by {
                if r != at && s != at {
                    let r0 = if r < at {
                        r
                    } else {
                        r - 1
                    };
                    let s0 = if s < at {
                        s
                    } else {
                        s - 1
                    };
                    assert(before[r0] != before[s0]);
                    assert(from[before[r0] as int].0 <= from[before[s0] as int].0);
                } else if r == at {
                    assert(before[s - 1] < n);
                    if at < before.len() {
                        assert(from[before[at as int] as int].0 > start);
                        if s - 1 > at {
                            assert(from[before[at as int] as int].0 <= from[before[s
                                - 1] as int].0);
                        }
                    }
                } else {
                    assert(before[r] < n);
                    assert(from[before[r] as int].0 <= start);
                }
            }
        }
        n += 1;
    }
    order
}

/// Replaces each range of `from`, both ends included, by the sequence of `to`
/// that stands at the same place, and copies every other opcode. The ranges
/// may be given in any order.
pub fn replace_segments(
    opcodes: Vec<Opcode>,
    from: Vec<(usize, usize)>,
    to: Vec<Vec<Opcode>>,
) -> (result: Vec<Opcode>)
    requires
        from.len() == to.len(),
        ranges_apart(from@, opcodes.len() as int),
    ensures
        result@ == replaced(opcodes@, from@, contents(to@)),
{
    let order = sorted_order(&from);
    let mut sorted: Vec<(usize, usize)> = Vec::new();
    let mut r: usize = 0;
    while r < order.len()
        invariant
            r <= order.len(),
            orders(order@, from@),
            sorted.len() == r,
            forall|s: int| 0 <= s < r ==> #[trigger] sorted[s] == from[order[s] as int],
        decreases order.len() - r,
    {
        assert(order[r as int] < from.len());
        sorted.push(from[order[r]]);
        r += 1;
    }
    let ghost sorted_to = Seq::new(from.len() as nat, |s: int| to[order[s] as int]@);
    proof {
        lemma_sorted_ordered(from@, order@, sorted@, opcodes.len() as int);
    }
    let mut result: Vec<Opcode> = Vec::new();
    let mut i: usize = 0;
    let mut rep_idx: usize = 0;
    while i < opcodes.len()
        invariant
            from.len() == to.len(),
            sorted.len() == from.len(),
            sorted_to.len() == from.len(),
            orders(order@, from@),
            forall|s: int| 0 <= s < sorted.len() ==> sorted_to[s] == to[order[s] as int]@,
            ranges_ordered(sorted@, opcodes.len() as int),
            rep_idx <= sorted.len(),
            resume_at(sorted@, rep_idx as int) <= i <= opcodes.len(),
            rep_idx < sorted.len() ==> i <= sorted[rep_idx as int].0,
            result@ == spliced_upto(opcodes@, sorted@, sorted_to, rep_idx as int)
                + opcodes@.subrange(resume_at(sorted@, rep_idx as int), i as int),
        decreases opcodes.len() - i,
    {
        if rep_idx < sorted.len() && i == sorted[rep_idx].0 {
            let end = sorted[rep_idx].1;
            assert(order[rep_idx as int] < from.len());
            let replacement = &to[order[rep_idx]];
            let ghost copied = result@;
            let mut t: usize = 0;
            while t < replacement.len()
                invariant
                    t <= replacement.len(),
                    result@ == copied + replacement@.take(t as int),
                decreases replacement.len() - t,
            {
                result.push(replacement[t]);
                assert(replacement@.take(t + 1) == replacement@.take(t as int).push(
                    replacement@[t as int],
                ));
                t += 1;
            }
            proof {
                assert(replacement@.take(t as int) == replacement@);
                assert(sorted_to[rep_idx as int] == replacement@);
                assert(opcodes@.subrange(end + 1, end + 1) == Seq::<Opcode>::empty());
                assert(result@ == spliced_upto(opcodes@, sorted@, sorted_to, rep_idx + 1)
                    + opcodes@.subrange(end + 1, end + 1));
                if rep_idx + 1 < sorted.len() {
                    assert(sorted[rep_idx as int].1 < sorted[rep_idx + 1].0);
                }
            }
            i = end + 1;
            rep_idx += 1;
        } else {
            result.push(opcodes[i]);
            assert(opcodes@.subrange(resume_at(sorted@, rep_idx as int), i + 1)
                == opcodes@.subrange(resume_at(sorted@, rep_idx as int), i as int).push(
                opcodes@[i as int],
            ));
            i += 1;
        }
    }
    proof {
        let to_seqs = contents(to@);
        assert forall|s: int| 0 <= s < sorted.len() implies (#[trigger] sorted[s])
            == from[order[s] as int] && sorted_to[s] == to_seqs[order[s] as int] by {
            assert(order[s] < from.len());
        }
        assert(reordered(from@, to_seqs, order@, sorted@, sorted_to));
        lemma_ordered_replaced(opcodes@, sorted@, sorted_to);
        lemma_reordered_from(opcodes@, from@, to_seqs, order@, sorted@, sorted_to, 0);
    }
    result
}

} // verus!
