use crate::binaryheap::HeapKind;
use vstd::prelude::*;

verus! {

/// `a` may sit at or above `b` in a heap of this kind.
pub open spec fn outranks(kind: HeapKind, a: i32, b: i32) -> bool {
    match kind {
        HeapKind::Max => a >= b,
        HeapKind::Min => a <= b,
    }
}

/// The position above `i` in the tree, for `i > 0`.
pub open spec fn parent_of(i: int) -> int {
    (i - 1) / 2
}

/// The element at `i` and the one above it are in order.
pub open spec fn edge_ok(kind: HeapKind, s: Seq<i32>, i: int) -> bool {
    outranks(kind, s[parent_of(i)], s[i])
}

/// The element at `i` and the one two levels above it are in order.
pub open spec fn skip_ok(kind: HeapKind, s: Seq<i32>, i: int) -> bool {
    outranks(kind, s[parent_of(parent_of(i))], s[i])
}

/// The heap property: every position but the root is in order with its parent.
pub open spec fn heap_ordered(kind: HeapKind, s: Seq<i32>) -> bool {
    forall|i: int| 1 <= i < s.len() ==> #[trigger] edge_ok(kind, s, i)
}

/// `v` at position `i` would be in order with the element above `i`, if there is one.
pub open spec fn above_ok(kind: HeapKind, s: Seq<i32>, i: int, v: i32) -> bool {
    0 < i < s.len() ==> outranks(kind, s[parent_of(i)], v)
}

/// `v` at position `i` would be in order with the elements below `i`, as far as there are any.
pub open spec fn below_ok(kind: HeapKind, s: Seq<i32>, i: int, v: i32) -> bool {
    &&& 2 * i + 1 < s.len() ==> outranks(kind, v, s[2 * i + 1])
    &&& 2 * i + 2 < s.len() ==> outranks(kind, v, s[2 * i + 2])
}

/// Of two children, the one to exchange with a sinking parent: the one that is there, and where
/// both are, the first if it may sit above the second, else the second.
pub open spec fn preferred(
    kind: HeapKind,
    s: Seq<i32>,
    first: Option<usize>,
    second: Option<usize>,
) -> usize {
    if first.is_some() && second.is_some() {
        if outranks(kind, s[first.unwrap() as int], s[second.unwrap() as int]) {
            first.unwrap()
        } else {
            second.unwrap()
        }
    } else if first.is_some() {
        first.unwrap()
    } else if second.is_some() {
        second.unwrap()
    } else {
        0
    }
}

/// The child of `i` to exchange with a sinking parent, where `i` has a child: the only one, or
/// of two the first if it may sit above the second, else the second.
pub open spec fn better_child(kind: HeapKind, s: Seq<i32>, i: int) -> int {
    if 2 * i + 2 < s.len() && !outranks(kind, s[2 * i + 1], s[2 * i + 2]) {
        2 * i + 2
    } else {
        2 * i + 1
    }
}

/// The elements after the one at `pos` has risen: as long as it is out of order with the
/// element above it, the two change places.
pub open spec fn risen(kind: HeapKind, s: Seq<i32>, pos: int) -> Seq<i32>
    decreases pos,
{
    if 0 < pos < s.len() && !outranks(kind, s[parent_of(pos)], s[pos]) {
        risen(kind, swapped(s, pos, parent_of(pos)), parent_of(pos))
    } else {
        s
    }
}

/// The elements after the one at `pos` has sunk: as long as it is out of order with an element
/// below it, it changes places with the better child.
pub open spec fn sunk(kind: HeapKind, s: Seq<i32>, pos: int) -> Seq<i32>
    decreases s.len() - pos,
{
    if 0 <= pos < s.len() && !below_ok(kind, s, pos, s[pos]) {
        sunk(kind, swapped(s, pos, better_child(kind, s, pos)), better_child(kind, s, pos))
    } else {
        s
    }
}

/// The elements after the one at `at` has been brought back into order with its neighbours:
/// it rises if it is out of order with its parent, and sinks if it is out of order with a child.
pub open spec fn repaired(kind: HeapKind, s: Seq<i32>, at: int) -> Seq<i32> {
    let up = if above_ok(kind, s, at, s[at]) {
        s
    } else {
        risen(kind, s, at)
    };
    if below_ok(kind, s, at, s[at]) {
        up
    } else {
        sunk(kind, up, at)
    }
}

/// The elements after `value` is inserted: it is appended and rises.
pub open spec fn after_insert(kind: HeapKind, s: Seq<i32>, value: i32) -> Seq<i32> {
    risen(kind, s.push(value), s.len() as int)
}

/// The elements after the root is extracted: the last element takes its place and sinks.
pub open spec fn after_extract(kind: HeapKind, s: Seq<i32>) -> Seq<i32> {
    if s.len() <= 1 {
        Seq::empty()
    } else {
        sunk(kind, filled_from_last(s, 0), 0)
    }
}

/// The elements after the one at `at` is removed: the root is extracted, the last position is
/// given up, and any other position is filled from the last one and repaired.
pub open spec fn after_remove(kind: HeapKind, s: Seq<i32>, at: int) -> Seq<i32> {
    if at == 0 {
        after_extract(kind, s)
    } else if at == s.len() - 1 {
        s.drop_last()
    } else {
        repaired(kind, filled_from_last(s, at), at)
    }
}

/// The heap property everywhere but between `hole` and its parent, and the children of `hole`
/// are in order with the parent of `hole`: what holds while an element rises.
pub open spec fn ordered_but_above(kind: HeapKind, s: Seq<i32>, hole: int) -> bool {
    &&& forall|i: int| 1 <= i < s.len() && i != hole ==> #[trigger] edge_ok(kind, s, i)
    &&& forall|i: int|
        1 <= i < s.len() && parent_of(i) == hole && hole >= 1 ==> #[trigger] skip_ok(kind, s, i)
}

/// The heap property everywhere but between `hole` and its children, and the children of `hole`
/// are in order with the parent of `hole`: what holds while an element sinks.
pub open spec fn ordered_but_below(kind: HeapKind, s: Seq<i32>, hole: int) -> bool {
    &&& forall|i: int|
        1 <= i < s.len() && parent_of(i) != hole ==> #[trigger] edge_ok(kind, s, i)
    &&& forall|i: int|
        1 <= i < s.len() && parent_of(i) == hole && hole >= 1 ==> #[trigger] skip_ok(kind, s, i)
}

/// The sequence with the elements at `i` and `j` exchanged.
pub open spec fn swapped(s: Seq<i32>, i: int, j: int) -> Seq<i32> {
    s.update(i, s[j]).update(j, s[i])
}

/// One extraction, as a relation between the elements before, the element handed out and the
/// elements after: the root leaves an ordered heap, and an ordered heap of the rest remains.
pub open spec fn extraction(kind: HeapKind, before: Seq<i32>, out: i32, after: Seq<i32>) -> bool {
    &&& heap_ordered(kind, before)
    &&& heap_ordered(kind, after)
    &&& before.len() > 0
    &&& out == before[0]
    &&& after.to_multiset() == before.to_multiset().remove(out)
}

/// Exchanging two elements keeps the multiset.
pub proof fn lemma_swapped_multiset(s: Seq<i32>, i: int, j: int)
    requires
        0 <= i < s.len(),
        0 <= j < s.len(),
    ensures
        swapped(s, i, j).to_multiset() == s.to_multiset(),
        swapped(s, i, j).len() == s.len(),
{
    broadcast use vstd::seq_lib::to_multiset_update;
    broadcast use vstd::multiset::group_multiset_axioms;

    if i == j {
        assert(swapped(s, i, j) =~= s);
    } else {
        let t = s.update(i, s[j]);
        s.to_multiset_ensures();
        t.to_multiset_ensures();
        assert(s.contains(s[i]) && s.contains(s[j]));
        assert(t[i] == s[j] && t[j] == s[j]);
        assert(t.contains(s[j]));
        assert(t.to_multiset() == s.to_multiset().insert(s[j]).remove(s[i]));
        assert(t.update(j, s[i]).to_multiset() == t.to_multiset().insert(s[i]).remove(t[j]));
        assert(swapped(s, i, j).to_multiset() =~= s.to_multiset());
    }
}

/// In an ordered heap the root outranks every element.
pub proof fn lemma_root_outranks_all(kind: HeapKind, s: Seq<i32>, i: int)
    requires
        heap_ordered(kind, s),
        0 <= i < s.len(),
    ensures
        outranks(kind, s[0], s[i]),
    decreases i,
{
    if i > 0 {
        assert(edge_ok(kind, s, i));
        lemma_root_outranks_all(kind, s, parent_of(i));
    }
}

/// One step of a rise: where the element at `hole` is out of order with its parent, exchanging
/// the two moves the one exception to the heap property up to the parent's position.
pub proof fn lemma_rise_step(kind: HeapKind, s: Seq<i32>, hole: int)
    requires
        0 < hole < s.len(),
        ordered_but_above(kind, s, hole),
        !outranks(kind, s[parent_of(hole)], s[hole]),
    ensures
        ordered_but_above(kind, swapped(s, hole, parent_of(hole)), parent_of(hole)),
{
    let p = parent_of(hole);
    let t = swapped(s, hole, p);
    assert forall|i: int| 1 <= i < t.len() && i != p implies #[trigger] edge_ok(kind, t, i) by {
        if i == hole {
        } else if parent_of(i) == hole {
            assert(skip_ok(kind, s, i));
        } else {
            assert(edge_ok(kind, s, i));
        }
    }
    assert forall|i: int|
        1 <= i < t.len() && parent_of(i) == p && p >= 1 implies #[trigger] skip_ok(kind, t, i) by {
        assert(edge_ok(kind, s, p));
        if i != hole {
            assert(edge_ok(kind, s, i));
        }
    }
}

/// One step of a sinking: where the child at `child` outranks the element at `hole` and the
/// other child, exchanging the two moves the one exception to the heap property down to the
/// child's position.
pub proof fn lemma_sink_step(kind: HeapKind, s: Seq<i32>, hole: int, child: int)
    requires
        0 <= hole < s.len(),
        1 <= child < s.len(),
        parent_of(child) == hole,
        ordered_but_below(kind, s, hole),
        outranks(kind, s[child], s[hole]),
        forall|d: int| 1 <= d < s.len() && parent_of(d) == hole ==> outranks(kind, s[child], s[d]),
    ensures
        ordered_but_below(kind, swapped(s, hole, child), child),
{
    let t = swapped(s, hole, child);
    assert forall|i: int| 1 <= i < t.len() && parent_of(i) != child implies #[trigger] edge_ok(
        kind,
        t,
        i,
    ) by {
        if i == hole {
            assert(skip_ok(kind, s, child));
        } else if parent_of(i) == hole {
        } else {
            assert(edge_ok(kind, s, i));
        }
    }
    assert forall|i: int|
        1 <= i < t.len() && parent_of(i) == child && child >= 1 implies #[trigger] skip_ok(
        kind,
        t,
        i,
    ) by {
        assert(edge_ok(kind, s, i));
    }
}

/// The heap property everywhere but between `at` and its neighbours above and below, and the
/// children of `at` are in order with the parent of `at`: what holds when the element at one
/// position has been replaced.
pub open spec fn ordered_but_around(kind: HeapKind, s: Seq<i32>, at: int) -> bool {
    &&& forall|i: int|
        1 <= i < s.len() && i != at && parent_of(i) != at ==> #[trigger] edge_ok(kind, s, i)
    &&& forall|i: int|
        1 <= i < s.len() && parent_of(i) == at && at >= 1 ==> #[trigger] skip_ok(kind, s, i)
}

/// The sequence after the element at `i` is replaced by the last one and the last position is
/// given up.
pub open spec fn filled_from_last(s: Seq<i32>, i: int) -> Seq<i32> {
    s.update(i, s.last()).drop_last()
}

/// Filling position `i` from the end takes exactly the element at `i` out of the multiset.
pub proof fn lemma_filled_multiset(s: Seq<i32>, i: int)
    requires
        0 <= i < s.len() - 1,
    ensures
        filled_from_last(s, i).to_multiset() == s.to_multiset().remove(s[i]),
        filled_from_last(s, i) == swapped(s, i, s.len() - 1).drop_last(),
        filled_from_last(s, i).len() == s.len() - 1,
{
    let last = s.len() - 1;
    let sw = swapped(s, i, last);
    lemma_swapped_multiset(s, i, last);
    vstd::seq_lib::to_multiset_remove(sw, last);
    assert(sw.remove(last) =~= sw.drop_last());
    assert(filled_from_last(s, i) =~= sw.drop_last());
}

/// Giving up the last position takes exactly the last element out of the multiset.
pub proof fn lemma_drop_last_multiset(s: Seq<i32>)
    requires
        s.len() > 0,
    ensures
        s.drop_last().to_multiset() == s.to_multiset().remove(s.last()),
{
    vstd::seq_lib::to_multiset_remove(s, s.len() - 1);
    assert(s.remove(s.len() - 1) =~= s.drop_last());
}

/// In an ordered heap, filling a position from the end disturbs the order only around that
/// position.
pub proof fn lemma_filled_order(kind: HeapKind, s: Seq<i32>, i: int)
    requires
        heap_ordered(kind, s),
        0 <= i < s.len() - 1,
    ensures
        ordered_but_around(kind, filled_from_last(s, i), i),
{
    let t = filled_from_last(s, i);
    assert forall|j: int|
        1 <= j < t.len() && j != i && parent_of(j) != i implies #[trigger] edge_ok(kind, t, j) by {
        assert(edge_ok(kind, s, j));
    }
    assert forall|j: int|
        1 <= j < t.len() && parent_of(j) == i && i >= 1 implies #[trigger] skip_ok(kind, t, j) by {
        assert(edge_ok(kind, s, j));
        assert(edge_ok(kind, s, i));
    }
}

/// Appending to an ordered heap leaves the new last position as the only possible exception.
pub proof fn lemma_pushed_order(kind: HeapKind, s: Seq<i32>, value: i32)
    requires
        heap_ordered(kind, s),
    ensures
        ordered_but_above(kind, s.push(value), s.len() as int),
{
    let t = s.push(value);
    assert forall|j: int| 1 <= j < t.len() && j != s.len() implies #[trigger] edge_ok(
        kind,
        t,
        j,
    ) by {
        assert(edge_ok(kind, s, j));
    }
}

} // verus!
