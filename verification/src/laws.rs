use crate::binaryheap::{BinaryHeap, HeapKind};
use crate::order::{edge_ok, extraction, lemma_root_outranks_all, outranks, parent_of};
use crate::table::{lemma_positions_exact, positions_of};
use vstd::prelude::*;

verus! {

/// A run of extractions: `states` are the elements before the first one, between each two, and
/// after the last one; `outs` are the elements handed out, in turn.
pub open spec fn extraction_run(kind: HeapKind, states: Seq<Seq<i32>>, outs: Seq<i32>) -> bool {
    &&& states.len() == outs.len() + 1
    &&& forall|k: int| 0 <= k < outs.len() ==> #[trigger] extraction_at(kind, states, outs, k)
}

/// The extraction at place `k` of a run.
pub open spec fn extraction_at(
    kind: HeapKind,
    states: Seq<Seq<i32>>,
    outs: Seq<i32>,
    k: int,
) -> bool {
    extraction(kind, states[k], outs[k], states[k + 1])
}

/// Each element may sit above every later one.
pub open spec fn in_priority_order(kind: HeapKind, outs: Seq<i32>) -> bool {
    forall|a: int, b: int| 0 <= a < b < outs.len() ==> outranks(kind, outs[a], outs[b])
}

/// In a well-formed heap every position but the root holds an element that the one above it
/// outranks.
pub proof fn lemma_parent_outranks_child(heap: BinaryHeap, i: int)
    requires
        heap.wf(),
        1 <= i < heap@.len(),
    ensures
        outranks(heap.kind(), heap@[parent_of(i)], heap@[i]),
{
    assert(edge_ok(heap.kind(), heap@, i));
}

/// In a well-formed heap the positions on record for a value are exactly the positions that
/// hold it: none is missing, none is stale, none comes twice.
pub proof fn lemma_index_exact(heap: BinaryHeap, value: i32)
    requires
        heap.wf(),
    ensures
        positions_of(heap@, heap.index(), value).no_duplicates(),
        forall|p: usize| #[trigger]
            positions_of(heap@, heap.index(), value).contains(p) <==> (p < heap@.len()
                && heap@[p as int] == value),
{
    heap.lemma_len_fits();
    lemma_positions_exact(heap@, heap.index(), value);
}

/// Extracting until nothing is left hands the elements out in priority order, ascending from a
/// min-heap and descending from a max-heap, and hands out exactly the elements that the heap
/// held at the start, each as often as it held it.
pub proof fn lemma_extraction_sorts(kind: HeapKind, states: Seq<Seq<i32>>, outs: Seq<i32>)
    requires
        extraction_run(kind, states, outs),
        states.last().len() == 0,
    ensures
        in_priority_order(kind, outs),
        outs.to_multiset() == states[0].to_multiset(),
    decreases outs.len(),
{
    broadcast use vstd::multiset::group_multiset_axioms;

    if outs.len() == 0 {
        assert(states[0] =~= Seq::<i32>::empty());
        assert(outs =~= Seq::<i32>::empty());
    } else {
        let rest_states = states.drop_first();
        let rest = outs.drop_first();
        assert(extraction_at(kind, states, outs, 0));
        assert forall|k: int| 0 <= k < rest.len() implies #[trigger] extraction_at(
            kind,
            rest_states,
            rest,
            k,
        ) by {
            assert(extraction_at(kind, states, outs, k + 1));
        }
        assert(rest_states.last() == states.last());
        lemma_extraction_sorts(kind, rest_states, rest);
        assert(rest_states[0] == states[1]);
        vstd::seq_lib::to_multiset_remove(outs, 0);
        assert(outs.remove(0) =~= rest);
        outs.to_multiset_ensures();
        rest.to_multiset_ensures();
        states[0].to_multiset_ensures();
        states[1].to_multiset_ensures();
        assert(outs.contains(outs[0]));
        assert(states[0].contains(states[0][0]));
        assert(outs.to_multiset().count(outs[0]) > 0);
        assert(states[0].to_multiset().count(outs[0]) > 0);
        assert(outs.to_multiset() =~= rest.to_multiset().insert(outs[0]));
        assert(outs.to_multiset() =~= states[0].to_multiset());
        assert forall|a: int, b: int| 0 <= a < b < outs.len() implies outranks(
            kind,
            outs[a],
            outs[b],
        ) by {
            if a == 0 {
                assert(rest[b - 1] == outs[b]);
                assert(rest.contains(outs[b]));
                assert(rest.to_multiset().count(outs[b]) > 0);
                assert(states[0].to_multiset().count(outs[b]) > 0);
                assert(states[0].contains(outs[b]));
                let j = choose|j: int| 0 <= j < states[0].len() && states[0][j] == outs[b];
                lemma_root_outranks_all(kind, states[0], j);
            } else {
                assert(outranks(kind, rest[a - 1], rest[b - 1]));
            }
        }
    }
}

/// Taking one occurrence of a value out of the elements leaves one occurrence fewer of that
/// value, and as many as before of every other value.
pub proof fn lemma_removal_counts(before: Seq<i32>, after: Seq<i32>, value: i32, other: i32)
    requires
        before.contains(value),
        after.to_multiset() == before.to_multiset().remove(value),
        other != value,
    ensures
        after.to_multiset().count(value) == before.to_multiset().count(value) - 1,
        after.to_multiset().count(other) == before.to_multiset().count(other),
{
    broadcast use vstd::multiset::group_multiset_axioms;

    before.to_multiset_ensures();
}

/// Two extractions in a row hand out their elements in priority order.
pub proof fn lemma_successive_extractions(
    kind: HeapKind,
    before: Seq<i32>,
    first: i32,
    between: Seq<i32>,
    second: i32,
    after: Seq<i32>,
)
    requires
        extraction(kind, before, first, between),
        extraction(kind, between, second, after),
    ensures
        outranks(kind, first, second),
{
    broadcast use vstd::multiset::group_multiset_axioms;

    before.to_multiset_ensures();
    between.to_multiset_ensures();
    assert(between.contains(between[0]));
    assert(between.to_multiset().count(second) > 0);
    assert(before.to_multiset().count(second) > 0);
    assert(before.contains(second));
    let j = choose|j: int| 0 <= j < before.len() && before[j] == second;
    lemma_root_outranks_all(kind, before, j);
}

} // verus!
