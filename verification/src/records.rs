use crate::binaryheap::HeapKind;
use crate::hashing::key_of;
use crate::order::{
    above_ok, after_insert, below_ok, better_child, filled_from_last, outranks, parent_of, risen,
    swapped,
};
use crate::table::{with_position, without_position};
use vstd::prelude::*;

verus! {

/// The buckets after two elements changed places, where `t` holds the elements as they stand
/// after the exchange: the old record of each of the two is struck, that of `j` first, and each
/// is filed anew under the key of the element that it now holds, `i` first.
pub open spec fn index_swapped(t: Seq<i32>, m: Map<u64, Seq<usize>>, i: usize, j: usize) -> Map<
    u64,
    Seq<usize>,
> {
    let first = key_of(t[i as int]);
    let second = key_of(t[j as int]);
    let struck = without_position(without_position(m, first, j), second, i);
    with_position(with_position(struck, first, i), second, j)
}

/// The buckets after the element at `pos` has risen.
pub open spec fn risen_index(kind: HeapKind, s: Seq<i32>, m: Map<u64, Seq<usize>>, pos: int) -> Map<
    u64,
    Seq<usize>,
>
    decreases pos,
{
    if 0 < pos < s.len() && !outranks(kind, s[parent_of(pos)], s[pos]) {
        let t = swapped(s, pos, parent_of(pos));
        risen_index(
            kind,
            t,
            index_swapped(t, m, pos as usize, parent_of(pos) as usize),
            parent_of(pos),
        )
    } else {
        m
    }
}

/// The buckets after the element at `pos` has sunk.
pub open spec fn sunk_index(kind: HeapKind, s: Seq<i32>, m: Map<u64, Seq<usize>>, pos: int) -> Map<
    u64,
    Seq<usize>,
>
    decreases s.len() - pos,
{
    if 0 <= pos < s.len() && !below_ok(kind, s, pos, s[pos]) {
        let child = better_child(kind, s, pos);
        let t = swapped(s, pos, child);
        sunk_index(kind, t, index_swapped(t, m, child as usize, pos as usize), child)
    } else {
        m
    }
}

/// The buckets after the element at `at` has been brought back into order with its neighbours.
pub open spec fn repaired_index(
    kind: HeapKind,
    s: Seq<i32>,
    m: Map<u64, Seq<usize>>,
    at: int,
) -> Map<u64, Seq<usize>> {
    let up = if above_ok(kind, s, at, s[at]) {
        s
    } else {
        risen(kind, s, at)
    };
    let up_index = if above_ok(kind, s, at, s[at]) {
        m
    } else {
        risen_index(kind, s, m, at)
    };
    if below_ok(kind, s, at, s[at]) {
        up_index
    } else {
        sunk_index(kind, up, up_index, at)
    }
}

/// The buckets after `value` is inserted: the new last position is filed, and the value rises.
pub open spec fn index_after_insert(
    kind: HeapKind,
    s: Seq<i32>,
    m: Map<u64, Seq<usize>>,
    value: i32,
) -> Map<u64, Seq<usize>> {
    risen_index(
        kind,
        s.push(value),
        with_position(m, key_of(value), s.len() as usize),
        s.len() as int,
    )
}

/// The buckets once the records of the first and of the last position are struck.
pub open spec fn ends_struck(s: Seq<i32>, m: Map<u64, Seq<usize>>) -> Map<u64, Seq<usize>> {
    if s.len() == 0 {
        m
    } else {
        without_position(
            without_position(m, key_of(s[0]), 0),
            key_of(s.last()),
            (s.len() - 1) as usize,
        )
    }
}

/// The buckets after the root is extracted: the records of both ends are struck, and where
/// more than one element was held, the last one is filed under position 0 and sinks.
pub open spec fn index_after_extract(kind: HeapKind, s: Seq<i32>, m: Map<u64, Seq<usize>>) -> Map<
    u64,
    Seq<usize>,
> {
    if s.len() <= 1 {
        ends_struck(s, m)
    } else {
        sunk_index(
            kind,
            filled_from_last(s, 0),
            with_position(ends_struck(s, m), key_of(s.last()), 0),
            0,
        )
    }
}

/// The buckets after the element at `at` is removed.
pub open spec fn index_after_remove(
    kind: HeapKind,
    s: Seq<i32>,
    m: Map<u64, Seq<usize>>,
    at: int,
) -> Map<u64, Seq<usize>> {
    let last = s.len() - 1;
    if at == 0 {
        index_after_extract(kind, s, m)
    } else if at == last {
        without_position(m, key_of(s[last]), last as usize)
    } else {
        let t = swapped(s, at, last);
        repaired_index(
            kind,
            filled_from_last(s, at),
            without_position(
                index_swapped(t, m, at as usize, last as usize),
                key_of(t[last]),
                last as usize,
            ),
            at,
        )
    }
}

/// The elements and the buckets of a heap into which `items` were inserted one after the other.
pub open spec fn heapified_state(kind: HeapKind, items: Seq<i32>) -> (
    Seq<i32>,
    Map<u64, Seq<usize>>,
)
    decreases items.len(),
{
    if items.len() == 0 {
        (items, Map::empty())
    } else {
        let before = heapified_state(kind, items.drop_last());
        (
            after_insert(kind, before.0, items.last()),
            index_after_insert(kind, before.0, before.1, items.last()),
        )
    }
}

} // verus!
