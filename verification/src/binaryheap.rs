use crate::hashing::{hash_value, key_of};
use crate::order::{
    above_ok, after_extract, after_insert, after_remove, below_ok, better_child, edge_ok,
    extraction, filled_from_last, heap_ordered, lemma_drop_last_multiset, lemma_filled_multiset,
    lemma_filled_order, lemma_pushed_order, lemma_rise_step, lemma_root_outranks_all,
    lemma_sink_step, lemma_swapped_multiset, ordered_but_above, ordered_but_around,
    ordered_but_below, outranks, parent_of, preferred, repaired, risen, skip_ok, sunk, swapped,
};
use crate::records::{
    ends_struck, heapified_state, index_after_extract, index_after_insert, index_after_remove,
    index_swapped, repaired_index, risen_index, sunk_index,
};
use crate::table::{
    bucket_at, bucket_at_mut, buckets, holding, index_matches, lemma_file, lemma_longer,
    lemma_positions_exact, lemma_same_outside, lemma_shorter, lemma_strike, new_table,
    no_buckets, positions_of, put_bucket, with_position, without, without_position,
    PositionTable,
};
use std::collections::VecDeque;
use vstd::prelude::*;

verus! {

/// Which end of the order a heap hands out first.
pub enum HeapKind {
    /// The largest element comes first.
    Max,
    /// The smallest element comes first.
    Min,
}

/// What can be out of order around one position.
pub enum HeapViolation {
    /// The element is out of order with the one above it.
    Parent,
    /// The element is out of order with one below it.
    Children,
}

/// A binary heap that also keeps, for each value's hash, the positions that hold such a value,
/// so that a value can be found and removed without a scan.
pub struct BinaryHeap {
    elements: VecDeque<i32>,
    kind: HeapKind,
    element_indices: PositionTable,
}

impl View for BinaryHeap {
    type V = Seq<i32>;

    /// The elements by position: level by level, the root first.
    closed spec fn view(&self) -> Seq<i32> {
        self.elements@
    }
}

impl BinaryHeap {
    /// The kind that the heap was made with.
    pub closed spec fn kind(&self) -> HeapKind {
        self.kind
    }

    /// The position table: for each key, the positions on record.
    pub closed spec fn index(&self) -> Map<u64, Seq<usize>> {
        buckets(self.element_indices)
    }

    /// The heap property holds and the position table agrees with the elements.
    pub open spec fn wf(&self) -> bool {
        &&& heap_ordered(self.kind(), self@)
        &&& index_matches(self@, self.index())
    }

    /// The elements fit the machine's positions.
    pub proof fn lemma_len_fits(&self)
        ensures
            self@.len() <= usize::MAX,
    {
        assert(self.elements.len() == self.elements@.len());
    }

    /// An empty heap of the given kind.
    pub fn new(heap_type: HeapKind) -> (heap: Self)
        ensures
            heap.wf(),
            heap@ == Seq::<i32>::empty(),
            heap.index() == no_buckets(),
            heap.kind() == heap_type,
    {
        Self { elements: VecDeque::new(), kind: heap_type, element_indices: new_table() }
    }

    /// The element at a position, if the position is occupied.
    pub fn element_at(&self, ind: usize) -> (found: Option<&i32>)
        ensures
            found == if ind < self@.len() {
                Some(&self@[ind as int])
            } else {
                None
            },
    {
        if ind < self.elements.len() {
            Some(&self.elements[ind])
        } else {
            None
        }
    }

    /// The highest-priority element, if there is any. The heap is not changed.
    pub fn peek(&self) -> (front: Option<&i32>)
        ensures
            front == if self@.len() > 0 {
                Some(&self@[0])
            } else {
                None
            },
            self.wf() && front.is_some() ==> forall|i: int|
                0 <= i < self@.len() ==> outranks(
                    self.kind(),
                    *front.unwrap(),
                    #[trigger] self@[i],
                ),
    {
        proof {
            if self.wf() {
                assert forall|i: int| 0 <= i < self@.len() implies outranks(
                    self.kind(),
                    self@[0],
                    #[trigger] self@[i],
                ) by {
                    lemma_root_outranks_all(self.kind(), self@, i);
                }
            }
        }
        self.element_at(0)
    }

    /// The number of elements.
    pub fn len(&self) -> (count: usize)
        ensures
            count == self@.len(),
    {
        self.elements.len()
    }

    /// Whether the heap holds no element.
    pub fn is_empty(&self) -> (empty: bool)
        ensures
            empty == (self@.len() == 0),
    {
        self.elements.len() == 0
    }

    /// Whether `obj1` may sit at or above `obj2` in this heap.
    pub fn verify_priority(&self, obj1: &i32, obj2: &i32) -> (allowed: bool)
        ensures
            allowed == outranks(self.kind(), *obj1, *obj2),
    {
        match self.kind {
            HeapKind::Max => *obj1 >= *obj2,
            HeapKind::Min => *obj1 <= *obj2,
        }
    }

    /// The position above an occupied position; none for the root and for a position that is
    /// not occupied.
    pub fn parent_index(&self, child_ind: usize) -> (parent: Option<usize>)
        ensures
            parent == if 0 < child_ind < self@.len() {
                Some(
                    if child_ind % 2 == 0 {
                        (child_ind / 2 - 1) as usize
                    } else {
                        child_ind / 2
                    },
                )
            } else {
                None
            },
            parent.is_some() ==> parent.unwrap() == parent_of(child_ind as int),
    {
        if child_ind == 0 || child_ind >= self.elements.len() {
            None
        } else if even(child_ind) {
            Some(child_ind / 2 - 1)
        } else {
            Some(child_ind / 2)
        }
    }

    /// The two positions below a position, each only if it is occupied.
    pub fn children_indices(&self, parent_ind: usize) -> (children: [Option<usize>; 2])
        ensures
            children[0].is_some() == (2 * parent_ind + 1 < self@.len()),
            children[0].is_some() ==> children[0].unwrap() == 2 * parent_ind + 1,
            children[1].is_some() == (2 * parent_ind + 2 < self@.len()),
            children[1].is_some() ==> children[1].unwrap() == 2 * parent_ind + 2,
    {
        let len = self.elements.len();
        let child_1 = if parent_ind < len / 2 {
            Some((parent_ind + 1) * 2 - 1)
        } else {
            None
        };
        let child_2 = if len >= 1 && parent_ind < (len - 1) / 2 {
            Some((parent_ind + 1) * 2)
        } else {
            None
        };
        [child_1, child_2]
    }

    /// Whether `child`, placed at `child_node_ind`, would be in order with the element above.
    fn verify_parent(&self, child_node_ind: usize, child: &i32) -> (ok: bool)
        ensures
            ok == above_ok(self.kind(), self@, child_node_ind as int, *child),
    {
        if let Some(parent_ind) = self.parent_index(child_node_ind) {
            let parent = &self.elements[parent_ind];
            self.verify_priority(parent, child)
        } else {
            true
        }
    }

    /// Whether `parent`, placed at `index`, would be in order with the elements below.
    fn verify_children(&self, index: usize, parent: &i32) -> (ok: bool)
        ensures
            ok == below_ok(self.kind(), self@, index as int, *parent),
    {
        let children = self.children_indices(index);
        let first_ok = match children[0] {
            Some(child_ind) => self.verify_priority(parent, &self.elements[child_ind]),
            None => true,
        };
        let second_ok = match children[1] {
            Some(child_ind) => self.verify_priority(parent, &self.elements[child_ind]),
            None => true,
        };
        first_ok && second_ok
    }

    /// Whether the element at `index` is in order with its parent and with its children.
    fn verify_heap_property(&self, index: usize) -> (ok: bool)
        requires
            index < self@.len(),
        ensures
            ok == (above_ok(self.kind(), self@, index as int, self@[index as int]) && below_ok(
                self.kind(),
                self@,
                index as int,
                self@[index as int],
            )),
    {
        let current_node = &self.elements[index];
        self.verify_parent(index, current_node) && self.verify_children(index, current_node)
    }

    /// Of the children given, the one that may sit above the other; the first where both may.
    fn index_with_priority(&self, indices: [Option<usize>; 2]) -> (chosen: usize)
        requires
            indices[0].is_some() || indices[1].is_some(),
            indices[0].is_some() ==> indices[0].unwrap() < self@.len(),
            indices[1].is_some() ==> indices[1].unwrap() < self@.len(),
        ensures
            chosen == preferred(self.kind(), self@, indices[0], indices[1]),
    {
        match (indices[0], indices[1]) {
            (Some(child1_ind), Some(child2_ind)) => {
                let child1 = &self.elements[child1_ind];
                let child2 = &self.elements[child2_ind];
                if self.verify_priority(child1, child2) {
                    child1_ind
                } else {
                    child2_ind
                }
            },
            (Some(child1_ind), None) => child1_ind,
            (None, Some(child2_ind)) => child2_ind,
            (None, None) => 0,
        }
    }

    /// Files `element_index` in the table under the key of the element that it holds.
    fn update_table_for_element_entry(&mut self, element_index: usize)
        requires
            element_index < old(self)@.len(),
        ensures
            final(self)@ == old(self)@,
            final(self).kind() == old(self).kind(),
            final(self).index() == with_position(
                old(self).index(),
                key_of(old(self)@[element_index as int]),
                element_index,
            ),
    {
        let hash_value = hash_value(&self.elements[element_index]);
        match bucket_at_mut(&mut self.element_indices, hash_value) {
            Some(element_present_at) => {
                element_present_at.push(element_index);
            },
            None => {
                let bucket = vec![element_index];
                proof {
                    assert(bucket@ =~= seq![element_index]);
                }
                put_bucket(&mut self.element_indices, hash_value, bucket);
            },
        }
    }

    /// Strikes `element_was_at` from the bucket of the element that `element_ind` holds.
    fn remove_from_table(&mut self, element_ind: usize, element_was_at: usize)
        requires
            element_ind < old(self)@.len(),
        ensures
            final(self)@ == old(self)@,
            final(self).kind() == old(self).kind(),
            final(self).index() == without_position(
                old(self).index(),
                key_of(old(self)@[element_ind as int]),
                element_was_at,
            ),
    {
        let hash_value = hash_value(&self.elements[element_ind]);
        match bucket_at_mut(&mut self.element_indices, hash_value) {
            Some(indices) => {
                let mut items_to_be_retained: Vec<usize> = Vec::new();
                let mut i: usize = 0;
                while i < indices.len()
                    invariant
                        i <= indices@.len(),
                        items_to_be_retained@ == without(indices@.take(i as int), element_was_at),
                    decreases indices@.len() - i,
                {
                    proof {
                        assert(indices@.take(i + 1).drop_last() =~= indices@.take(i as int));
                    }
                    if indices[i] != element_was_at {
                        items_to_be_retained.push(indices[i]);
                    }
                    i += 1;
                }
                proof {
                    assert(indices@.take(i as int) =~= indices@);
                }
                indices.clear();
                indices.append(&mut items_to_be_retained);
                proof {
                    assert(indices@ =~= without(old(self).index()[hash_value], element_was_at));
                }
            },
            None => {},
        }
    }

    /// Brings the table up to date after the elements at `ind1` and `ind2` changed places.
    fn update_table_for_swap(&mut self, ind1: usize, ind2: usize)
        requires
            ind1 < old(self)@.len(),
            ind2 < old(self)@.len(),
            ind1 != ind2,
            index_matches(swapped(old(self)@, ind1 as int, ind2 as int), old(self).index()),
        ensures
            final(self)@ == old(self)@,
            final(self).kind() == old(self).kind(),
            final(self).index() == index_swapped(old(self)@, old(self).index(), ind1, ind2),
            index_matches(final(self)@, final(self).index()),
    {
        let ghost now = self@;
        let ghost before = swapped(self@, ind1 as int, ind2 as int);
        let ghost none = Set::<usize>::empty();
        proof {
            lemma_strike(before, self.index(), none, ind2);
        }
        self.remove_from_table(ind1, ind2);
        proof {
            lemma_strike(before, self.index(), none.insert(ind2), ind1);
        }
        self.remove_from_table(ind2, ind1);
        proof {
            let both = none.insert(ind2).insert(ind1);
            lemma_same_outside(before, now, self.index(), both);
            lemma_file(now, self.index(), both, ind1);
        }
        self.update_table_for_element_entry(ind1);
        proof {
            let one = none.insert(ind2).insert(ind1).remove(ind1);
            lemma_file(now, self.index(), one, ind2);
            assert(one.remove(ind2) =~= none);
        }
        self.update_table_for_element_entry(ind2);
    }

    /// Exchanges the elements at two different positions, and their records in the table.
    fn swap_elements(&mut self, ind1: usize, ind2: usize)
        requires
            ind1 < old(self)@.len(),
            ind2 < old(self)@.len(),
            ind1 != ind2,
            index_matches(old(self)@, old(self).index()),
        ensures
            final(self)@ == swapped(old(self)@, ind1 as int, ind2 as int),
            final(self).kind() == old(self).kind(),
            final(self).index() == index_swapped(final(self)@, old(self).index(), ind1, ind2),
            index_matches(final(self)@, final(self).index()),
    {
        swap_in_deque(&mut self.elements, ind1, ind2);
        proof {
            assert(swapped(self@, ind1 as int, ind2 as int) =~= old(self)@);
        }
        self.update_table_for_swap(ind1, ind2);
    }

    /// Appends an element and files its position.
    fn push_back(&mut self, object: i32)
        requires
            index_matches(old(self)@, old(self).index()),
        ensures
            final(self)@ == old(self)@.push(object),
            final(self).kind() == old(self).kind(),
            final(self).index() == with_position(
                old(self).index(),
                key_of(object),
                old(self)@.len() as usize,
            ),
            index_matches(final(self)@, final(self).index()),
    {
        self.elements.push_back(object);
        let currently_inserted_index = self.elements.len() - 1;
        proof {
            let none = Set::<usize>::empty();
            let new_only = none.insert(currently_inserted_index);
            lemma_longer(old(self)@, self.index(), none, object);
            lemma_file(self@, self.index(), new_only, currently_inserted_index);
            assert(new_only.remove(currently_inserted_index) =~= none);
        }
        self.update_table_for_element_entry(currently_inserted_index);
    }

    /// Puts an element in front of the others and files it under position 0. The records of
    /// the others are not moved: the caller has arranged that they are right as they stand.
    fn push_front(&mut self, object: i32)
        ensures
            final(self)@ == seq![object] + old(self)@,
            final(self).kind() == old(self).kind(),
            final(self).index() == with_position(old(self).index(), key_of(object), 0),
    {
        self.elements.push_front(object);
        self.update_table_for_element_entry(0);
    }

    /// Strikes the records of the first and of the last position, which an extraction is about
    /// to change.
    fn handle_table_changes(&mut self)
        ensures
            final(self)@ == old(self)@,
            final(self).kind() == old(self).kind(),
            final(self).index() == ends_struck(old(self)@, old(self).index()),
    {
        if self.elements.len() > 0 {
            self.remove_from_table(0, 0);
        }
        if self.elements.len() > 0 {
            let vec_len = self.elements.len() - 1;
            self.remove_from_table(vec_len, vec_len);
        }
    }

    /// Lets the element at `start_ind` rise until it is in order with the element above it.
    fn bubble_up(&mut self, start_ind: usize)
        requires
            start_ind < old(self)@.len(),
            ordered_but_above(old(self).kind(), old(self)@, start_ind as int),
            index_matches(old(self)@, old(self).index()),
        ensures
            final(self).wf(),
            final(self).kind() == old(self).kind(),
            final(self)@ == risen(old(self).kind(), old(self)@, start_ind as int),
            final(self).index() == risen_index(
                old(self).kind(),
                old(self)@,
                old(self).index(),
                start_ind as int,
            ),
            final(self)@.len() == old(self)@.len(),
            final(self)@.to_multiset() == old(self)@.to_multiset(),
    {
        let mut new_element_pos = start_ind;
        while !self.verify_heap_property(new_element_pos)
            invariant
                new_element_pos < self@.len(),
                ordered_but_above(self.kind(), self@, new_element_pos as int),
                index_matches(self@, self.index()),
                risen(self.kind(), self@, new_element_pos as int) == risen(
                    old(self).kind(),
                    old(self)@,
                    start_ind as int,
                ),
                risen_index(self.kind(), self@, self.index(), new_element_pos as int)
                    == risen_index(
                    old(self).kind(),
                    old(self)@,
                    old(self).index(),
                    start_ind as int,
                ),
                self.kind() == old(self).kind(),
                self@.len() == old(self)@.len(),
                self@.to_multiset() == old(self)@.to_multiset(),
            decreases new_element_pos,
        {
            proof {
                let pos = new_element_pos as int;
                if 2 * pos + 1 < self@.len() {
                    assert(edge_ok(self.kind(), self@, 2 * pos + 1));
                }
                if 2 * pos + 2 < self@.len() {
                    assert(edge_ok(self.kind(), self@, 2 * pos + 2));
                }
                lemma_rise_step(self.kind(), self@, pos);
                lemma_swapped_multiset(self@, pos, parent_of(pos));
            }
            let parent_ind = self.parent_index(new_element_pos).unwrap();
            self.swap_elements(new_element_pos, parent_ind);
            new_element_pos = parent_ind;
        }
    }

    /// Lets the element at `start_ind` sink until it is in order with the elements below it.
    fn bubble_down(&mut self, start_ind: usize)
        requires
            start_ind < old(self)@.len(),
            ordered_but_below(old(self).kind(), old(self)@, start_ind as int),
            index_matches(old(self)@, old(self).index()),
        ensures
            final(self).wf(),
            final(self).kind() == old(self).kind(),
            final(self)@ == sunk(old(self).kind(), old(self)@, start_ind as int),
            final(self).index() == sunk_index(
                old(self).kind(),
                old(self)@,
                old(self).index(),
                start_ind as int,
            ),
            final(self)@.len() == old(self)@.len(),
            final(self)@.to_multiset() == old(self)@.to_multiset(),
    {
        let mut new_element_pos = start_ind;
        while !self.verify_heap_property(new_element_pos)
            invariant
                new_element_pos < self@.len(),
                ordered_but_below(self.kind(), self@, new_element_pos as int),
                index_matches(self@, self.index()),
                sunk(self.kind(), self@, new_element_pos as int) == sunk(
                    old(self).kind(),
                    old(self)@,
                    start_ind as int,
                ),
                sunk_index(self.kind(), self@, self.index(), new_element_pos as int) == sunk_index(
                    old(self).kind(),
                    old(self)@,
                    old(self).index(),
                    start_ind as int,
                ),
                self.kind() == old(self).kind(),
                self@.len() == old(self)@.len(),
                self@.to_multiset() == old(self)@.to_multiset(),
            decreases self@.len() - new_element_pos,
        {
            proof {
                let pos = new_element_pos as int;
                if pos > 0 {
                    assert(edge_ok(self.kind(), self@, pos));
                }
                assert(above_ok(self.kind(), self@, pos, self@[pos]));
                assert(!below_ok(self.kind(), self@, pos, self@[pos]));
                assert(2 * pos + 1 < self@.len());
            }
            let children_indices = self.children_indices(new_element_pos);
            let priority_ind = self.index_with_priority(children_indices);
            proof {
                let pos = new_element_pos as int;
                assert(priority_ind == better_child(self.kind(), self@, pos));
                assert forall|d: int| 1 <= d < self@.len() && parent_of(d) == pos implies outranks(
                    self.kind(),
                    self@[priority_ind as int],
                    self@[d],
                ) by {
                    assert(d == 2 * pos + 1 || d == 2 * pos + 2);
                }
                lemma_sink_step(self.kind(), self@, pos, priority_ind as int);
                lemma_swapped_multiset(self@, priority_ind as int, pos);
                assert(swapped(self@, priority_ind as int, pos) =~= swapped(
                    self@,
                    pos,
                    priority_ind as int,
                ));
            }
            self.swap_elements(priority_ind, new_element_pos);
            new_element_pos = priority_ind;
        }
    }

    /// The positions that hold a value equal to `element`, in the order in which the table has
    /// them; none where no position holds one.
    pub fn get_index(&self, element: &i32) -> (found: Option<Vec<usize>>)
        requires
            self.wf(),
        ensures
            found.is_some() == self@.contains(*element),
            found.is_some() ==> found.unwrap()@ == positions_of(self@, self.index(), *element),
            found.is_some() ==> found.unwrap()@.len() > 0 && found.unwrap()@.no_duplicates(),
            found.is_some() ==> forall|p: usize| #[trigger]
                found.unwrap()@.contains(p) <==> (p < self@.len() && self@[p as int] == *element),
    {
        let count = self.elements.len();
        proof {
            lemma_positions_exact(self@, self.index(), *element);
        }
        let hash_value = hash_value(element);
        match bucket_at(&self.element_indices, hash_value) {
            Some(indices) => {
                let mut present: Vec<usize> = Vec::new();
                let mut i: usize = 0;
                while i < indices.len()
                    invariant
                        i <= indices@.len(),
                        count == self@.len(),
                        present@ == holding(self@, indices@.take(i as int), *element),
                    decreases indices@.len() - i,
                {
                    proof {
                        assert(indices@.take(i + 1).drop_last() =~= indices@.take(i as int));
                    }
                    let position = indices[i];
                    if position < count && self.elements[position] == *element {
                        present.push(position);
                    }
                    i += 1;
                }
                proof {
                    assert(indices@.take(i as int) =~= indices@);
                }
                if present.len() == 0 {
                    None
                } else {
                    Some(present)
                }
            },
            None => None,
        }
    }

    /// Inserts a value. The heap then holds it once more than before, and everything else as
    /// before.
    pub fn insert(&mut self, object: i32)
        requires
            old(self).wf(),
        ensures
            final(self).wf(),
            final(self).kind() == old(self).kind(),
            final(self)@ == after_insert(old(self).kind(), old(self)@, object),
            final(self).index() == index_after_insert(
                old(self).kind(),
                old(self)@,
                old(self).index(),
                object,
            ),
            final(self)@.len() == old(self)@.len() + 1,
            final(self)@.to_multiset() == old(self)@.to_multiset().insert(object),
    {
        proof {
            lemma_pushed_order(self.kind(), self@, object);
            vstd::seq_lib::to_multiset_build(self@, object);
        }
        self.push_back(object);
        let currently_inserted_index = self.elements.len() - 1;
        self.bubble_up(currently_inserted_index);
    }

    /// A heap of the given kind that holds the items, each as often as the slice does.
    pub fn heapify(items: &[i32], kind: HeapKind) -> (heap: Self)
        ensures
            heap.wf(),
            heap.kind() == kind,
            heap@ == heapified_state(kind, items@).0,
            heap.index() == heapified_state(kind, items@).1,
            heap@.len() == items@.len(),
            heap@.to_multiset() == items@.to_multiset(),
    {
        let mut acc = Self::new(kind);
        let mut i: usize = 0;
        proof {
            assert(items@.take(0) =~= acc@);
        }
        while i < items.len()
            invariant
                i <= items@.len(),
                acc.wf(),
                acc.kind() == kind,
                acc@.len() == i,
                acc@ == heapified_state(kind, items@.take(i as int)).0,
                acc.index() == heapified_state(kind, items@.take(i as int)).1,
                acc@.to_multiset() == items@.take(i as int).to_multiset(),
            decreases items@.len() - i,
        {
            proof {
                assert(items@.take(i + 1) =~= items@.take(i as int).push(items@[i as int]));
                assert(items@.take(i + 1).drop_last() =~= items@.take(i as int));
                vstd::seq_lib::to_multiset_build(items@.take(i as int), items@[i as int]);
            }
            acc.insert(items[i]);
            i += 1;
        }
        proof {
            assert(items@.take(i as int) =~= items@);
        }
        acc
    }

    /// Takes the highest-priority element out and returns it; none where the heap is empty,
    /// which then stays as it is.
    pub fn extract_object(&mut self) -> (extracted: Option<i32>)
        requires
            old(self).wf(),
        ensures
            final(self).wf(),
            final(self).kind() == old(self).kind(),
            extracted.is_some() == (old(self)@.len() > 0),
            extracted.is_some() ==> extracted.unwrap() == old(self)@[0],
            final(self)@ == after_extract(old(self).kind(), old(self)@),
            final(self).index() == index_after_extract(
                old(self).kind(),
                old(self)@,
                old(self).index(),
            ),
            extracted.is_some() ==> extraction(
                old(self).kind(),
                old(self)@,
                extracted.unwrap(),
                final(self)@,
            ),
            extracted.is_some() ==> final(self)@.len() == old(self)@.len() - 1,
            extracted.is_some() ==> forall|i: int|
                0 <= i < old(self)@.len() ==> outranks(
                    old(self).kind(),
                    extracted.unwrap(),
                    #[trigger] old(self)@[i],
                ),
            extracted.is_none() ==> final(self)@ == old(self)@ && final(self).index() == old(
                self,
            ).index(),
    {
        let ghost s = self@;
        let ghost m = self.index();
        let ghost none = Set::<usize>::empty();
        let count = self.elements.len();
        proof {
            assert forall|i: int| 0 <= i < s.len() implies outranks(
                self.kind(),
                s[0],
                #[trigger] s[i],
            ) by {
                lemma_root_outranks_all(self.kind(), s, i);
            }
        }
        self.handle_table_changes();
        proof {
            if s.len() > 0 {
                let last = (s.len() - 1) as usize;
                lemma_strike(s, m, none, 0);
                lemma_strike(s, without_position(m, key_of(s[0]), 0), none.insert(0), last);
                let both = none.insert(0).insert(last);
                if s.len() == 1 {
                    lemma_shorter(s, self.index(), both);
                    assert(both.remove(last) =~= none);
                    lemma_drop_last_multiset(s);
                } else {
                    let u = s.update(0, s.last());
                    lemma_same_outside(s, u, self.index(), both);
                    lemma_shorter(u, self.index(), both);
                    assert(both.remove(last) =~= none.insert(0));
                    lemma_file(filled_from_last(s, 0), self.index(), none.insert(0), 0);
                    assert(none.insert(0).remove(0) =~= none);
                    lemma_filled_multiset(s, 0);
                    lemma_filled_order(self.kind(), s, 0);
                }
            }
        }
        let max_priority_elem = self.elements.pop_front();
        match self.elements.pop_back() {
            Some(last_entry) => {
                self.push_front(last_entry);
                proof {
                    assert(self@ =~= filled_from_last(s, 0));
                }
                self.bubble_down(0);
                max_priority_elem
            },
            None => {
                proof {
                    if s.len() == 1 {
                        assert(self@ =~= s.drop_last());
                    }
                }
                max_priority_elem
            },
        }
    }

    /// Removes one occurrence of a value equal to `object`, the one at the first position on
    /// record for it, and returns it; none where the heap holds no such value, and the heap
    /// then stays as it is.
    pub fn remove_object(&mut self, object: &i32) -> (removed: Option<i32>)
        requires
            old(self).wf(),
        ensures
            final(self).wf(),
            final(self).kind() == old(self).kind(),
            removed == if old(self)@.contains(*object) {
                Some(*object)
            } else {
                None
            },
            removed.is_some() ==> final(self)@ == after_remove(
                old(self).kind(),
                old(self)@,
                positions_of(old(self)@, old(self).index(), *object)[0] as int,
            ),
            removed.is_some() ==> final(self).index() == index_after_remove(
                old(self).kind(),
                old(self)@,
                old(self).index(),
                positions_of(old(self)@, old(self).index(), *object)[0] as int,
            ),
            removed.is_some() ==> final(self)@.len() == old(self)@.len() - 1,
            removed.is_some() ==> final(self)@.to_multiset() == old(self)@.to_multiset().remove(
                *object,
            ),
            removed.is_none() ==> final(self)@ == old(self)@ && final(self).index() == old(
                self,
            ).index(),
    {
        let ghost s = self@;
        let ghost none = Set::<usize>::empty();
        if let Some(present_indices) = self.get_index(object) {
            let index_to_remove = present_indices[0];
            let last_element_index = self.len() - 1;
            proof {
                assert(present_indices@.contains(index_to_remove));
            }
            if index_to_remove == 0 {
                self.extract_object()
            } else if index_to_remove == last_element_index {
                proof {
                    lemma_strike(s, self.index(), none, last_element_index);
                    lemma_shorter(
                        s,
                        without_position(
                            self.index(),
                            key_of(s[last_element_index as int]),
                            last_element_index,
                        ),
                        none.insert(last_element_index),
                    );
                    assert(none.insert(last_element_index).remove(last_element_index) =~= none);
                    lemma_drop_last_multiset(s);
                    assert forall|i: int| 1 <= i < s.drop_last().len() implies #[trigger] edge_ok(
                        self.kind(),
                        s.drop_last(),
                        i,
                    ) by {
                        assert(edge_ok(self.kind(), s, i));
                    }
                }
                self.remove_from_table(last_element_index, last_element_index);
                let removed_element = self.elements.pop_back();
                proof {
                    assert(self@ =~= s.drop_last());
                }
                removed_element
            } else {
                self.swap_elements(index_to_remove, last_element_index);
                proof {
                    lemma_strike(self@, self.index(), none, last_element_index);
                    lemma_shorter(
                        self@,
                        without_position(
                            self.index(),
                            key_of(self@[last_element_index as int]),
                            last_element_index,
                        ),
                        none.insert(last_element_index),
                    );
                    assert(none.insert(last_element_index).remove(last_element_index) =~= none);
                    lemma_filled_multiset(s, index_to_remove as int);
                    lemma_filled_order(self.kind(), s, index_to_remove as int);
                }
                self.remove_from_table(last_element_index, last_element_index);
                let removed_element = self.elements.pop_back();
                proof {
                    assert(self@ =~= filled_from_last(s, index_to_remove as int));
                }
                let res = self.check_heap_invariants_at(
                    index_to_remove,
                    &self.elements[index_to_remove],
                );
                self.ensure_heap_invariants(res, index_to_remove);
                removed_element
            }
        } else {
            None
        }
    }

    /// Restores the heap property around a position whose element was replaced: the element
    /// rises where it is out of order with its parent, and sinks where it is out of order with a
    /// child; where both are reported, it rises first and then sinks.
    fn ensure_heap_invariants(
        &mut self,
        status_found: (Option<HeapViolation>, Option<HeapViolation>),
        concerned_index: usize,
    )
        requires
            concerned_index < old(self)@.len(),
            ordered_but_around(old(self).kind(), old(self)@, concerned_index as int),
            index_matches(old(self)@, old(self).index()),
            status_found == status_at(
                old(self).kind(),
                old(self)@,
                concerned_index as int,
                old(self)@[concerned_index as int],
            ),
        ensures
            final(self).wf(),
            final(self).kind() == old(self).kind(),
            final(self)@ == repaired(old(self).kind(), old(self)@, concerned_index as int),
            final(self).index() == repaired_index(
                old(self).kind(),
                old(self)@,
                old(self).index(),
                concerned_index as int,
            ),
            final(self)@.len() == old(self)@.len(),
            final(self)@.to_multiset() == old(self)@.to_multiset(),
    {
        proof {
            lemma_status(self.kind(), self@, concerned_index as int);
        }
        match status_found {
            (Some(a), Some(b)) => {
                self.fix_invariant(concerned_index, a);
                self.fix_invariant(concerned_index, b);
            },
            (None, Some(a)) => self.fix_invariant(concerned_index, a),
            (Some(a), None) => self.fix_invariant(concerned_index, a),
            (None, None) => {},
        }
    }

    /// Mends one violation at a position: a rise for one against the parent, a sinking for one
    /// against the children.
    fn fix_invariant(&mut self, concerned_index: usize, violation: HeapViolation)
        requires
            concerned_index < old(self)@.len(),
            index_matches(old(self)@, old(self).index()),
            match violation {
                HeapViolation::Parent => ordered_but_above(
                    old(self).kind(),
                    old(self)@,
                    concerned_index as int,
                ),
                HeapViolation::Children => ordered_but_below(
                    old(self).kind(),
                    old(self)@,
                    concerned_index as int,
                ),
            },
        ensures
            final(self).wf(),
            final(self).kind() == old(self).kind(),
            final(self)@ == match violation {
                HeapViolation::Parent => risen(
                    old(self).kind(),
                    old(self)@,
                    concerned_index as int,
                ),
                HeapViolation::Children => sunk(
                    old(self).kind(),
                    old(self)@,
                    concerned_index as int,
                ),
            },
            final(self).index() == match violation {
                HeapViolation::Parent => risen_index(
                    old(self).kind(),
                    old(self)@,
                    old(self).index(),
                    concerned_index as int,
                ),
                HeapViolation::Children => sunk_index(
                    old(self).kind(),
                    old(self)@,
                    old(self).index(),
                    concerned_index as int,
                ),
            },
            final(self)@.len() == old(self)@.len(),
            final(self)@.to_multiset() == old(self)@.to_multiset(),
    {
        match violation {
            HeapViolation::Parent => self.bubble_up(concerned_index),
            HeapViolation::Children => self.bubble_down(concerned_index),
        }
    }

    /// What is out of order around a position, were `element` to stand there: first whether the
    /// parent is, then whether a child is.
    fn check_heap_invariants_at(&self, disturbed_index: usize, element: &i32) -> (status: (
        Option<HeapViolation>,
        Option<HeapViolation>,
    ))
        ensures
            status == status_at(self.kind(), self@, disturbed_index as int, *element),
    {
        match (
            self.verify_parent(disturbed_index, element),
            self.verify_children(disturbed_index, element),
        ) {
            (true, true) => (None, None),
            (true, false) => (None, Some(HeapViolation::Children)),
            (false, true) => (Some(HeapViolation::Parent), None),
            (false, false) => (Some(HeapViolation::Parent), Some(HeapViolation::Children)),
        }
    }
}

/// The status of a position at which `v` stands: a violation against the parent, or none, and
/// a violation against the children, or none.
pub open spec fn status_at(kind: HeapKind, s: Seq<i32>, i: int, v: i32) -> (
    Option<HeapViolation>,
    Option<HeapViolation>,
) {
    (
        if above_ok(kind, s, i, v) {
            None
        } else {
            Some(HeapViolation::Parent)
        },
        if below_ok(kind, s, i, v) {
            None
        } else {
            Some(HeapViolation::Children)
        },
    )
}

/// Around a replaced element at most one direction is out of order, and the other one then
/// holds as a rise or a sinking needs it.
pub proof fn lemma_status(kind: HeapKind, s: Seq<i32>, at: int)
    requires
        0 <= at < s.len(),
        ordered_but_around(kind, s, at),
    ensures
        above_ok(kind, s, at, s[at]) || below_ok(kind, s, at, s[at]),
        !above_ok(kind, s, at, s[at]) ==> ordered_but_above(kind, s, at),
        !below_ok(kind, s, at, s[at]) ==> ordered_but_below(kind, s, at),
        above_ok(kind, s, at, s[at]) && below_ok(kind, s, at, s[at]) ==> heap_ordered(kind, s),
{
    if 2 * at + 1 < s.len() && at >= 1 {
        assert(skip_ok(kind, s, 2 * at + 1));
    }
    if 2 * at + 2 < s.len() && at >= 1 {
        assert(skip_ok(kind, s, 2 * at + 2));
    }
    if !above_ok(kind, s, at, s[at]) {
        assert forall|i: int| 1 <= i < s.len() && i != at implies #[trigger] edge_ok(
            kind,
            s,
            i,
        ) by {
            if parent_of(i) == at {
                assert(skip_ok(kind, s, i));
            }
        }
    }
    if !below_ok(kind, s, at, s[at]) {
        assert forall|i: int| 1 <= i < s.len() && parent_of(i) != at implies #[trigger] edge_ok(
            kind,
            s,
            i,
        ) by {}
    }
    if above_ok(kind, s, at, s[at]) && below_ok(kind, s, at, s[at]) {
        assert forall|i: int| 1 <= i < s.len() implies #[trigger] edge_ok(kind, s, i) by {
            if parent_of(i) == at {
                assert(i == 2 * at + 1 || i == 2 * at + 2);
            }
        }
    }
}


/// `std::collections::VecDeque::swap`: exchanges the elements at two occupied positions and
/// leaves the others where they are.
#[verifier::external_body]
fn swap_in_deque(elements: &mut VecDeque<i32>, ind1: usize, ind2: usize)
    requires
        ind1 < old(elements)@.len(),
        ind2 < old(elements)@.len(),
    ensures
        final(elements)@ == swapped(old(elements)@, ind1 as int, ind2 as int),
{
    elements.swap(ind1, ind2);
}

/// Whether a position is even.
pub fn even(num: usize) -> (is_even: bool)
    ensures
        is_even == (num % 2 == 0),
{
    num % 2 == 0
}

} // verus!
