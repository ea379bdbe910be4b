use binary_heap::binaryheap::even;
use binary_heap::hashing::hash_value;
use binary_heap::{BinaryHeap, HeapKind};
use rand::distributions::Standard;
use rand::seq::{IteratorRandom, SliceRandom};
use rand::{thread_rng, Rng};
use std::collections::hash_map::DefaultHasher;
use std::collections::HashSet;
use std::hash::Hasher;

fn insert_seed_data(heap: &mut BinaryHeap, data: &[i32]) {
    data.iter().for_each(|item| {
        heap.insert(*item);
    });
}

fn elements_of(heap: &BinaryHeap) -> Vec<i32> {
    (0..heap.len()).map(|i| *heap.element_at(i).unwrap()).collect()
}

fn assert_heap_order(heap: &BinaryHeap, min: bool) {
    let elements = elements_of(heap);
    for i in 1..elements.len() {
        let parent = elements[(i - 1) / 2];
        if min {
            assert!(parent <= elements[i], "position {} is out of order", i);
        } else {
            assert!(parent >= elements[i], "position {} is out of order", i);
        }
    }
}

fn assert_index_exact(heap: &BinaryHeap) {
    let elements = elements_of(heap);
    for value in elements.iter() {
        let mut found = heap.get_index(value).unwrap();
        found.sort();
        let expected: Vec<usize> = (0..elements.len()).filter(|p| elements[*p] == *value).collect();
        assert_eq!(found, expected);
    }
}

#[test]
fn test_parent_and_child_indices() {
    let heap = BinaryHeap::heapify(&[4, 4, 8, 9, 5, 12, 11, 13], HeapKind::Min);
    assert_eq!(heap.parent_index(0), None);
    assert_eq!(heap.parent_index(1), Some(0));
    assert_eq!(heap.parent_index(2), Some(0));
    assert_eq!(heap.parent_index(3), Some(1));
    assert_eq!(heap.parent_index(4), Some(1));
    assert_eq!(heap.parent_index(5), Some(2));
    assert_eq!(heap.parent_index(6), Some(2));
    assert_eq!(heap.parent_index(7), Some(3));
    assert_eq!(heap.parent_index(8), None);
    assert_eq!(heap.parent_index(110), None);

    assert_eq!(heap.children_indices(0), [Some(1), Some(2)]);
    assert_eq!(heap.children_indices(1), [Some(3), Some(4)]);
    assert_eq!(heap.children_indices(2), [Some(5), Some(6)]);
    assert_eq!(heap.children_indices(3), [Some(7), None]);
    assert_eq!(heap.children_indices(4), [None, None]);
}

#[test]
fn test_get_index() {
    let mut heap = BinaryHeap::new(HeapKind::Min);
    let mut rng = thread_rng();
    let data: Vec<i32> = (&mut rng).sample_iter(Standard).take(10000).collect();
    insert_seed_data(&mut heap, &data);

    data.iter().for_each(|item| {
        let present_in_indices = heap.get_index(item).unwrap();
        for index in present_in_indices {
            assert_eq!(heap.element_at(index), Some(item));
        }
    });
}

#[test]
fn test_extract_min() {
    let mut heap = BinaryHeap::new(HeapKind::Min);
    let mut rng = thread_rng();
    let mut data: Vec<i32> = (&mut rng).sample_iter(Standard).take(10000).collect();
    insert_seed_data(&mut heap, &data);
    data.sort();
    data.into_iter().for_each(|item| {
        assert_eq!(heap.extract_object(), Some(item));
    });
    assert_eq!(heap.extract_object(), None);
    assert_eq!(heap.extract_object(), None);
}

#[test]
fn test_extract_max() {
    let mut heap = BinaryHeap::new(HeapKind::Max);
    let mut rng = thread_rng();
    let mut data: Vec<i32> = (&mut rng).sample_iter(Standard).take(10000).collect();
    insert_seed_data(&mut heap, &data);
    data.sort();
    data.reverse();
    data.into_iter().for_each(|item| {
        assert_eq!(heap.extract_object(), Some(item));
    });
    assert_eq!(heap.extract_object(), None);
    assert_eq!(heap.extract_object(), None);
}

#[test]
fn test_peek() {
    let mut heap = BinaryHeap::new(HeapKind::Min);
    let data = [4, 4, 8, 3, 9, 5, 12, 11, 13];
    insert_seed_data(&mut heap, &data);

    assert_eq!(heap.peek(), Some(&3));
    assert_eq!(heap.extract_object(), Some(3));
    assert_eq!(heap.extract_object(), Some(4));
    assert_eq!(heap.peek(), Some(&4));
}

#[test]
fn test_remove_object() {
    let mut heap = BinaryHeap::new(HeapKind::Min);
    let mut rng = thread_rng();
    let data: Vec<i32> = (&mut rng).sample_iter(Standard).take(10000).collect();
    insert_seed_data(&mut heap, &data);
    let mut items_removed = HashSet::new();
    let number_of_items_to_remove: usize = rng.gen_range(500..4000);

    for _ in 0..number_of_items_to_remove {
        let item_to_remove = data.iter().choose(&mut rand::thread_rng()).unwrap();
        heap.remove_object(item_to_remove);
        items_removed.insert(item_to_remove);
    }

    let mut remaining_items: Vec<i32> = data
        .iter()
        .filter(|element| !items_removed.contains(element))
        .copied()
        .collect();

    remaining_items.sort();
    remaining_items.iter().for_each(|element| {
        heap.get_index(element).unwrap().iter().for_each(|index| {
            assert_eq!(heap.element_at(*index), Some(element));
        });
    });

    remaining_items.into_iter().for_each(|element| {
        assert_eq!(Some(element), heap.extract_object());
    });
}

#[test]
fn test_remove_object_with_duplicates() {
    let mut heap = BinaryHeap::new(HeapKind::Min);
    let data = [4, 8, 3, 9, 5, 12, 11, 2, 13];
    insert_seed_data(&mut heap, &data);
    let mut items_removed = HashSet::new();
    while items_removed.len() != data.len() {
        let item_to_remove = data.choose(&mut rand::thread_rng()).unwrap();
        heap.remove_object(item_to_remove);
        items_removed.insert(*item_to_remove);
    }
    assert_eq!(heap.extract_object(), None);

    let data = [4, 3, 4];
    let mut heap = BinaryHeap::new(HeapKind::Min);
    insert_seed_data(&mut heap, &data);

    assert_eq!(Some(4), heap.remove_object(&4));
    assert_eq!(Some(4), heap.remove_object(&4));
    assert_eq!(None, heap.remove_object(&4));
    assert_eq!(None, heap.remove_object(&4));
    assert_eq!(Some(3), heap.remove_object(&3));
    assert_eq!(None, heap.remove_object(&5));
    assert_eq!(heap.extract_object(), None);
}

#[test]
fn min_heap_extracts_in_ascending_order() {
    let mut heap = BinaryHeap::new(HeapKind::Min);
    insert_seed_data(&mut heap, &[4, 4, 8, 9, 5, 12, 11, 13]);
    assert_eq!(heap.peek(), Some(&4));
    for expected in [4, 4, 5, 8, 9, 11] {
        assert_eq!(heap.extract_object(), Some(expected));
    }
    assert_eq!(heap.len(), 2);
}

#[test]
fn max_heap_extracts_in_descending_order() {
    let mut heap = BinaryHeap::new(HeapKind::Max);
    insert_seed_data(&mut heap, &[4, 4, 8, 9, 5, 12, 11, 13]);
    for expected in [13, 12, 11] {
        assert_eq!(heap.extract_object(), Some(expected));
    }
    assert_eq!(heap.len(), 5);
}

#[test]
fn remove_takes_one_occurrence_at_a_time() {
    let mut heap = BinaryHeap::new(HeapKind::Min);
    insert_seed_data(&mut heap, &[4, 3, 4]);
    assert_eq!(heap.get_index(&4).unwrap().len(), 2);
    assert_eq!(heap.remove_object(&4), Some(4));
    assert_eq!(heap.get_index(&4).unwrap().len(), 1);
    assert_eq!(heap.len(), 2);
    assert_eq!(heap.remove_object(&4), Some(4));
    assert_eq!(heap.get_index(&4), None);
    assert_eq!(heap.remove_object(&4), None);
    assert_eq!(heap.len(), 1);
    assert_eq!(heap.remove_object(&3), Some(3));
    assert_eq!(heap.extract_object(), None);
}

#[test]
fn remove_of_absent_value_changes_nothing() {
    let mut heap = BinaryHeap::heapify(&[7, 1, 9, 3], HeapKind::Min);
    let before = elements_of(&heap);
    assert_eq!(heap.remove_object(&8), None);
    assert_eq!(elements_of(&heap), before);
    assert_index_exact(&heap);
}

#[test]
fn random_removals_empty_the_heap() {
    let data = [4, 8, 3, 9, 5, 12, 11, 2, 13];
    let mut heap = BinaryHeap::heapify(&data, HeapKind::Min);
    let mut order: Vec<i32> = data.to_vec();
    order.shuffle(&mut thread_rng());
    let mut left = data.len();
    for value in order {
        assert_eq!(heap.remove_object(&value), Some(value));
        left -= 1;
        assert_eq!(heap.len(), left);
        assert_heap_order(&heap, true);
        assert_index_exact(&heap);
    }
    assert_eq!(heap.extract_object(), None);
}

#[test]
fn interior_removal_keeps_order_and_index() {
    let mut heap = BinaryHeap::heapify(&[1, 10, 2, 11, 12, 3, 4, 13, 14, 15, 16, 5], HeapKind::Min);
    assert_eq!(elements_of(&heap), vec![1, 10, 2, 11, 12, 3, 4, 13, 14, 15, 16, 5]);
    // The last element, 5, replaces 11 at position 3 and has to rise above 10.
    assert_eq!(heap.remove_object(&11), Some(11));
    assert_eq!(elements_of(&heap), vec![1, 5, 2, 10, 12, 3, 4, 13, 14, 15, 16]);
    assert_heap_order(&heap, true);
    assert_index_exact(&heap);
    // The last element, 16, replaces 2 at position 2 and has to sink below 3.
    assert_eq!(heap.remove_object(&2), Some(2));
    assert_eq!(elements_of(&heap), vec![1, 5, 3, 10, 12, 16, 4, 13, 14, 15]);
    assert_heap_order(&heap, true);
    assert_index_exact(&heap);
}

#[test]
fn interior_removal_in_a_max_heap() {
    let mut heap = BinaryHeap::heapify(&[20, 9, 19, 8, 7, 18, 17, 6, 5, 4, 3, 16], HeapKind::Max);
    assert_eq!(heap.remove_object(&8), Some(8));
    assert_heap_order(&heap, false);
    assert_index_exact(&heap);
    assert_eq!(elements_of(&heap), vec![20, 16, 19, 9, 7, 18, 17, 6, 5, 4, 3]);
}

#[test]
fn removal_of_the_last_position() {
    let mut heap = BinaryHeap::heapify(&[1, 2, 3, 4], HeapKind::Min);
    assert_eq!(heap.remove_object(&4), Some(4));
    assert_eq!(elements_of(&heap), vec![1, 2, 3]);
    assert_index_exact(&heap);
}

#[test]
fn removal_of_the_root() {
    let mut heap = BinaryHeap::heapify(&[1, 2, 3, 4], HeapKind::Min);
    assert_eq!(heap.remove_object(&1), Some(1));
    assert_eq!(elements_of(&heap), vec![2, 4, 3]);
    assert_heap_order(&heap, true);
    assert_index_exact(&heap);
}

#[test]
fn order_and_index_hold_after_mixed_operations() {
    let mut rng = thread_rng();
    let mut heap = BinaryHeap::new(HeapKind::Max);
    let mut count: usize = 0;
    for round in 0..600 {
        let value: i32 = rng.gen_range(0..40);
        match round % 3 {
            0 | 1 => {
                heap.insert(value);
                count += 1;
            }
            _ => {
                if heap.remove_object(&value).is_some() {
                    count -= 1;
                }
                if round % 2 == 0 && heap.extract_object().is_some() {
                    count -= 1;
                }
            }
        }
        assert_eq!(heap.len(), count);
        assert_heap_order(&heap, false);
        assert_index_exact(&heap);
    }
}

#[test]
fn insert_lets_the_new_element_rise() {
    let mut heap = BinaryHeap::new(HeapKind::Min);
    insert_seed_data(&mut heap, &[5, 6, 7]);
    assert_eq!(elements_of(&heap), vec![5, 6, 7]);
    heap.insert(1);
    assert_eq!(elements_of(&heap), vec![1, 5, 7, 6]);
    assert_eq!(heap.get_index(&1), Some(vec![0]));
    assert_eq!(heap.get_index(&5), Some(vec![1]));
    assert_eq!(heap.get_index(&6), Some(vec![3]));
    assert_eq!(heap.get_index(&7), Some(vec![2]));
}

#[test]
fn extract_lets_the_last_element_sink() {
    let mut heap = BinaryHeap::heapify(&[1, 5, 3, 6, 7, 4], HeapKind::Min);
    assert_eq!(heap.extract_object(), Some(1));
    assert_eq!(elements_of(&heap), vec![3, 5, 4, 6, 7]);
    assert_eq!(heap.get_index(&4), Some(vec![2]));
    assert_eq!(heap.get_index(&1), None);
}

#[test]
fn sinking_prefers_the_first_of_two_equal_children() {
    let mut heap = BinaryHeap::heapify(&[1, 2, 2, 9], HeapKind::Min);
    assert_eq!(heap.extract_object(), Some(1));
    assert_eq!(elements_of(&heap), vec![2, 9, 2]);
}

#[test]
fn empty_heap_reports_empty() {
    let mut heap = BinaryHeap::new(HeapKind::Min);
    assert!(heap.is_empty());
    assert_eq!(heap.len(), 0);
    assert_eq!(heap.peek(), None);
    assert_eq!(heap.extract_object(), None);
    assert_eq!(heap.remove_object(&1), None);
    assert_eq!(heap.get_index(&1), None);
    assert_eq!(heap.element_at(0), None);
    assert!(heap.is_empty());
    assert_eq!(heap.len(), 0);
    heap.insert(3);
    assert!(!heap.is_empty());
    assert_eq!(heap.len(), 1);
}

#[test]
fn single_element_heap() {
    let mut heap = BinaryHeap::new(HeapKind::Max);
    heap.insert(-7);
    assert_eq!(heap.peek(), Some(&-7));
    assert_eq!(heap.parent_index(0), None);
    assert_eq!(heap.children_indices(0), [None, None]);
    assert_eq!(heap.extract_object(), Some(-7));
    assert!(heap.is_empty());
    assert_eq!(heap.get_index(&-7), None);
    heap.insert(-7);
    assert_eq!(heap.remove_object(&-7), Some(-7));
    assert!(heap.is_empty());
}

#[test]
fn peek_is_repeatable() {
    let heap = BinaryHeap::heapify(&[9, 2, 7], HeapKind::Min);
    assert_eq!(heap.peek(), Some(&2));
    assert_eq!(heap.peek(), Some(&2));
    assert_eq!(heap.len(), 3);
}

#[test]
fn heapify_holds_every_item() {
    let data = [3, -1, 3, 8, 0, -1];
    let mut heap = BinaryHeap::heapify(&data, HeapKind::Min);
    assert_eq!(heap.len(), 6);
    assert_heap_order(&heap, true);
    assert_index_exact(&heap);
    let mut out = Vec::new();
    while let Some(value) = heap.extract_object() {
        out.push(value);
    }
    assert_eq!(out, vec![-1, -1, 0, 3, 3, 8]);
}

#[test]
fn verify_priority_follows_the_kind() {
    let min = BinaryHeap::new(HeapKind::Min);
    assert!(min.verify_priority(&1, &2));
    assert!(min.verify_priority(&2, &2));
    assert!(!min.verify_priority(&3, &2));
    let max = BinaryHeap::new(HeapKind::Max);
    assert!(!max.verify_priority(&1, &2));
    assert!(max.verify_priority(&2, &2));
    assert!(max.verify_priority(&3, &2));
}

#[test]
fn even_tells_even_from_odd() {
    assert!(even(0));
    assert!(!even(1));
    assert!(even(110));
    assert!(!even(usize::MAX));
}

#[test]
fn child_positions_near_the_largest_position() {
    let heap = BinaryHeap::heapify(&[1, 2, 3], HeapKind::Min);
    assert_eq!(heap.children_indices(usize::MAX), [None, None]);
    assert_eq!(heap.children_indices(usize::MAX / 2), [None, None]);
    assert_eq!(heap.parent_index(usize::MAX), None);
    assert_eq!(heap.children_indices(1), [None, None]);
    assert_eq!(heap.children_indices(0), [Some(1), Some(2)]);
}

#[test]
fn equal_values_get_equal_keys() {
    assert_eq!(hash_value(&17), hash_value(&17));
    assert_ne!(hash_value(&17), hash_value(&18));
    assert_ne!(hash_value(&-1), hash_value(&1));
}

#[test]
fn key_is_the_default_hashers_digest_of_the_bytes() {
    for value in [0i32, 1, -1, 17, i32::MAX, i32::MIN] {
        let mut hasher = DefaultHasher::new();
        hasher.write(&value.to_le_bytes());
        assert_eq!(hash_value(&value), hasher.finish());
    }
}

#[test]
fn duplicates_share_a_bucket_in_insertion_order() {
    let mut heap = BinaryHeap::new(HeapKind::Min);
    insert_seed_data(&mut heap, &[6, 6, 6]);
    assert_eq!(heap.get_index(&6), Some(vec![0, 1, 2]));
    assert_eq!(heap.remove_object(&6), Some(6));
    assert_eq!(heap.len(), 2);
    assert_index_exact(&heap);
}
