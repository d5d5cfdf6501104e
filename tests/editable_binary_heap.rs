use keyed_priority_queue::editable_binary_heap::BinaryHeap;
use keyed_priority_queue::heap_traits::{EditableHeap, HeapEntry, HeapIndex};
use keyed_priority_queue::mediator::MediatorIndex;
use std::cmp::Reverse;
use std::collections::{HashMap, HashSet};
fn is_valid_heap(heap: &BinaryHeap<i32>) -> bool {
    let data = heap.data();
    for (i, current) in data.iter().enumerate().skip(1) {
        let parent = &data[(i - 1) / 2];
        if parent.priority < current.priority {
            return false;
        }
    }
    true
}

fn apply(moves: &mut Vec<(MediatorIndex, HeapIndex)>, table: &mut HashMap<MediatorIndex, HeapIndex>) {
    for (outer_pos, position) in moves.drain(..) {
        table.insert(outer_pos, position);
    }
}

#[test]
fn editable_binary_heap_test_heap_fill() {
    let items = [
        70, 50, 0, 1, 2, 4, 6, 7, 9, 72, 4, 4, 87, 78, 72, 6, 7, 9, 2, -50, -72, -50, -42, -1,
        -3, -13,
    ];
    let mut maximum = std::i32::MIN;
    let mut heap = <BinaryHeap<i32> as EditableHeap<i32>>::from_entries_vec(Vec::new());
    let mut moves = Vec::new();
    assert!(heap.data().get(0).is_none());
    assert!(is_valid_heap(&heap), "Heap state is invalid");
    for (key, x) in items
        .iter()
        .enumerate()
        .map(|(i, &x)| (MediatorIndex(i), x))
    {
        if x > maximum {
            maximum = x;
        }
        heap.push(key, x, &mut moves);
        assert!(
            is_valid_heap(&heap),
            "Heap state is invalid after pushing {}",
            x
        );
        assert!(heap.data().get(0).is_some());
        let heap_max = heap.data().get(0).unwrap().priority;
        assert_eq!(maximum, heap_max)
    }
}

#[test]
fn editable_binary_heap_test_change_logger() {
    let items = [
        2, 3, 21, 22, 25, 29, 36, 90, 89, 88, 87, 83, 48, 50, 52, 69, 65, 55, 73, 75, 76, -53,
        78, 81, -45, -41, 91, -34, -33, -31, -27, -22, -19, -8, -5, -3,
    ];
    let mut last_positions = HashMap::<MediatorIndex, HeapIndex>::new();
    let mut heap = <BinaryHeap<i32> as EditableHeap<i32>>::from_entries_vec(Vec::new());
    let mut moves = Vec::new();
    for (i, &x) in items.iter().enumerate() {
        heap.push(MediatorIndex(i), x, &mut moves);
        apply(&mut moves, &mut last_positions);
    }
    assert_eq!(heap.data().len(), last_positions.len());
    for i in 0..items.len() {
        let rem_idx = MediatorIndex(i);
        assert!(
            last_positions.contains_key(&rem_idx),
            "Not for all items change_handler called"
        );
        let position = last_positions[&rem_idx];
        assert_eq!(
            items[(heap.data().get(position.0).unwrap()).outer_pos.0],
            heap.data().get(position.0).unwrap().priority
        );
        assert_eq!((heap.data().get(position.0).unwrap()).outer_pos, rem_idx);
    }

    let mut removed = HashSet::<MediatorIndex>::new();
    loop {
        let popped = heap.remove(HeapIndex(0), &mut moves);
        apply(&mut moves, &mut last_positions);
        if popped.is_none() {
            break;
        }
        let (key, _) = popped.unwrap();
        last_positions.remove(&key);
        removed.insert(key);
        assert_eq!(heap.data().len(), last_positions.len());
        for i in (0..items.len())
            .into_iter()
            .filter(|i| !removed.contains(&MediatorIndex(*i)))
        {
            let rem_idx = MediatorIndex(i);
            assert!(
                last_positions.contains_key(&rem_idx),
                "Not for all items change_handler called"
            );
            let position = last_positions[&rem_idx];
            assert_eq!(
                items[(heap.data().get(position.0).unwrap()).outer_pos.0],
                heap.data().get(position.0).unwrap().priority
            );
            assert_eq!((heap.data().get(position.0).unwrap()).outer_pos, rem_idx);
        }
    }
}

#[test]
fn editable_binary_heap_test_pop() {
    let items = [
        -16, 5, 11, -1, -34, -42, -5, -6, 25, -35, 11, 35, -2, 40, 42, 40, -45, -48, 48, -38,
        -28, -33, -31, 34, -18, 25, 16, -33, -11, -6, -35, -38, 35, -41, -38, 31, -38, -23, 26,
        44, 38, 11, -49, 30, 7, 13, 12, -4, -11, -24, -49, 26, 42, 46, -25, -22, -6, -42, 28,
        45, -47, 8, 8, 21, 49, -12, -5, -33, -37, 24, -3, -26, 6, -13, 16, -40, -14, -39, -26,
        12, -44, 47, 45, -41, -22, -11, 20, 43, -44, 24, 47, 40, 43, 9, 19, 12, -17, 30, -36,
        -50, 24, -2, 1, 1, 5, -19, 21, -38, 47, 34, -14, 12, -30, 24, -2, -32, -10, 40, 34, 2,
        -33, 9, -31, -3, -15, 28, 50, -37, 35, 19, 35, 13, -2, 46, 28, 35, -40, -19, -1, -33,
        -42, -35, -12, 19, 29, 10, -31, -4, -9, 24, 15, -27, 13, 20, 15, 19, -40, -41, 40, -25,
        45, -11, -7, -19, 11, -44, -37, 35, 2, -49, 11, -37, -14, 13, 41, 10, 3, 19, -32, -12,
        -12, 33, -26, -49, -45, 24, 47, -29, -25, -45, -36, 40, 24, -29, 15, 36, 0, 47, 3, -45,
    ];

    let mut heap = <BinaryHeap<i32> as EditableHeap<i32>>::from_entries_vec(Vec::new());
    let mut moves = Vec::new();
    for (i, &x) in items.iter().enumerate() {
        heap.push(MediatorIndex(i), x, &mut moves);
    }
    assert!(is_valid_heap(&heap), "Heap is invalid before pops");

    let mut sorted_items = items;
    sorted_items.sort_unstable_by_key(|&x| Reverse(x));
    for &x in sorted_items.iter() {
        let pop_res = heap.remove(HeapIndex(0), &mut moves);
        assert!(pop_res.is_some());
        let (rem_idx, val) = pop_res.unwrap();
        assert_eq!(val, x);
        assert_eq!(items[rem_idx.0], val);
        assert!(is_valid_heap(&heap), "Heap is invalid after {}", x);
    }

    assert_eq!(heap.remove(HeapIndex(0), &mut moves), None);
}

#[test]
fn editable_binary_heap_test_change_priority() {
    let pairs = [
        (MediatorIndex(0), 0),
        (MediatorIndex(1), 1),
        (MediatorIndex(2), 2),
        (MediatorIndex(3), 3),
        (MediatorIndex(4), 4),
    ];

    let mut heap = <BinaryHeap<i32> as EditableHeap<i32>>::from_entries_vec(Vec::new());
    let mut moves = Vec::new();
    for (key, priority) in pairs.iter().cloned() {
        heap.push(key, priority, &mut moves);
    }
    assert!(is_valid_heap(&heap), "Invalid before change");
    heap.change_priority(HeapIndex(3), 10, &mut moves);
    assert!(is_valid_heap(&heap), "Invalid after upping");
    heap.change_priority(HeapIndex(2), -10, &mut moves);
    assert!(is_valid_heap(&heap), "Invalid after lowering");
}

#[test]
fn editable_binary_heap_test_clear() {
    let mut heap = <BinaryHeap<i32> as EditableHeap<i32>>::from_entries_vec(Vec::new());
    let mut moves = Vec::new();
    for x in 0..5 {
        heap.push(MediatorIndex(x), x as i32, &mut moves);
    }
    assert!(!heap.data().is_empty(), "Heap must be non empty");
    heap.clear();
    assert!(heap.data().is_empty(), "Heap must be empty");
    assert_eq!(heap.remove(HeapIndex(0), &mut moves), None);
}

#[test]
fn editable_binary_heap_test_change_change_outer_pos() {
    let mut heap = <BinaryHeap<i32> as EditableHeap<i32>>::from_entries_vec(Vec::new());
    let mut moves = Vec::new();
    for x in 0..5 {
        heap.push(MediatorIndex(x), x as i32, &mut moves);
    }
    assert_eq!(
        heap.data().get(0).map(|n| *n),
        Some(HeapEntry {
            outer_pos: MediatorIndex(4),
            priority: 4i32
        })
    );
    assert_eq!(
        heap.change_outer_pos(MediatorIndex(10), HeapIndex(0)),
        MediatorIndex(4)
    );
    assert_eq!(
        heap.data().get(0).map(|n| *n),
        Some(HeapEntry {
            outer_pos: MediatorIndex(10),
            priority: 4i32
        })
    );
}

