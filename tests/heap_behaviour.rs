use keyed_priority_queue::editable_binary_heap::BinaryHeap;
use keyed_priority_queue::editable_weak_heap::WeakHeap;
use keyed_priority_queue::heap_traits::{EditableHeap, HeapEntry, HeapIndex};
use keyed_priority_queue::mediator::MediatorIndex;
use std::collections::HashMap;

type Moves = Vec<(MediatorIndex, HeapIndex)>;

fn entries(priorities: &[i32]) -> Vec<HeapEntry<i32>> {
    priorities
        .iter()
        .enumerate()
        .map(|(i, &priority)| HeapEntry {
            outer_pos: MediatorIndex(i),
            priority,
        })
        .collect()
}

fn binary_is_valid(heap: &BinaryHeap<i32>) -> bool {
    let data = heap.data();
    (1..data.len()).all(|i| data[(i - 1) / 2].priority >= data[i].priority)
}

fn weak_is_valid(heap: &WeakHeap<i32>) -> bool {
    let data = heap.data();
    (1..data.len()).all(|i| {
        let ancestor = heap.distinguished_ancestor(HeapIndex(i)).0;
        data[ancestor].priority >= data[i].priority
    })
}

fn table_of<H: EditableHeap<i32>>(heap: &H) -> HashMap<MediatorIndex, HeapIndex> {
    heap.data()
        .iter()
        .enumerate()
        .map(|(i, e)| (e.outer_pos, HeapIndex(i)))
        .collect()
}

fn apply(moves: &mut Moves, table: &mut HashMap<MediatorIndex, HeapIndex>) {
    for (owner, position) in moves.drain(..) {
        table.insert(owner, position);
    }
}

fn table_matches<H: EditableHeap<i32>>(heap: &H, table: &HashMap<MediatorIndex, HeapIndex>) -> bool {
    heap.data().len() == table.len()
        && heap
            .data()
            .iter()
            .enumerate()
            .all(|(i, e)| table.get(&e.outer_pos) == Some(&HeapIndex(i)))
}

fn drain_priorities<H: EditableHeap<i32>>(heap: &mut H) -> Vec<i32> {
    let mut moves = Vec::new();
    let mut out = Vec::new();
    while let Some((_, priority)) = heap.remove(HeapIndex(0), &mut moves) {
        out.push(priority);
    }
    out
}

fn sorted_pairs<H: EditableHeap<i32>>(heap: &H) -> Vec<(usize, i32)> {
    let mut pairs: Vec<(usize, i32)> = heap
        .data()
        .iter()
        .map(|e| (e.outer_pos.0, e.priority))
        .collect();
    pairs.sort();
    pairs
}

#[test]
fn binary_build_then_pop_gives_descending_order() {
    let mut heap = BinaryHeap::from_entries_vec(entries(&[3, 1, 4, 1, 5, 9, 2, 6]));
    assert!(binary_is_valid(&heap));
    assert_eq!(drain_priorities(&mut heap), vec![9, 6, 5, 4, 3, 2, 1, 1]);
}

#[test]
fn weak_build_then_pop_gives_descending_order() {
    let mut heap = WeakHeap::from_entries_vec(entries(&[3, 1, 4, 1, 5, 9, 2, 6]));
    assert!(weak_is_valid(&heap));
    assert_eq!(drain_priorities(&mut heap), vec![9, 6, 5, 4, 3, 2, 1, 1]);
}

#[test]
fn bulk_build_keeps_every_entry() {
    let items = [7, -3, 12, 12, 0, 5, 99, -40, 8, 8, 1, 64, 2];
    let binary = BinaryHeap::from_entries_vec(entries(&items));
    let weak = WeakHeap::from_entries_vec(entries(&items));
    assert!(binary_is_valid(&binary));
    assert!(weak_is_valid(&weak));
    let mut expected: Vec<(usize, i32)> = items.iter().cloned().enumerate().collect();
    expected.sort();
    assert_eq!(sorted_pairs(&binary), expected);
    assert_eq!(sorted_pairs(&weak), expected);
    assert_eq!(binary.data()[0].priority, 99);
    assert_eq!(weak.data()[0].priority, 99);
}

#[test]
fn push_reports_new_entry_even_when_it_stays() {
    let mut heap = BinaryHeap::from_entries_vec(entries(&[50]));
    let mut moves = Vec::new();
    heap.push(MediatorIndex(1), 10, &mut moves);
    assert_eq!(moves, vec![(MediatorIndex(1), HeapIndex(1))]);
}

#[test]
fn push_reports_every_move_in_order() {
    let mut heap = BinaryHeap::from_entries_vec(Vec::new());
    let mut moves = Vec::new();
    heap.push(MediatorIndex(0), 1, &mut moves);
    heap.push(MediatorIndex(1), 2, &mut moves);
    assert_eq!(
        moves,
        vec![
            (MediatorIndex(0), HeapIndex(0)),
            (MediatorIndex(0), HeapIndex(1)),
            (MediatorIndex(1), HeapIndex(0)),
        ]
    );
}

#[test]
fn interior_remove_sifts_up_when_needed() {
    let mut heap = BinaryHeap::from_entries_vec(Vec::new());
    let mut moves = Vec::new();
    let mut table = HashMap::new();
    for (i, &p) in [10, 5, 9, 4, 3, 8].iter().enumerate() {
        heap.push(MediatorIndex(i), p, &mut moves);
        apply(&mut moves, &mut table);
    }
    assert_eq!(
        heap.data().iter().map(|e| e.priority).collect::<Vec<_>>(),
        vec![10, 5, 9, 4, 3, 8]
    );
    let removed = heap.remove(HeapIndex(3), &mut moves);
    assert_eq!(removed, Some((MediatorIndex(3), 4)));
    apply(&mut moves, &mut table);
    table.remove(&MediatorIndex(3));
    assert!(binary_is_valid(&heap));
    assert!(table_matches(&heap, &table));
    assert_eq!(
        heap.data().iter().map(|e| e.priority).collect::<Vec<_>>(),
        vec![10, 8, 9, 5, 3]
    );
}

#[test]
fn interior_remove_on_weak_heap_keeps_order_and_positions() {
    let items = [40, 12, 33, 7, 50, 21, 9, 45, 3, 28, 36, 18];
    let mut heap = WeakHeap::from_entries_vec(Vec::new());
    let mut moves = Vec::new();
    let mut table = HashMap::new();
    for (i, &p) in items.iter().enumerate() {
        heap.push(MediatorIndex(i), p, &mut moves);
        apply(&mut moves, &mut table);
    }
    for position in [5, 3, 7, 1, 2] {
        let owner = heap.data()[position].outer_pos;
        let removed = heap.remove(HeapIndex(position), &mut moves).unwrap();
        assert_eq!(removed.0, owner);
        assert_eq!(removed.1, items[owner.0]);
        apply(&mut moves, &mut table);
        table.remove(&owner);
        assert!(weak_is_valid(&heap));
        assert!(table_matches(&heap, &table));
    }
}

#[test]
fn change_priority_keeps_positions_tracked() {
    let items = [15, 4, 22, 8, 30, 1, 17, 11];
    let mut binary = BinaryHeap::from_entries_vec(entries(&items));
    let mut weak = WeakHeap::from_entries_vec(entries(&items));
    let mut binary_table = table_of(&binary);
    let mut weak_table = table_of(&weak);
    let mut moves = Vec::new();
    for (owner, updated) in [(3, 40), (4, -5), (0, 15), (6, 2), (5, 100)] {
        let position = binary_table[&MediatorIndex(owner)];
        let old = binary.change_priority(position, updated, &mut moves);
        assert_eq!(old, items[owner]);
        apply(&mut moves, &mut binary_table);
        assert!(binary_is_valid(&binary));
        assert!(table_matches(&binary, &binary_table));

        let position = weak_table[&MediatorIndex(owner)];
        let old = weak.change_priority(position, updated, &mut moves);
        assert_eq!(old, items[owner]);
        apply(&mut moves, &mut weak_table);
        assert!(weak_is_valid(&weak));
        assert!(table_matches(&weak, &weak_table));
        assert_eq!(sorted_pairs(&binary), sorted_pairs(&weak));
    }
    assert_eq!(binary.data()[0].priority, 100);
    assert_eq!(weak.data()[0].priority, 100);
}

#[test]
fn change_priority_to_same_value_changes_nothing() {
    let mut heap = WeakHeap::from_entries_vec(entries(&[6, 2, 9, 4]));
    let before: Vec<HeapEntry<i32>> = heap.data().to_vec();
    let mut moves = Vec::new();
    let position = 2;
    let same = before[position].priority;
    assert_eq!(heap.change_priority(HeapIndex(position), same, &mut moves), same);
    assert_eq!(heap.data().to_vec(), before);
    assert!(moves.is_empty());

    let mut heap = BinaryHeap::from_entries_vec(entries(&[6, 2, 9, 4]));
    let before: Vec<HeapEntry<i32>> = heap.data().to_vec();
    let same = before[1].priority;
    assert_eq!(heap.change_priority(HeapIndex(1), same, &mut moves), same);
    assert_eq!(heap.data().to_vec(), before);
    assert!(moves.is_empty());
}

#[test]
fn empty_heaps_yield_nothing() {
    let mut moves = Vec::new();
    let mut binary = BinaryHeap::<i32>::from_entries_vec(Vec::new());
    let mut weak = WeakHeap::<i32>::from_entries_vec(Vec::new());
    assert_eq!(binary.most_prioritized_idx(), None);
    assert_eq!(weak.most_prioritized_idx(), None);
    assert_eq!(binary.remove(HeapIndex(0), &mut moves), None);
    assert_eq!(weak.remove(HeapIndex(0), &mut moves), None);
    assert!(binary.is_empty());
    assert!(weak.is_empty());
    binary.clear();
    weak.clear();
    assert_eq!(binary.len(), HeapIndex(0));
    assert_eq!(weak.len(), HeapIndex(0));
    assert!(moves.is_empty());
}

#[test]
fn clear_empties_a_filled_heap() {
    let mut moves = Vec::new();
    let mut weak = WeakHeap::from_entries_vec(entries(&[1, 2, 3]));
    weak.reserve(10);
    weak.push(MediatorIndex(3), 7, &mut moves);
    assert_eq!(weak.len(), HeapIndex(4));
    weak.clear();
    assert_eq!(weak.len(), HeapIndex(0));
    assert_eq!(weak.remove(HeapIndex(0), &mut moves), None);
    weak.push(MediatorIndex(9), 5, &mut moves);
    assert_eq!(weak.most_prioritized_idx(), Some((MediatorIndex(9), HeapIndex(0))));
}

#[test]
fn out_of_range_remove_is_absent() {
    let mut moves = Vec::new();
    let mut heap = BinaryHeap::from_entries_vec(entries(&[1, 2, 3]));
    assert_eq!(heap.remove(HeapIndex(3), &mut moves), None);
    assert_eq!(heap.len(), HeapIndex(3));
}

#[test]
fn peek_names_the_maximum() {
    let heap = BinaryHeap::from_entries_vec(entries(&[4, 11, 7]));
    assert_eq!(heap.most_prioritized_idx(), Some((MediatorIndex(1), HeapIndex(0))));
    let heap = WeakHeap::from_entries_vec(entries(&[4, 11, 7]));
    assert_eq!(heap.most_prioritized_idx(), Some((MediatorIndex(1), HeapIndex(0))));
}

#[test]
fn change_outer_pos_keeps_priority_and_place() {
    let mut heap = WeakHeap::from_entries_vec(entries(&[4, 11, 7]));
    let before: Vec<HeapEntry<i32>> = heap.data().to_vec();
    assert_eq!(heap.change_outer_pos(MediatorIndex(20), HeapIndex(2)), before[2].outer_pos);
    assert_eq!(heap.data()[2].outer_pos, MediatorIndex(20));
    assert_eq!(heap.data()[2].priority, before[2].priority);
    assert_eq!(heap.data()[0], before[0]);
    assert_eq!(heap.data()[1], before[1]);
}

#[test]
fn backends_hold_the_same_entries_at_every_step() {
    let mut binary = BinaryHeap::from_entries_vec(Vec::new());
    let mut weak = WeakHeap::from_entries_vec(Vec::new());
    let mut binary_table = HashMap::new();
    let mut weak_table = HashMap::new();
    let mut moves = Vec::new();
    let mut seed: u64 = 12345;
    let mut next = || {
        seed = seed.wrapping_mul(6364136223846793005).wrapping_add(1442695040888963407);
        (seed >> 33) as i32
    };
    let mut live: Vec<usize> = Vec::new();
    for step in 0..300usize {
        let choice = next().rem_euclid(3);
        if choice == 0 || live.is_empty() {
            let priority = next().rem_euclid(50);
            binary.push(MediatorIndex(step), priority, &mut moves);
            apply(&mut moves, &mut binary_table);
            weak.push(MediatorIndex(step), priority, &mut moves);
            apply(&mut moves, &mut weak_table);
            live.push(step);
        } else {
            let k = next().rem_euclid(live.len() as i32) as usize;
            let owner = MediatorIndex(live[k]);
            if choice == 1 {
                let a = binary.remove(binary_table[&owner], &mut moves);
                apply(&mut moves, &mut binary_table);
                binary_table.remove(&owner);
                let b = weak.remove(weak_table[&owner], &mut moves);
                apply(&mut moves, &mut weak_table);
                weak_table.remove(&owner);
                assert_eq!(a, b);
                live.swap_remove(k);
            } else {
                let priority = next().rem_euclid(50);
                let a = binary.change_priority(binary_table[&owner], priority, &mut moves);
                apply(&mut moves, &mut binary_table);
                let b = weak.change_priority(weak_table[&owner], priority, &mut moves);
                apply(&mut moves, &mut weak_table);
                assert_eq!(a, b);
            }
        }
        assert_eq!(sorted_pairs(&binary), sorted_pairs(&weak));
        assert!(binary_is_valid(&binary));
        assert!(weak_is_valid(&weak));
        assert!(table_matches(&binary, &binary_table));
        assert!(table_matches(&weak, &weak_table));
    }
}

#[test]
fn entry_accessors_read_the_fields() {
    let e = HeapEntry {
        outer_pos: MediatorIndex(3),
        priority: 8,
    };
    assert_eq!(*e.priority_ref(), 8);
    assert_eq!(e.to_outer(), MediatorIndex(3));
    assert_eq!(e.conv_pair(), (MediatorIndex(3), 8));
}

#[test]
fn weak_build_layout_follows_ignorant_ancestors() {
    let heap = WeakHeap::from_entries_vec(entries(&[3, 1, 4, 1, 5, 9, 2, 6]));
    let layout: Vec<(usize, i32)> = heap.data().iter().map(|e| (e.outer_pos.0, e.priority)).collect();
    assert_eq!(
        layout,
        vec![(5, 9), (7, 6), (4, 5), (6, 2), (0, 3), (2, 4), (1, 1), (3, 1)]
    );
}

#[test]
fn binary_sift_down_prefers_second_child_on_tie() {
    let mut heap = BinaryHeap::from_entries_vec(Vec::new());
    let mut moves = Vec::new();
    heap.push(MediatorIndex(0), 5, &mut moves);
    heap.push(MediatorIndex(1), 3, &mut moves);
    heap.push(MediatorIndex(2), 3, &mut moves);
    moves.clear();
    assert_eq!(heap.change_priority(HeapIndex(0), 1, &mut moves), 5);
    let owners: Vec<usize> = heap.data().iter().map(|e| e.outer_pos.0).collect();
    assert_eq!(owners, vec![2, 1, 0]);
    assert_eq!(
        moves,
        vec![(MediatorIndex(2), HeapIndex(0)), (MediatorIndex(0), HeapIndex(2))]
    );
}

#[test]
fn every_report_names_the_owners_resting_slot() {
    let items = [12, 40, 7, 33, 40, 2, 19, 28, 51, 0, 16];
    let mut binary = BinaryHeap::from_entries_vec(Vec::new());
    let mut weak = WeakHeap::from_entries_vec(Vec::new());
    for (i, &p) in items.iter().enumerate() {
        let mut moves = Vec::new();
        binary.push(MediatorIndex(i), p, &mut moves);
        for (o, pos) in moves.iter() {
            assert_eq!(binary.data()[pos.0].outer_pos, *o);
        }
        let mut moves = Vec::new();
        weak.push(MediatorIndex(i), p, &mut moves);
        for (o, pos) in moves.iter() {
            assert_eq!(weak.data()[pos.0].outer_pos, *o);
        }
    }
    for position in [4, 0, 6, 1] {
        let mut moves = Vec::new();
        let (evicted, _) = binary.remove(HeapIndex(position), &mut moves).unwrap();
        for (o, pos) in moves.iter() {
            assert_ne!(*o, evicted);
            assert_eq!(binary.data()[pos.0].outer_pos, *o);
        }
        let mut moves = Vec::new();
        let (evicted, _) = weak.remove(HeapIndex(position), &mut moves).unwrap();
        for (o, pos) in moves.iter() {
            assert_ne!(*o, evicted);
            assert_eq!(weak.data()[pos.0].outer_pos, *o);
        }
    }
    let last = binary.data().len() - 1;
    let mut moves = Vec::new();
    let before: Vec<HeapEntry<i32>> = binary.data().to_vec();
    binary.remove(HeapIndex(last), &mut moves);
    assert!(moves.is_empty());
    assert_eq!(binary.data(), &before[..last]);
}

#[test]
fn changed_entry_is_reported_even_when_unmoved() {
    let mut moves = Vec::new();
    let mut binary = BinaryHeap::from_entries_vec(entries(&[10, 5]));
    assert_eq!(binary.change_priority(HeapIndex(1), 7, &mut moves), 5);
    assert_eq!(moves, vec![(MediatorIndex(1), HeapIndex(1))]);
    moves.clear();
    assert_eq!(binary.change_priority(HeapIndex(0), 8, &mut moves), 10);
    assert_eq!(moves, vec![(MediatorIndex(0), HeapIndex(0))]);

    moves.clear();
    let mut weak = WeakHeap::from_entries_vec(entries(&[10, 5]));
    assert_eq!(weak.change_priority(HeapIndex(1), 7, &mut moves), 5);
    assert_eq!(moves, vec![(MediatorIndex(1), HeapIndex(1))]);
    moves.clear();
    assert_eq!(weak.change_priority(HeapIndex(0), 8, &mut moves), 10);
    assert_eq!(moves, vec![(MediatorIndex(0), HeapIndex(0))]);
}
