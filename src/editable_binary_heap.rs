use crate::heap_traits::{
    appended, holds_owner, lemma_appended_push, lemma_ge_trans, lemma_max_outranks_rest,
    lemma_order_basics, lemma_owners_insert, lemma_owners_remove, lemma_owners_same,
    lemma_reports_after_push, lemma_reports_before_push, lemma_reports_push, lemma_reports_swap,
    lemma_settle, lemma_swap_and_report, lemma_swap_remove, lemma_tracked_changes_reported,
    lemma_update_multiset, moves_track, owners_unique, priority_less, ranks_ge, report,
    report_holds, reports_accurate, reports_after, reports_before, swap_slots, swapped,
    total_order, tracked_except, EditableHeap, HeapEntry, HeapIndex, Move,
};
use crate::mediator::MediatorIndex;
use std::cmp::Ordering;
use vstd::prelude::*;
use vstd::std_specs::cmp::OrdSpec;

verus! {

broadcast use vstd::seq_lib::group_to_multiset_ensures;

/// Binary max-heap over an array: the parent of slot `i` is `(i - 1) / 2`.
#[derive(Clone, Debug)]
pub struct BinaryHeap<TPriority> where TPriority: Ord {
    data: Vec<HeapEntry<TPriority>>,
}

impl<TPriority: Ord> View for BinaryHeap<TPriority> {
    type V = Seq<HeapEntry<TPriority>>;

    closed spec fn view(&self) -> Seq<HeapEntry<TPriority>> {
        self.data@
    }
}

pub open spec fn parent(i: int) -> int {
    (i - 1) / 2
}

/// The array after sifting the entry at `pos` up: while its parent ranks
/// lower, the two trade places.
pub open spec fn sifted_up<T: Ord>(s: Seq<HeapEntry<T>>, pos: int) -> Seq<HeapEntry<T>>
    decreases pos,
{
    if pos <= 0 || s[parent(pos)].priority.cmp_spec(&s[pos].priority) != Ordering::Less {
        s
    } else {
        sifted_up(swapped(s, parent(pos), pos), parent(pos))
    }
}

/// The child of `pos` that a sift down compares with: the larger of the
/// two, the second where they rank equal.
pub open spec fn larger_child<T: Ord>(s: Seq<HeapEntry<T>>, pos: int) -> int {
    if 2 * pos + 2 < s.len() && s[2 * pos + 2].priority.cmp_spec(&s[2 * pos + 1].priority)
        != Ordering::Less {
        2 * pos + 2
    } else {
        2 * pos + 1
    }
}

/// The array after sifting the entry at `pos` down: while its larger
/// child ranks higher, the two trade places.
pub open spec fn sifted_down<T: Ord>(s: Seq<HeapEntry<T>>, pos: int) -> Seq<HeapEntry<T>>
    decreases s.len() - pos,
{
    if pos < 0 || 2 * pos + 1 >= s.len() || s[pos].priority.cmp_spec(
        &s[larger_child(s, pos)].priority,
    ) != Ordering::Less {
        s
    } else {
        sifted_down(swapped(s, pos, larger_child(s, pos)), larger_child(s, pos))
    }
}

/// The reports of a sift up from `pos`: one for each entry that moves
/// down, naming the slot it moves to, then one for the slot where the
/// sifted entry rests.
pub open spec fn sift_up_reports<T: Ord>(s: Seq<HeapEntry<T>>, pos: int) -> Seq<Move>
    decreases pos,
{
    if pos <= 0 || s[parent(pos)].priority.cmp_spec(&s[pos].priority) != Ordering::Less {
        seq![(s[pos].outer_pos, HeapIndex(pos as usize))]
    } else {
        seq![(s[parent(pos)].outer_pos, HeapIndex(pos as usize))] + sift_up_reports(
            swapped(s, parent(pos), pos),
            parent(pos),
        )
    }
}

/// The reports of a sift down from `pos`: one for each entry that moves
/// up, naming the slot it moves to, then one for the slot where the sifted
/// entry rests.
pub open spec fn sift_down_reports<T: Ord>(s: Seq<HeapEntry<T>>, pos: int) -> Seq<Move>
    decreases s.len() - pos,
{
    if pos < 0 || 2 * pos + 1 >= s.len() || s[pos].priority.cmp_spec(
        &s[larger_child(s, pos)].priority,
    ) != Ordering::Less {
        seq![(s[pos].outer_pos, HeapIndex(pos as usize))]
    } else {
        seq![(s[larger_child(s, pos)].outer_pos, HeapIndex(pos as usize))] + sift_down_reports(
            swapped(s, pos, larger_child(s, pos)),
            larger_child(s, pos),
        )
    }
}

/// The array after a bulk build has sifted down each slot before `k`,
/// from the last to the first.
pub open spec fn built_below<T: Ord>(s: Seq<HeapEntry<T>>, k: int) -> Seq<HeapEntry<T>>
    decreases k,
{
    if k <= 0 {
        s
    } else {
        built_below(sifted_down(s, k - 1), k - 1)
    }
}

/// Where the bulk build starts: `min(n / 2 + 2, n)`.
pub open spec fn build_start(n: int) -> int {
    if n / 2 + 2 < n {
        n / 2 + 2
    } else {
        n
    }
}

/// Slot `a` is slot `i` or one of its ancestors.
pub open spec fn binary_above(a: int, i: int) -> bool
    decreases i,
{
    if i <= 0 {
        i == a
    } else {
        i == a || binary_above(a, parent(i))
    }
}

/// The parent of a slot on the path from `i` to the root is on it too.
proof fn lemma_parent_above(pos: int, i: int)
    requires
        0 < pos,
        binary_above(pos, i),
    ensures
        binary_above(parent(pos), i),
    decreases i,
{
    if i != pos {
        lemma_parent_above(pos, parent(i));
    } else {
        assert(binary_above(parent(pos), parent(pos)));
    }
}

/// Every parent-child edge whose parent is at or after `lo`, and is not
/// `hole`, is ordered.
pub open spec fn order_below<T: Ord>(s: Seq<HeapEntry<T>>, lo: int, hole: int) -> bool {
    forall|i: int|
        #![trigger s[i]]
        0 < i < s.len() && lo <= parent(i) && parent(i) != hole ==> ranks_ge(
            s[parent(i)].priority,
            s[i].priority,
        )
}

/// The binary heap invariant: no child outranks its parent.
pub open spec fn binary_heap_order<T: Ord>(s: Seq<HeapEntry<T>>) -> bool {
    order_below(s, 0, -1)
}

/// Every edge but the one from `pos` up to its parent is ordered.
pub open spec fn order_except_child<T: Ord>(s: Seq<HeapEntry<T>>, pos: int) -> bool {
    forall|i: int|
        #![trigger s[i]]
        0 < i < s.len() && i != pos ==> ranks_ge(s[parent(i)].priority, s[i].priority)
}

/// The parent of `pos` (where it lies at or after `lo`) outranks the
/// children of `pos`.
pub open spec fn bridges_over<T: Ord>(s: Seq<HeapEntry<T>>, lo: int, pos: int) -> bool {
    pos > 0 && lo <= parent(pos) ==> forall|c: int|
        #![trigger s[c]]
        0 < c < s.len() && parent(c) == pos ==> ranks_ge(s[parent(pos)].priority, s[c].priority)
}

/// Ready to sift `pos` up: the heap holds but where `pos` meets its parent.
pub open spec fn up_ready<T: Ord>(s: Seq<HeapEntry<T>>, pos: int) -> bool {
    order_except_child(s, pos) && bridges_over(s, 0, pos)
}

/// Ready to sift `pos` down within the slots from `lo` on: the heap holds
/// there but where `pos` meets its children.
pub open spec fn down_ready<T: Ord>(s: Seq<HeapEntry<T>>, lo: int, pos: int) -> bool {
    order_below(s, lo, pos) && bridges_over(s, lo, pos)
}

proof fn lemma_up_step<T: Ord>(s: Seq<HeapEntry<T>>, pos: int)
    requires
        total_order::<T>(),
        0 < pos < s.len(),
        up_ready(s, pos),
        s[parent(pos)].priority.cmp_spec(&s[pos].priority) == Ordering::Less,
    ensures
        up_ready(swapped(s, parent(pos), pos), parent(pos)),
{
    lemma_order_basics::<T>();
    let p = parent(pos);
    let t = swapped(s, p, pos);
    let x = s[pos].priority;
    let y = s[p].priority;
    assert(ranks_ge(x, y));
    assert forall|i: int| #![trigger t[i]] 0 < i < t.len() && i != p implies ranks_ge(
        t[parent(i)].priority,
        t[i].priority,
    ) by {
        if i == pos {
        } else if parent(i) == pos {
            assert(s[i] == t[i]);
            assert(ranks_ge(y, s[i].priority));
        } else if parent(i) == p {
            assert(s[i] == t[i]);
            assert(ranks_ge(s[parent(i)].priority, s[i].priority));
            lemma_ge_trans(x, y, s[i].priority);
        } else {
            assert(s[i] == t[i]);
            assert(ranks_ge(s[parent(i)].priority, s[i].priority));
        }
    }
    if p > 0 {
        assert forall|c: int| #![trigger t[c]] 0 < c < t.len() && parent(c) == p implies ranks_ge(
            t[parent(p)].priority,
            t[c].priority,
        ) by {
            assert(ranks_ge(s[parent(p)].priority, s[p].priority));
            if c != pos {
                assert(s[c] == t[c]);
                assert(ranks_ge(s[parent(c)].priority, s[c].priority));
                lemma_ge_trans(s[parent(p)].priority, y, s[c].priority);
            }
        }
    }
}

proof fn lemma_down_step<T: Ord>(s: Seq<HeapEntry<T>>, lo: int, pos: int, m: int)
    requires
        total_order::<T>(),
        0 <= lo <= pos,
        m == 2 * pos + 1 || m == 2 * pos + 2,
        m < s.len(),
        forall|o: int|
            #![trigger s[o]]
            0 < o < s.len() && parent(o) == pos ==> ranks_ge(s[m].priority, s[o].priority),
        down_ready(s, lo, pos),
        s[pos].priority.cmp_spec(&s[m].priority) == Ordering::Less,
    ensures
        down_ready(swapped(s, pos, m), lo, m),
{
    lemma_order_basics::<T>();
    let t = swapped(s, pos, m);
    let x = s[pos].priority;
    let y = s[m].priority;
    assert(parent(m) == pos);
    assert forall|i: int|
        #![trigger t[i]]
        0 < i < t.len() && lo <= parent(i) && parent(i) != m implies ranks_ge(
        t[parent(i)].priority,
        t[i].priority,
    ) by {
        if i == m {
        } else if parent(i) == pos {
            assert(s[i] == t[i]);
        } else if i == pos {
            assert(s[parent(pos)] == t[parent(pos)]);
        } else {
            assert(s[i] == t[i]);
            assert(s[parent(i)] == t[parent(i)]);
        }
    }
    assert forall|c: int| #![trigger t[c]] 0 < c < t.len() && parent(c) == m implies ranks_ge(
        t[parent(m)].priority,
        t[c].priority,
    ) by {
        assert(s[c] == t[c]);
    }
}

proof fn lemma_down_done<T: Ord>(s: Seq<HeapEntry<T>>, lo: int, pos: int)
    requires
        total_order::<T>(),
        0 <= lo <= pos < s.len(),
        down_ready(s, lo, pos),
        forall|c: int|
            #![trigger s[c]]
            0 < c < s.len() && parent(c) == pos ==> ranks_ge(s[pos].priority, s[c].priority),
    ensures
        order_below(s, lo, -1),
{
    assert forall|i: int|
        #![trigger s[i]]
        0 < i < s.len() && lo <= parent(i) && parent(i) != -1 implies ranks_ge(
        s[parent(i)].priority,
        s[i].priority,
    ) by {
        if parent(i) == pos {
        }
    }
}

/// Ordered prefixes of a heap are heaps.
proof fn lemma_order_prefix<T: Ord>(s: Seq<HeapEntry<T>>, n: int)
    requires
        0 <= n <= s.len(),
        binary_heap_order(s),
        owners_unique(s),
    ensures
        binary_heap_order(s.subrange(0, n)),
        owners_unique(s.subrange(0, n)),
{
    let t = s.subrange(0, n);
    assert forall|i: int| #![trigger t[i]] 0 < i < t.len() implies ranks_ge(
        t[parent(i)].priority,
        t[i].priority,
    ) by {
        assert(t[i] == s[i]);
        assert(t[parent(i)] == s[parent(i)]);
    }
}

/// Putting into slot `pos` an entry that outranks the one there leaves the
/// heap ready to sift `pos` up.
proof fn lemma_replace_up<T: Ord>(s: Seq<HeapEntry<T>>, pos: int, v: HeapEntry<T>)
    requires
        total_order::<T>(),
        0 <= pos < s.len(),
        binary_heap_order(s),
        ranks_ge(v.priority, s[pos].priority),
    ensures
        up_ready(s.update(pos, v), pos),
{
    let t = s.update(pos, v);
    assert forall|i: int| #![trigger t[i]] 0 < i < t.len() && i != pos implies ranks_ge(
        t[parent(i)].priority,
        t[i].priority,
    ) by {
        assert(s[i] == t[i]);
        if parent(i) == pos {
            lemma_ge_trans(v.priority, s[pos].priority, s[i].priority);
        }
    }
    if pos > 0 {
        assert forall|c: int| #![trigger t[c]] 0 < c < t.len() && parent(c) == pos implies ranks_ge(
            t[parent(pos)].priority,
            t[c].priority,
        ) by {
            assert(s[c] == t[c]);
            assert(ranks_ge(s[parent(pos)].priority, s[pos].priority));
            lemma_ge_trans(s[parent(pos)].priority, s[pos].priority, s[c].priority);
        }
    }
}

/// Putting into slot `pos` an entry that its parent outranks leaves the
/// heap ready to sift `pos` down.
proof fn lemma_replace_down<T: Ord>(s: Seq<HeapEntry<T>>, pos: int, v: HeapEntry<T>)
    requires
        total_order::<T>(),
        0 <= pos < s.len(),
        binary_heap_order(s),
        pos > 0 ==> ranks_ge(s[parent(pos)].priority, v.priority),
    ensures
        down_ready(s.update(pos, v), 0, pos),
{
    let t = s.update(pos, v);
    assert forall|i: int|
        #![trigger t[i]]
        0 < i < t.len() && 0 <= parent(i) && parent(i) != pos implies ranks_ge(
        t[parent(i)].priority,
        t[i].priority,
    ) by {
        if i != pos {
            assert(s[i] == t[i]);
        }
    }
    if pos > 0 {
        assert forall|c: int| #![trigger t[c]] 0 < c < t.len() && parent(c) == pos implies ranks_ge(
            t[parent(pos)].priority,
            t[c].priority,
        ) by {
            assert(s[c] == t[c]);
            assert(ranks_ge(s[parent(pos)].priority, s[pos].priority));
            lemma_ge_trans(s[parent(pos)].priority, s[pos].priority, s[c].priority);
        }
    }
}

/// In a binary heap the entry in slot 0 outranks every entry.
pub proof fn lemma_root_is_max<T: Ord>(s: Seq<HeapEntry<T>>)
    requires
        total_order::<T>(),
        binary_heap_order(s),
    ensures
        forall|i: int| 0 <= i < s.len() ==> ranks_ge(s[0].priority, #[trigger] s[i].priority),
{
    lemma_order_basics::<T>();
    assert forall|i: int| 0 <= i < s.len() implies ranks_ge(s[0].priority, #[trigger] s[i].priority) by {
        lemma_root_above(s, i);
    }
}

proof fn lemma_root_above<T: Ord>(s: Seq<HeapEntry<T>>, i: int)
    requires
        total_order::<T>(),
        binary_heap_order(s),
        0 <= i < s.len(),
    ensures
        ranks_ge(s[0].priority, s[i].priority),
    decreases i,
{
    lemma_order_basics::<T>();
    if i > 0 {
        lemma_root_above(s, parent(i));
        assert(ranks_ge(s[parent(i)].priority, s[i].priority));
        lemma_ge_trans(s[0].priority, s[parent(i)].priority, s[i].priority);
    }
}

proof fn lemma_sifted_up_order<T: Ord>(t: Seq<HeapEntry<T>>, pos: int)
    requires
        total_order::<T>(),
        0 <= pos < t.len(),
        up_ready(t, pos),
    ensures
        binary_heap_order(sifted_up(t, pos)),
    decreases pos,
{
    if pos > 0 && t[parent(pos)].priority.cmp_spec(&t[pos].priority) == Ordering::Less {
        lemma_up_step(t, pos);
        lemma_sifted_up_order(swapped(t, parent(pos), pos), parent(pos));
    } else {
        assert forall|i: int| #![trigger t[i]] 0 < i < t.len() && 0 <= parent(i) && parent(i) != -1 implies ranks_ge(
            t[parent(i)].priority,
            t[i].priority,
        ) by {
            assert(order_except_child(t, pos));
        }
    }
}

/// Pushing onto a binary heap keeps it a heap, whatever the owners: the
/// array that `push` leaves (see `after_push`) is ordered.
pub proof fn lemma_push_keeps_heap_order<T: Ord>(s: Seq<HeapEntry<T>>, e: HeapEntry<T>)
    requires
        total_order::<T>(),
        binary_heap_order(s),
    ensures
        binary_heap_order(sifted_up(s.push(e), s.len() as int)),
{
    let t = s.push(e);
    let n = s.len() as int;
    assert forall|i: int| #![trigger t[i]] 0 < i < t.len() && i != n implies ranks_ge(
        t[parent(i)].priority,
        t[i].priority,
    ) by {
        assert(t[i] == s[i]);
        assert(t[parent(i)] == s[parent(i)]);
    }
    lemma_sifted_up_order(t, n);
}

impl<TPriority: Ord> BinaryHeap<TPriority> {
    /// Sifts the entry at `position` up until its parent outranks it,
    /// reporting each entry moved and, last, where the sifted one rests.
    pub fn heapify_up(
        &mut self,
        position: HeapIndex,
        changes: &mut Vec<Move>,
        Ghost(before): Ghost<Seq<HeapEntry<TPriority>>>,
    )
        requires
            total_order::<TPriority>(),
            position.0 < old(self)@.len(),
            owners_unique(old(self)@),
            up_ready(old(self)@, position.0 as int),
            tracked_except(
                before,
                old(self)@,
                appended(old(changes)@, old(changes)@.len() as int),
                position.0 as int,
            ),
        ensures
            appended(final(changes)@, old(changes)@.len() as int) == sift_up_reports(
                old(self)@,
                position.0 as int,
            ),
            final(changes)@.len() > old(changes)@.len(),
            final(changes)@.last().0 == old(self)@[position.0 as int].outer_pos,
            final(changes)@.last().1.0 < final(self)@.len(),
            final(self)@[final(changes)@.last().1.0 as int] == old(self)@[position.0 as int],
            final(self)@ == sifted_up(old(self)@, position.0 as int),
            binary_heap_order(final(self)@),
            owners_unique(final(self)@),
            final(self)@.to_multiset() == old(self)@.to_multiset(),
            final(self)@.len() == old(self)@.len(),
            final(changes)@.subrange(0, old(changes)@.len() as int) == old(changes)@,
            moves_track(
                before,
                final(self)@,
                appended(final(changes)@, old(changes)@.len() as int),
            ),
            reports_accurate(final(self)@, appended(final(changes)@, old(changes)@.len() as int)),
            forall|i: int|
                0 <= i < old(self)@.len() && !binary_above(i, position.0 as int) ==> #[trigger] final(self)@[i]
                    == old(self)@[i],
    {
        let ghost start = old(changes)@.len() as int;
        let ghost orig = position.0 as int;
        let mut position: usize = position.0;
        let len = self.data.len();
        let mut done = false;
        while position > 0 && !done
            invariant
                total_order::<TPriority>(),
                len == self.data@.len(),
                position < self.data@.len(),
                self.data@.len() == old(self)@.len(),
                owners_unique(self.data@),
                up_ready(self.data@, position as int),
                done ==> position > 0 && ranks_ge(
                    self.data@[parent(position as int)].priority,
                    self.data@[position as int].priority,
                ),
                self.data@.to_multiset() == old(self)@.to_multiset(),
                start == old(changes)@.len(),
                start <= changes@.len(),
                changes@.subrange(0, start) == old(changes)@,
                tracked_except(before, self.data@, appended(changes@, start), position as int),
                reports_accurate(self.data@, appended(changes@, start)),
                reports_after(appended(changes@, start), position as int),
                binary_above(position as int, orig),
                self.data@[position as int] == old(self)@[orig],
                sifted_up(self.data@, position as int) == sifted_up(old(self)@, orig),
                appended(changes@, start) + sift_up_reports(self.data@, position as int)
                    == sift_up_reports(old(self)@, orig),
                forall|i: int|
                    0 <= i < len && !binary_above(i, orig) ==> #[trigger] self.data@[i] == old(self)@[i],
            decreases position + if done { 0int } else { 1int },
        {
            let parent_pos = (position - 1) / 2;
            if !priority_less(&self.data[parent_pos].priority, &self.data[position].priority) {
                done = true;
            } else {
                proof {
                    lemma_up_step(self.data@, position as int);
                    lemma_swap_and_report(
                        before,
                        self.data@,
                        changes@,
                        start,
                        position as int,
                        parent_pos as int,
                    );
                    let t = swapped(self.data@, parent_pos as int, position as int);
                    assert(swapped(self.data@, position as int, parent_pos as int) =~= t);
                    lemma_appended_push(changes@, start, (t[position as int].outer_pos, HeapIndex(position)));
                    lemma_reports_swap(self.data@, appended(changes@, start), parent_pos as int, position as int);
                    lemma_reports_push(t, appended(changes@, start), (t[position as int].outer_pos, HeapIndex(position)));
                    lemma_reports_after_push(appended(changes@, start), (t[position as int].outer_pos, HeapIndex(position)), position as int, parent_pos as int);
                }
                proof {
                    lemma_parent_above(position as int, orig);
                }
                let ghost s0 = self.data@;
                let ghost a0 = appended(changes@, start);
                swap_slots(&mut self.data, parent_pos, position);
                report(changes, self.data[position].outer_pos, position);
                proof {
                    assert(appended(changes@, start) + sift_up_reports(self.data@, parent_pos as int)
                        =~= a0 + sift_up_reports(s0, position as int));
                }
                position = parent_pos;
            }
        }
        proof {
            assert forall|i: int|
                #![trigger self.data@[i]]
                0 < i < self.data@.len() && 0 <= parent(i) && parent(i) != -1 implies ranks_ge(
                self.data@[parent(i)].priority,
                self.data@[i].priority,
            ) by {
                assert(order_except_child(self.data@, position as int));
            }
            lemma_settle(before, self.data@, changes@, start, position as int);
            lemma_appended_push(changes@, start, (self.data@[position as int].outer_pos, HeapIndex(position)));
            lemma_reports_push(self.data@, appended(changes@, start), (self.data@[position as int].outer_pos, HeapIndex(position)));
        }
        let ghost a0 = appended(changes@, start);
        report(changes, self.data[position].outer_pos, position);
        proof {
            assert(appended(changes@, start) =~= a0 + sift_up_reports(self.data@, position as int));
        }
    }

    /// Sifts the entry at `position` down until it outranks its children,
    /// a child being preferred over the first where the two rank equal;
    /// reports each entry moved and, last, where the sifted one rests.
    /// The heap order is restored over the slots from `lo` on.
    pub fn heapify_down(
        &mut self,
        position: HeapIndex,
        changes: &mut Vec<Move>,
        Ghost(before): Ghost<Seq<HeapEntry<TPriority>>>,
        Ghost(lo): Ghost<int>,
    )
        requires
            total_order::<TPriority>(),
            0 <= lo <= position.0 < old(self)@.len(),
            owners_unique(old(self)@),
            down_ready(old(self)@, lo, position.0 as int),
            tracked_except(
                before,
                old(self)@,
                appended(old(changes)@, old(changes)@.len() as int),
                position.0 as int,
            ),
        ensures
            appended(final(changes)@, old(changes)@.len() as int) == sift_down_reports(
                old(self)@,
                position.0 as int,
            ),
            final(changes)@.len() > old(changes)@.len(),
            final(changes)@.last().0 == old(self)@[position.0 as int].outer_pos,
            final(changes)@.last().1.0 < final(self)@.len(),
            final(self)@[final(changes)@.last().1.0 as int] == old(self)@[position.0 as int],
            final(self)@ == sifted_down(old(self)@, position.0 as int),
            order_below(final(self)@, lo, -1),
            owners_unique(final(self)@),
            final(self)@.to_multiset() == old(self)@.to_multiset(),
            final(self)@.len() == old(self)@.len(),
            final(changes)@.subrange(0, old(changes)@.len() as int) == old(changes)@,
            moves_track(
                before,
                final(self)@,
                appended(final(changes)@, old(changes)@.len() as int),
            ),
            reports_accurate(final(self)@, appended(final(changes)@, old(changes)@.len() as int)),
            forall|i: int|
                0 <= i < old(self)@.len() && !binary_above(position.0 as int, i) ==> #[trigger] final(self)@[i]
                    == old(self)@[i],
    {
        let ghost start = old(changes)@.len() as int;
        let ghost orig = position.0 as int;
        let mut position: usize = position.0;
        let len = self.data.len();
        let mut done = false;
        while !done
            invariant
                total_order::<TPriority>(),
                len == self.data@.len(),
                0 <= lo <= position < len,
                self.data@.len() == old(self)@.len(),
                owners_unique(self.data@),
                down_ready(self.data@, lo, position as int),
                done ==> order_below(self.data@, lo, -1),
                self.data@.to_multiset() == old(self)@.to_multiset(),
                start == old(changes)@.len(),
                start <= changes@.len(),
                changes@.subrange(0, start) == old(changes)@,
                tracked_except(before, self.data@, appended(changes@, start), position as int),
                reports_accurate(self.data@, appended(changes@, start)),
                reports_before(appended(changes@, start), position as int),
                binary_above(orig, position as int),
                self.data@[position as int] == old(self)@[orig],
                sifted_down(self.data@, position as int) == sifted_down(old(self)@, orig),
                appended(changes@, start) + sift_down_reports(self.data@, position as int)
                    == sift_down_reports(old(self)@, orig),
                done ==> sift_down_reports(self.data@, position as int) == seq![
                    (self.data@[position as int].outer_pos, HeapIndex(position)),
                ],
                done ==> sifted_down(self.data@, position as int) == self.data@,
                forall|i: int|
                    0 <= i < len && !binary_above(orig, i) ==> #[trigger] self.data@[i] == old(self)@[i],
            decreases len - position + if done { 0int } else { 1int },
        {
            if position >= len / 2 {
                proof {
                    lemma_down_done(self.data@, lo, position as int);
                }
                done = true;
            } else {
                let child1 = position * 2 + 1;
                let child2 = child1 + 1;
                let max_child_idx = if child2 < len && !priority_less(
                    &self.data[child2].priority,
                    &self.data[child1].priority,
                ) {
                    proof {
                        lemma_order_basics::<TPriority>();
                    }
                    child2
                } else {
                    proof {
                        lemma_order_basics::<TPriority>();
                    }
                    child1
                };
                proof {
                    lemma_order_basics::<TPriority>();
                    assert forall|o: int|
                        #![trigger self.data@[o]]
                        0 < o < self.data@.len() && parent(o) == position implies ranks_ge(
                        self.data@[max_child_idx as int].priority,
                        self.data@[o].priority,
                    ) by {
                        assert(o == child1 || o == child2);
                    }
                }
                if !priority_less(&self.data[position].priority, &self.data[max_child_idx].priority) {
                    proof {
                        assert forall|c: int|
                            #![trigger self.data@[c]]
                            0 < c < self.data@.len() && parent(c) == position implies ranks_ge(
                            self.data@[position as int].priority,
                            self.data@[c].priority,
                        ) by {
                            lemma_ge_trans(
                                self.data@[position as int].priority,
                                self.data@[max_child_idx as int].priority,
                                self.data@[c].priority,
                            );
                        }
                        lemma_down_done(self.data@, lo, position as int);
                    }
                    done = true;
                } else {
                    proof {
                        lemma_down_step(self.data@, lo, position as int, max_child_idx as int);
                        lemma_swap_and_report(
                            before,
                            self.data@,
                            changes@,
                            start,
                            position as int,
                            max_child_idx as int,
                        );
                        let t = swapped(self.data@, position as int, max_child_idx as int);
                        lemma_appended_push(changes@, start, (t[position as int].outer_pos, HeapIndex(position)));
                        lemma_reports_swap(self.data@, appended(changes@, start), position as int, max_child_idx as int);
                        lemma_reports_push(t, appended(changes@, start), (t[position as int].outer_pos, HeapIndex(position)));
                        lemma_reports_before_push(appended(changes@, start), (t[position as int].outer_pos, HeapIndex(position)), position as int, max_child_idx as int);
                    }
                    proof {
                        assert(parent(max_child_idx as int) == position);
                        assert(binary_above(orig, max_child_idx as int));
                    }
                    let ghost s0 = self.data@;
                    let ghost a0 = appended(changes@, start);
                    swap_slots(&mut self.data, position, max_child_idx);
                    report(changes, self.data[position].outer_pos, position);
                    proof {
                        assert(appended(changes@, start) + sift_down_reports(
                            self.data@,
                            max_child_idx as int,
                        ) =~= a0 + sift_down_reports(s0, position as int));
                    }
                    position = max_child_idx;
                }
            }
        }
        proof {
            lemma_settle(before, self.data@, changes@, start, position as int);
            lemma_appended_push(changes@, start, (self.data@[position as int].outer_pos, HeapIndex(position)));
            lemma_reports_push(self.data@, appended(changes@, start), (self.data@[position as int].outer_pos, HeapIndex(position)));
        }
        let ghost a0 = appended(changes@, start);
        report(changes, self.data[position].outer_pos, position);
        proof {
            assert(appended(changes@, start) =~= a0 + sift_down_reports(self.data@, position as int));
        }
    }
}

impl<TPriority: Ord> EditableHeap<TPriority> for BinaryHeap<TPriority> {
    open spec fn entries(&self) -> Seq<HeapEntry<TPriority>> {
        self@
    }

    open spec fn well_formed(&self) -> bool {
        binary_heap_order(self@) && owners_unique(self@)
    }

    open spec fn side_marks(&self) -> Seq<bool> {
        Seq::new(self@.len(), |i: int| false)
    }

    open spec fn is_above(a: int, i: int) -> bool {
        binary_above(a, i)
    }

    open spec fn build_layout(base: Seq<HeapEntry<TPriority>>) -> Seq<HeapEntry<TPriority>> {
        built_below(base, build_start(base.len() as int))
    }

    open spec fn build_marks(base: Seq<HeapEntry<TPriority>>) -> Seq<bool> {
        Seq::new(base.len(), |i: int| false)
    }

    open spec fn after_push(&self, e: HeapEntry<TPriority>) -> (
        Seq<HeapEntry<TPriority>>,
        Seq<bool>,
    ) {
        let s = sifted_up(self@.push(e), self@.len() as int);
        (s, Seq::new(s.len(), |i: int| false))
    }

    open spec fn after_remove(&self, pos: int) -> (Seq<HeapEntry<TPriority>>, Seq<bool>) {
        let n = self@.len() as int;
        let u = self@.subrange(0, n - 1).update(pos, self@[n - 1]);
        let s = if pos + 1 == n {
            self@.subrange(0, n - 1)
        } else if pos > 0 && u[parent(pos)].priority.cmp_spec(&u[pos].priority) == Ordering::Less {
            sifted_up(u, pos)
        } else {
            sifted_down(u, pos)
        };
        (s, Seq::new(s.len(), |i: int| false))
    }

    open spec fn after_change(&self, pos: int, updated: TPriority) -> (
        Seq<HeapEntry<TPriority>>,
        Seq<bool>,
    ) {
        let e = self@[pos];
        let u = self@.update(pos, HeapEntry { outer_pos: e.outer_pos, priority: updated });
        let s = if e.priority.cmp_spec(&updated) == Ordering::Less {
            sifted_up(u, pos)
        } else if e.priority.cmp_spec(&updated) == Ordering::Equal {
            u
        } else {
            sifted_down(u, pos)
        };
        (s, Seq::new(s.len(), |i: int| false))
    }

    fn from_entries_vec(heap_base: Vec<HeapEntry<TPriority>>) -> (heap: Self) {
        let len = heap_base.len();
        let heapify_start = if len / 2 + 2 < len {
            len / 2 + 2
        } else {
            len
        };
        let ghost base = heap_base@;
        let mut heap = BinaryHeap { data: heap_base };
        let mut scratch: Vec<Move> = Vec::new();
        let mut pos = heapify_start;
        while pos > 0
            invariant
                total_order::<TPriority>(),
                pos <= heapify_start <= len,
                len == heap.data@.len(),
                order_below(heap.data@, pos as int, -1),
                owners_unique(heap.data@),
                heap.data@.to_multiset() == base.to_multiset(),
                heapify_start == build_start(len as int),
                built_below(heap.data@, pos as int) == built_below(base, heapify_start as int),
            decreases pos,
        {
            pos = pos - 1;
            let ghost cur = heap.data@;
            heap.heapify_down(HeapIndex(pos), &mut scratch, Ghost(cur), Ghost(pos as int));
        }
        proof {
            lemma_owners_same(base, heap.data@);
        }
        heap
    }

    fn reserve(&mut self, additional: usize) {
        self.data.reserve(additional)
    }

    fn push(&mut self, outer_pos: MediatorIndex, priority: TPriority, changes: &mut Vec<Move>) {
        let ghost before = self.data@;
        self.data.push(HeapEntry { outer_pos, priority });
        let n = self.data.len() - 1;
        proof {
            assert forall|i: int| 0 <= i < n implies #[trigger] self.data@[i] == before[i] by {}
            assert forall|i: int| 0 <= i < n implies before[i].outer_pos != outer_pos by {
                if before[i].outer_pos == outer_pos {
                    assert(before[i].outer_pos == outer_pos);
                }
            }
        }
        let ghost pushed = self.data@[self.data@.len() - 1];
        self.heapify_up(HeapIndex(n), changes, Ghost(before));
        proof {
            lemma_owners_insert(before, self.data@, pushed);
        }
        proof {
            lemma_tracked_changes_reported(
                before,
                self.data@,
                appended(changes@, old(changes)@.len() as int),
            );
        }
    }

    fn remove(&mut self, position: HeapIndex, changes: &mut Vec<Move>) -> (r: Option<
        (MediatorIndex, TPriority),
    >) {
        let ghost before = self.data@;
        proof {
            lemma_root_is_max(before);
        }
        let n = self.data.len();
        if position.0 >= n {
            proof {
                assert(changes@.subrange(0, changes@.len() as int) =~= changes@);
            }
            proof {
                lemma_tracked_changes_reported(
                    before,
                    self.data@,
                    appended(changes@, old(changes)@.len() as int),
                );
            }
            return None;
        }
        if position.0 + 1 == n {
            let result = match self.data.pop() {
                Some(e) => e,
                None => {
                    proof {
                        lemma_tracked_changes_reported(
                            before,
                            self.data@,
                            appended(changes@, old(changes)@.len() as int),
                        );
                    }
                    return None;
                },
            };
            proof {
                lemma_order_prefix(before, n - 1);
                vstd::seq_lib::to_multiset_remove(before, n - 1);
                assert(before.remove(n - 1) =~= before.subrange(0, n - 1));
                assert(changes@.subrange(0, changes@.len() as int) =~= changes@);
                lemma_owners_remove(before, self.data@, n - 1);
            }
            proof {
                lemma_tracked_changes_reported(
                    before,
                    self.data@,
                    appended(changes@, old(changes)@.len() as int),
                );
            }
            return Some(result.conv_pair());
        }
        let pos = position.0;
        let result = self.data.swap_remove(pos);
        proof {
            lemma_order_prefix(before, n - 1);
            lemma_swap_remove(before, pos as int);
            assert(self.data@ =~= before.subrange(0, n - 1).update(pos as int, before[n - 1]));
        }
        if pos > 0 && priority_less(&self.data[(pos - 1) / 2].priority, &self.data[pos].priority) {
            proof {
                let p = before.subrange(0, n - 1);
                assert(ranks_ge(p[parent(pos as int)].priority, p[pos as int].priority));
                lemma_order_basics::<TPriority>();
                lemma_ge_trans(before[n - 1].priority, p[parent(pos as int)].priority, p[pos as int].priority);
                lemma_replace_up(p, pos as int, before[n - 1]);
            }
            self.heapify_up(position, changes, Ghost(before));
        } else {
            proof {
                lemma_replace_down(before.subrange(0, n - 1), pos as int, before[n - 1]);
            }
            self.heapify_down(position, changes, Ghost(before), Ghost(0));
        }
        proof {
            if pos == 0 {
                lemma_max_outranks_rest(before, self.data@);
            }
            lemma_owners_remove(before, self.data@, pos as int);
            let mv = appended(changes@, old(changes)@.len() as int);
            assert forall|k: int| 0 <= k < mv.len() implies (#[trigger] mv[k]).0
                != before[pos as int].outer_pos by {
                assert(report_holds(self.data@, mv[k]));
                assert(self.data@[mv[k].1.0 as int].outer_pos == mv[k].0);
                assert(holds_owner(self.data@, mv[k].0));
            }
        }
        proof {
            lemma_tracked_changes_reported(
                before,
                self.data@,
                appended(changes@, old(changes)@.len() as int),
            );
        }
        Some(result.conv_pair())
    }

    fn data(&self) -> (r: &[HeapEntry<TPriority>]) {
        self.data.as_slice()
    }

    fn change_outer_pos(&mut self, outer_pos: MediatorIndex, position: HeapIndex) -> (r:
        MediatorIndex) {
        let ghost before = self.data@;
        let old_pos = self.data[position.0].outer_pos;
        self.data[position.0].outer_pos = outer_pos;
        proof {
            assert forall|i: int| 0 <= i < before.len() implies #[trigger] self.data@[i].priority
                == before[i].priority by {}
        }
        old_pos
    }

    fn change_priority(
        &mut self,
        position: HeapIndex,
        updated: TPriority,
        changes: &mut Vec<Move>,
    ) -> (r: TPriority) {
        let ghost before = self.data@;
        let pos = position.0;
        let outer = self.data[pos].outer_pos;
        let mut entry = HeapEntry { outer_pos: outer, priority: updated };
        std::mem::swap(&mut self.data[pos], &mut entry);
        let previous = entry.priority;
        let ghost updated_entry = self.data@[pos as int];
        proof {
            lemma_order_basics::<TPriority>();
            lemma_update_multiset(before, pos as int, self.data@[pos as int]);
            assert(self.data@ =~= before.update(pos as int, self.data@[pos as int]));
        }
        match previous.cmp(&self.data[pos].priority) {
            Ordering::Less => {
                proof {
                    lemma_replace_up(before, pos as int, self.data@[pos as int]);
                }
                self.heapify_up(position, changes, Ghost(before));
                proof {
                    let mv = appended(changes@, old(changes)@.len() as int);
                    assert(mv[mv.len() - 1] == changes@.last());
                }
            },
            Ordering::Equal => {
                proof {
                    let t = self.data@;
                    if pos > 0 {
                        lemma_ge_trans(before[parent(pos as int)].priority, previous, t[pos as int].priority);
                    }
                    lemma_replace_down(before, pos as int, t[pos as int]);
                    assert forall|c: int|
                        #![trigger t[c]]
                        0 < c < t.len() && parent(c) == pos implies ranks_ge(
                        t[pos as int].priority,
                        t[c].priority,
                    ) by {
                        assert(t[c] == before[c]);
                        lemma_ge_trans(t[pos as int].priority, previous, t[c].priority);
                    }
                    lemma_down_done(t, 0, pos as int);
                    assert(changes@.subrange(0, changes@.len() as int) =~= changes@);
                }
            },
            Ordering::Greater => {
                proof {
                    if pos > 0 {
                        lemma_ge_trans(before[parent(pos as int)].priority, previous, self.data@[pos as int].priority);
                    }
                    lemma_replace_down(before, pos as int, self.data@[pos as int]);
                }
                self.heapify_down(position, changes, Ghost(before), Ghost(0));
                proof {
                    let mv = appended(changes@, old(changes)@.len() as int);
                    assert(mv[mv.len() - 1] == changes@.last());
                }
            },
        }
        proof {
            let m = before.remove(pos as int);
            vstd::seq_lib::to_multiset_remove(before, pos as int);
            lemma_owners_remove(before, m, pos as int);
            lemma_owners_insert(m, self.data@, updated_entry);
        }
        proof {
            lemma_tracked_changes_reported(
                before,
                self.data@,
                appended(changes@, old(changes)@.len() as int),
            );
        }
        previous
    }

    fn most_prioritized_idx(&self) -> (r: Option<(MediatorIndex, HeapIndex)>) {
        proof {
            if self.well_formed() && total_order::<TPriority>() {
                lemma_root_is_max(self.data@);
            }
        }
        if self.data.len() == 0 {
            None
        } else {
            Some((self.data[0].outer_pos, HeapIndex(0)))
        }
    }

    fn clear(&mut self) {
        self.data.clear();
    }
}

} // verus!
